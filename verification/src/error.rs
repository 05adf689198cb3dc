//! The errors of the library.

use vstd::prelude::*;

verus! {

/// Why a construction or a run was refused.
#[derive(Debug, PartialEq, Eq)]
pub enum Error {
    /// A textual pattern or expression is malformed; the message says how.
    Parse(String),
    /// An operator occurs with two different numbers of children.
    ArityMismatch { op: String, expected: usize, found: usize },
    /// The name of the cost model is not one that the library knows.
    UnknownCostModel(String),
    /// A rule could not be assembled: a variable of its right-hand side is
    /// not bound by its left-hand side. The message names the variable.
    Rule(String),
    /// Two rules of a rule set have this name.
    DuplicateRule(String),
    /// A node names a child that does not stand before it.
    BadChild { node: usize, child: usize },
    /// The expression has more nodes than a class identifier can address.
    TooLarge,
    /// The expression has no node.
    Empty,
}

/// What an error says, in mathematical values.
pub enum Defect {
    Parse(Seq<char>),
    ArityMismatch { op: Seq<char>, expected: nat, found: nat },
    UnknownCostModel(Seq<char>),
    Rule(Seq<char>),
    DuplicateRule(Seq<char>),
    BadChild { node: nat, child: nat },
    TooLarge,
    Empty,
}

impl View for Error {
    type V = Defect;

    open spec fn view(&self) -> Defect {
        match *self {
            Error::Parse(m) => Defect::Parse(m@),
            Error::ArityMismatch { op, expected, found } => Defect::ArityMismatch {
                op: op@,
                expected: expected as nat,
                found: found as nat,
            },
            Error::UnknownCostModel(name) => Defect::UnknownCostModel(name@),
            Error::Rule(m) => Defect::Rule(m@),
            Error::DuplicateRule(name) => Defect::DuplicateRule(name@),
            Error::BadChild { node, child } => Defect::BadChild {
                node: node as nat,
                child: child as nat,
            },
            Error::TooLarge => Defect::TooLarge,
            Error::Empty => Defect::Empty,
        }
    }
}

} // verus!
