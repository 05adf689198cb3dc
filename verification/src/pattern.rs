//! Patterns: expressions with variables. A rule may use on its right-hand
//! side only variables that its left-hand side binds.

use crate::node::{Node, NodeView};
use vstd::prelude::*;

verus! {

/// One node of a pattern in flat form: a variable, whose text begins
/// with a question mark, or an operator with the positions of its children.
#[derive(Debug, PartialEq, Eq)]
pub enum PatternNode {
    Var(String),
    Op(Node),
}

/// A node of a pattern in mathematical values.
pub enum PatternNodeView {
    Var(Seq<char>),
    Op(NodeView),
}

impl View for PatternNode {
    type V = PatternNodeView;

    open spec fn view(&self) -> PatternNodeView {
        match *self {
            PatternNode::Var(v) => PatternNodeView::Var(v@),
            PatternNode::Op(n) => PatternNodeView::Op(n@),
        }
    }
}

/// The nodes of a pattern in mathematical values.
pub open spec fn pattern_shapes(nodes: Seq<PatternNode>) -> Seq<PatternNodeView> {
    Seq::new(nodes.len(), |i: int| nodes[i]@)
}

/// The variables of a pattern, each once, in the order in which the
/// pattern holds them.
pub open spec fn variables(pattern: Seq<PatternNodeView>) -> Seq<Seq<char>>
    decreases pattern.len(),
{
    if pattern.len() == 0 {
        Seq::empty()
    } else {
        let front = variables(pattern.drop_last());
        match pattern.last() {
            PatternNodeView::Var(v) => if front.contains(v) {
                front
            } else {
                front.push(v)
            },
            PatternNodeView::Op(_) => front,
        }
    }
}

/// The texts in mathematical values.
pub open spec fn texts(names: Seq<String>) -> Seq<Seq<char>> {
    Seq::new(names.len(), |i: int| names[i]@)
}

/// The variables of a pattern: see `variables`.
pub fn pattern_variables(pattern: &Vec<PatternNode>) -> (r: Vec<String>)
    ensures
        texts(r@) == variables(pattern_shapes(pattern@)),
{
    let ghost shape = pattern_shapes(pattern@);
    let mut out: Vec<String> = Vec::new();
    let mut i: usize = 0;
    while i < pattern.len()
        invariant
            i <= pattern@.len(),
            shape == pattern_shapes(pattern@),
            texts(out@) == variables(shape.take(i as int)),
        decreases pattern@.len() - i,
    {
        proof {
            assert(shape.take(i + 1).drop_last() =~= shape.take(i as int));
        }
        match &pattern[i] {
            PatternNode::Var(v) => {
                if !holds_text(&out, v) {
                    out.push(v.clone());
                }
            },
            PatternNode::Op(_) => {},
        }
        i += 1;
    }
    proof {
        assert(shape.take(i as int) =~= shape);
    }
    out
}

/// Whether a text is among the texts.
fn holds_text(names: &Vec<String>, name: &String) -> (r: bool)
    ensures
        r == texts(names@).contains(name@),
{
    let ghost all = texts(names@);
    let mut k: usize = 0;
    while k < names.len()
        invariant
            k <= names@.len(),
            all == texts(names@),
            forall|m: int| 0 <= m < k ==> all[m] != name@,
        decreases names@.len() - k,
    {
        if names[k] == *name {
            assert(all[k as int] == name@);
            return true;
        }
        k += 1;
    }
    false
}

/// The first of the variables `used` that is not among the variables `bound`.
pub open spec fn first_unbound(bound: Seq<Seq<char>>, used: Seq<Seq<char>>) -> Option<Seq<char>>
    decreases used.len(),
{
    if used.len() == 0 {
        None
    } else {
        match first_unbound(bound, used.drop_last()) {
            Some(v) => Some(v),
            None => if bound.contains(used.last()) {
                None
            } else {
                Some(used.last())
            },
        }
    }
}

/// Every variable that the right-hand side uses is bound by the left-hand side.
pub open spec fn binds(bound: Seq<Seq<char>>, used: Seq<Seq<char>>) -> bool {
    first_unbound(bound, used) is None
}

/// Why a rule with this name and these variables is refused, if it is:
/// the complaint names the first variable of the right-hand side that the
/// left-hand side does not bind.
pub open spec fn refusal(name: Seq<char>, bound: Seq<Seq<char>>, used: Seq<Seq<char>>) -> Option<
    Seq<char>,
> {
    match first_unbound(bound, used) {
        Some(v) => Some("Rewrite "@ + name + " refers to unbound var "@ + v),
        None => None,
    }
}

} // verus!
