//! Simplification of symbolic expressions by equality saturation.
//!
//! An expression is rewritten with a set of rules until nothing new is
//! found or a limit is reached, and the cheapest expression that was found
//! equal to it is returned. The graph of equivalence classes, the search
//! for matches and the extraction are the work of the crate `egg`; this
//! library holds what stands around them: expressions in nested and in
//! flat form, the child counts of operators, cost models, rules with their
//! names, directions and guards, the bindings that guards are shown, and
//! the judgement on what the engine hands back. That judgement takes
//! nothing on the engine's word: the result of a run has the cost that is
//! returned with it, costs no more than the input, and is reached from
//! the input by a derivation that was gone through link by link.

pub mod arity;
pub mod cost;
pub mod derivation;
pub mod engine;
pub mod equation;
pub mod error;
pub mod expr;
pub mod guard;
pub mod language;
pub mod node;
pub mod pattern;
pub mod rule;
pub mod simplify;
pub mod table;
pub mod term;
