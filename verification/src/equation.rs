//! What it means that two trees are equal under rules: a chain of trees
//! leads from the one to the other, in which each arises from the one
//! before by one use of one rule, read as an equation between its two
//! patterns, in either direction, somewhere inside.

use crate::pattern::PatternNodeView;
use crate::term::Tree;
use vstd::prelude::*;

verus! {

/// The tree that stands at position `i` of a pattern once every variable
/// is replaced by the tree that `sigma` gives for it.
pub open spec fn instance(
    pattern: Seq<PatternNodeView>,
    i: int,
    sigma: Map<Seq<char>, Tree>,
) -> Tree
    decreases i,
{
    if 0 <= i < pattern.len() {
        match pattern[i] {
            PatternNodeView::Var(v) => sigma[v],
            PatternNodeView::Op(n) => Tree {
                op: n.op,
                children: Seq::new(
                    n.children.len(),
                    |j: int|
                        if 0 <= j < n.children.len() && n.children[j] < i {
                            instance(pattern, n.children[j] as int, sigma)
                        } else {
                            arbitrary()
                        },
                ),
            },
        }
    } else {
        arbitrary()
    }
}

/// The tree that a whole pattern stands for under `sigma`.
pub open spec fn whole(pattern: Seq<PatternNodeView>, sigma: Map<Seq<char>, Tree>) -> Tree {
    instance(pattern, pattern.len() - 1, sigma)
}

/// A rule as an equation between two patterns.
pub struct Equation {
    pub left: Seq<PatternNodeView>,
    pub right: Seq<PatternNodeView>,
}

/// `b` is `a` rewritten at its root by the equation, from left to right:
/// under one choice of trees for the variables, the left pattern is `a`
/// and the right pattern is `b`.
pub open spec fn rewrites(eq: Equation, a: Tree, b: Tree) -> bool {
    exists|sigma: Map<Seq<char>, Tree>|
        #[trigger] whole(eq.left, sigma) == a && whole(eq.right, sigma) == b
}

/// `b` arises from `a` by one use of one of the equations, in either
/// direction, at the root or inside one child.
pub open spec fn step(eqs: Seq<Equation>, a: Tree, b: Tree) -> bool
    decreases a,
{
    ||| exists|k: int|
        0 <= k < eqs.len() && (rewrites(#[trigger] eqs[k], a, b) || rewrites(eqs[k], b, a))
    ||| (a.op == b.op && a.children.len() == b.children.len() && exists|i: int|
        0 <= i < a.children.len() && step(eqs, #[trigger] a.children[i], b.children[i]) && forall|
            j: int,
        |
            0 <= j < a.children.len() && j != i ==> a.children[j] == b.children[j])
}

/// Each tree of the chain arises from the one before by one step.
pub open spec fn chained(eqs: Seq<Equation>, chain: Seq<Tree>) -> bool {
    forall|i: int| 0 <= i < chain.len() - 1 ==> step(eqs, #[trigger] chain[i], chain[i + 1])
}

/// `a` and `b` are equal under the equations: a chain of steps leads from
/// the one to the other.
pub open spec fn equal_under(eqs: Seq<Equation>, a: Tree, b: Tree) -> bool {
    exists|chain: Seq<Tree>|
        chain.len() > 0 && chain[0] == a && chain.last() == b && #[trigger] chained(eqs, chain)
}

/// Every tree is equal to itself under any equations.
pub proof fn lemma_equal_to_itself(eqs: Seq<Equation>, a: Tree)
    ensures
        equal_under(eqs, a, a),
{
    let chain = seq![a];
    assert(chained(eqs, chain));
}

/// What is equal to a tree that is equal to a third is equal to the
/// third: the two chains make one.
pub proof fn lemma_equal_through(eqs: Seq<Equation>, a: Tree, b: Tree, c: Tree)
    requires
        equal_under(eqs, a, b),
        equal_under(eqs, b, c),
    ensures
        equal_under(eqs, a, c),
{
    let front = choose|chain: Seq<Tree>|
        chain.len() > 0 && chain[0] == a && chain.last() == b && #[trigger] chained(eqs, chain);
    let back = choose|chain: Seq<Tree>|
        chain.len() > 0 && chain[0] == b && chain.last() == c && #[trigger] chained(eqs, chain);
    let chain = front + back.drop_first();
    assert forall|i: int| 0 <= i < chain.len() - 1 implies step(
        eqs,
        #[trigger] chain[i],
        chain[i + 1],
    ) by {
        if i < front.len() - 1 {
            assert(step(eqs, front[i], front[i + 1]));
        } else {
            let k = i - (front.len() - 1);
            assert(step(eqs, back[k], back[k + 1]));
        }
    }
    assert(chained(eqs, chain));
}

} // verus!
