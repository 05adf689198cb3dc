//! Terms in nested form and the trees they stand for.

use vstd::prelude::*;

verus! {

/// A term in nested form: an operator and its ordered children.
#[derive(Debug, PartialEq, Eq)]
pub struct Term {
    pub op: String,
    pub children: Vec<Term>,
}

/// The mathematical tree that a term stands for.
#[verifier::ext_equal]
pub struct Tree {
    pub op: Seq<char>,
    pub children: Seq<Tree>,
}

/// The tree of a term.
pub open spec fn tree_of(t: Term) -> Tree
    decreases t,
{
    Tree { op: t.op@, children: trees_of(t.children@) }
}

/// The trees of a sequence of terms, in order.
pub open spec fn trees_of(ts: Seq<Term>) -> Seq<Tree>
    decreases ts,
{
    if ts.len() == 0 {
        Seq::empty()
    } else {
        trees_of(ts.drop_last()).push(tree_of(ts.last()))
    }
}

impl View for Term {
    type V = Tree;

    open spec fn view(&self) -> Tree {
        tree_of(*self)
    }
}

/// An operator together with the number of children it was used with.
pub type Usage = (Seq<char>, nat);

/// Number of nodes of a tree.
pub open spec fn tree_size(t: Tree) -> nat
    decreases t,
{
    1 + forest_size(t.children)
}

/// Number of nodes of a sequence of trees.
pub open spec fn forest_size(ts: Seq<Tree>) -> nat
    decreases ts,
{
    if ts.len() == 0 {
        0
    } else {
        forest_size(ts.drop_last()) + tree_size(ts.last())
    }
}

/// Length of the longest path from the root of a tree to a leaf, counted in nodes.
pub open spec fn tree_depth(t: Tree) -> nat
    decreases t,
{
    1 + forest_depth(t.children)
}

/// Depth of the deepest tree of a sequence; 0 for the empty sequence.
pub open spec fn forest_depth(ts: Seq<Tree>) -> nat
    decreases ts,
{
    if ts.len() == 0 {
        0
    } else {
        let rest = forest_depth(ts.drop_last());
        let last = tree_depth(ts.last());
        if rest >= last {
            rest
        } else {
            last
        }
    }
}

/// The operators of a tree with their child counts, children before their
/// parent and left to right: the order in which the nodes are inserted.
pub open spec fn usages(t: Tree) -> Seq<Usage>
    decreases t,
{
    forest_usages(t.children).push((t.op, t.children.len()))
}

/// The usages of a sequence of trees, one tree after the other.
pub open spec fn forest_usages(ts: Seq<Tree>) -> Seq<Usage>
    decreases ts,
{
    if ts.len() == 0 {
        Seq::empty()
    } else {
        forest_usages(ts.drop_last()) + usages(ts.last())
    }
}

/// The nodes of the first `k` trees are among the nodes of all of them.
pub proof fn lemma_forest_size_take(ts: Seq<Tree>, k: int)
    requires
        0 <= k <= ts.len(),
    ensures
        forest_size(ts.take(k)) <= forest_size(ts),
    decreases ts.len(),
{
    if k < ts.len() {
        assert(ts.drop_last().take(k) =~= ts.take(k));
        lemma_forest_size_take(ts.drop_last(), k);
    } else {
        assert(ts.take(k) =~= ts);
    }
}

/// The usages of the first `k` trees stand at the front of the usages of all.
pub proof fn lemma_forest_usages_take(ts: Seq<Tree>, k: int)
    requires
        0 <= k <= ts.len(),
    ensures
        forest_usages(ts.take(k)).len() <= forest_usages(ts).len(),
        forest_usages(ts).take(forest_usages(ts.take(k)).len() as int) == forest_usages(ts.take(k)),
    decreases ts.len(),
{
    if k < ts.len() {
        assert(ts.drop_last().take(k) =~= ts.take(k));
        lemma_forest_usages_take(ts.drop_last(), k);
        let front = forest_usages(ts.take(k));
    } else {
        assert(ts.take(k) =~= ts);
    }
}

/// Adding one tree to a sequence adds its nodes and its usages.
pub proof fn lemma_forest_step(ts: Seq<Tree>, k: int)
    requires
        0 <= k < ts.len(),
    ensures
        forest_size(ts.take(k + 1)) == forest_size(ts.take(k)) + tree_size(ts[k]),
        forest_depth(ts.take(k + 1)) == if forest_depth(ts.take(k)) >= tree_depth(ts[k]) {
            forest_depth(ts.take(k))
        } else {
            tree_depth(ts[k])
        },
        forest_usages(ts.take(k + 1)) == forest_usages(ts.take(k)) + usages(ts[k]),
{
    assert(ts.take(k + 1).drop_last() =~= ts.take(k));
}

/// `trees_of` goes through the terms one by one.
pub proof fn lemma_trees_of(ts: Seq<Term>)
    ensures
        trees_of(ts).len() == ts.len(),
        forall|j: int| 0 <= j < ts.len() ==> (#[trigger] trees_of(ts)[j]) == tree_of(ts[j]),
    decreases ts.len(),
{
    if ts.len() > 0 {
        lemma_trees_of(ts.drop_last());
    }
}

/// The tree of a term has the term's operator, and the trees of its
/// children as children.
pub proof fn lemma_term_view(term: Term)
    ensures
        term@.op == term.op@,
        term@.children.len() == term.children@.len(),
        forall|j: int| 0 <= j < term.children@.len() ==> (#[trigger] term@.children[j])
            == term.children@[j]@,
{
    lemma_trees_of(term.children@);
}

impl Term {
    /// A term without children.
    pub fn leaf(op: &str) -> (t: Term)
        ensures
            t@ == (Tree { op: op@, children: Seq::empty() }),
    {
        Term { op: op.to_owned(), children: Vec::new() }
    }

    /// A term with the given children.
    pub fn new(op: &str, children: Vec<Term>) -> (t: Term)
        ensures
            t.op@ == op@,
            t.children == children,
    {
        Term { op: op.to_owned(), children }
    }
}

} // verus!
