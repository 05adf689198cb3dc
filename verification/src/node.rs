//! Nodes of flat expressions, the trees they stand for, and what can be
//! wrong with them.

use crate::arity::{agree, lemma_agree_push};
use crate::table::first_entry;
use crate::error::Defect;
use crate::term::{Tree, Usage};
use vstd::prelude::*;

verus! {

/// The most nodes that an expression can hold: one for each class identifier.
pub const MAX_NODES: usize = 0xFFFF_FFFF;

/// One node of an expression in flat form: an operator and the positions
/// of its children in the same expression.
#[derive(Debug, PartialEq, Eq)]
pub struct Node {
    pub op: String,
    pub children: Vec<usize>,
}

/// A node in mathematical values.
pub struct NodeView {
    pub op: Seq<char>,
    pub children: Seq<usize>,
}

impl View for Node {
    type V = NodeView;

    open spec fn view(&self) -> NodeView {
        NodeView { op: self.op@, children: self.children@ }
    }
}

/// The nodes of a vector in mathematical values.
pub open spec fn shapes(nodes: Seq<Node>) -> Seq<NodeView> {
    Seq::new(nodes.len(), |i: int| nodes[i]@)
}

/// Every child of every node stands before the node.
pub open spec fn ordered(nodes: Seq<NodeView>) -> bool {
    forall|i: int, j: int|
        0 <= i < nodes.len() && 0 <= j < nodes[i].children.len() ==> (
        #[trigger] nodes[i].children[j]) < i
}

/// The operator and the child count of each node, in order.
pub open spec fn node_usages(nodes: Seq<NodeView>) -> Seq<Usage> {
    Seq::new(nodes.len(), |i: int| (nodes[i].op, nodes[i].children.len()))
}

/// The tree that stands at position `i` of a flat expression.
pub open spec fn tree_at(nodes: Seq<NodeView>, i: int) -> Tree
    decreases i,
{
    if 0 <= i < nodes.len() {
        Tree {
            op: nodes[i].op,
            children: Seq::new(
                nodes[i].children.len(),
                |j: int|
                    if 0 <= j < nodes[i].children.len() && nodes[i].children[j] < i {
                        tree_at(nodes, nodes[i].children[j] as int)
                    } else {
                        arbitrary()
                    },
            ),
        }
    } else {
        arbitrary()
    }
}

/// The trees at the positions `cs`, in order.
pub open spec fn trees_at(nodes: Seq<NodeView>, cs: Seq<usize>) -> Seq<Tree> {
    Seq::new(cs.len(), |j: int| tree_at(nodes, cs[j] as int))
}

/// The children of the tree at `i` are the trees at the children of node `i`.
pub proof fn lemma_tree_at_children(nodes: Seq<NodeView>, i: int)
    requires
        ordered(nodes),
        0 <= i < nodes.len(),
    ensures
        tree_at(nodes, i).op == nodes[i].op,
        tree_at(nodes, i).children == trees_at(nodes, nodes[i].children),
{
}

/// What stands at a position does not change when nodes are appended.
pub proof fn lemma_tree_at_extend(a: Seq<NodeView>, b: Seq<NodeView>, i: int)
    requires
        a.len() <= b.len(),
        b.take(a.len() as int) == a,
        0 <= i < a.len(),
    ensures
        tree_at(b, i) == tree_at(a, i),
    decreases i,
{
    let cs = a[i].children;
    assert forall|j: int| 0 <= j < cs.len() && cs[j] < i implies tree_at(b, cs[j] as int)
        == tree_at(a, cs[j] as int) by {
        lemma_tree_at_extend(a, b, cs[j] as int);
    }
    assert(tree_at(b, i).children =~= tree_at(a, i).children);
}

/// The first of `children` that is not below `bound`, if there is one.
pub open spec fn first_bad_child(children: Seq<usize>, bound: nat) -> Option<nat>
    decreases children.len(),
{
    if children.len() == 0 {
        None
    } else {
        match first_bad_child(children.drop_last(), bound) {
            Some(c) => Some(c),
            None => if children.last() >= bound {
                Some(children.last() as nat)
            } else {
                None
            },
        }
    }
}

/// What is wrong with a node that is to stand behind the nodes `before`:
/// a child that does not stand before it, or else a child count that
/// differs from the one its operator was first used with.
pub open spec fn node_defect(before: Seq<NodeView>, op: Seq<char>, children: Seq<usize>) -> Option<
    Defect,
> {
    match first_bad_child(children, before.len()) {
        Some(c) => Some(Defect::BadChild { node: before.len(), child: c }),
        None => match first_entry(node_usages(before), op) {
            Some(m) => if m != children.len() {
                Some(Defect::ArityMismatch { op: op, expected: m, found: children.len() })
            } else {
                None
            },
            None => None,
        },
    }
}

/// `first_bad_child` finds nothing exactly when every child is below the bound.
pub proof fn lemma_first_bad_child(children: Seq<usize>, bound: nat)
    ensures
        first_bad_child(children, bound) is None <==> forall|j: int|
            0 <= j < children.len() ==> (#[trigger] children[j]) < bound,
    decreases children.len(),
{
    if children.len() > 0 {
        let rest = children.drop_last();
        lemma_first_bad_child(rest, bound);
        if first_bad_child(children, bound) is None {
            assert forall|j: int| 0 <= j < children.len() implies (#[trigger] children[j])
                < bound by {
                if j < rest.len() {
                    assert(rest[j] == children[j]);
                }
            }
        }
    }
}

/// Once a bad child has been found among the first `k`, looking further
/// does not change what is found.
pub proof fn lemma_first_bad_child_prefix(children: Seq<usize>, k: int, bound: nat)
    requires
        0 <= k <= children.len(),
        first_bad_child(children.take(k), bound) is Some,
    ensures
        first_bad_child(children, bound) == first_bad_child(children.take(k), bound),
    decreases children.len() - k,
{
    if k < children.len() {
        assert(children.take(k + 1).drop_last() =~= children.take(k));
        lemma_first_bad_child_prefix(children, k + 1, bound);
    } else {
        assert(children.take(k) =~= children);
    }
}

/// The usages of nodes with one more node behind them.
pub proof fn lemma_node_usages_push(nodes: Seq<NodeView>, node: NodeView)
    ensures
        node_usages(nodes.push(node)) == node_usages(nodes).push(
            (node.op, node.children.len()),
        ),
{
}

/// The usages of the first `k` nodes are the first `k` usages.
pub proof fn lemma_node_usages_take(nodes: Seq<NodeView>, k: int)
    requires
        0 <= k <= nodes.len(),
    ensures
        node_usages(nodes.take(k)) == node_usages(nodes).take(k),
{
}

/// The first thing that is wrong with a sequence of nodes, going through
/// them in order; `None` where every child stands before its parent and no
/// operator occurs with two child counts.
pub open spec fn defect(nodes: Seq<NodeView>) -> Option<Defect>
    decreases nodes.len(),
{
    if nodes.len() == 0 {
        None
    } else {
        match defect(nodes.drop_last()) {
            Some(d) => Some(d),
            None => node_defect(nodes.drop_last(), nodes.last().op, nodes.last().children),
        }
    }
}

/// Nodes without a defect are ordered and agree on their child counts, and
/// the other way round.
pub proof fn lemma_defect(nodes: Seq<NodeView>)
    ensures
        defect(nodes) is None <==> ordered(nodes) && agree(node_usages(nodes)),
    decreases nodes.len(),
{
    if nodes.len() > 0 {
        let rest = nodes.drop_last();
        let last = nodes.last();
        lemma_defect(rest);
        lemma_first_bad_child(last.children, rest.len());
        lemma_node_usages_push(rest, last);
        assert(rest.push(last) =~= nodes);
        if ordered(nodes) && agree(node_usages(nodes)) {
            lemma_node_usages_take(nodes, rest.len() as int);
            lemma_agree_push(node_usages(rest), last.op, last.children.len());
        }
        if defect(nodes) is None {
            lemma_agree_push(node_usages(rest), last.op, last.children.len());
        }
    }
}

/// Once a defect has been found among the first `k` nodes, going further
/// does not change what is found.
pub proof fn lemma_defect_prefix(nodes: Seq<NodeView>, k: int)
    requires
        0 <= k <= nodes.len(),
        defect(nodes.take(k)) is Some,
    ensures
        defect(nodes) == defect(nodes.take(k)),
    decreases nodes.len() - k,
{
    if k < nodes.len() {
        assert(nodes.take(k + 1).drop_last() =~= nodes.take(k));
        lemma_defect_prefix(nodes, k + 1);
    } else {
        assert(nodes.take(k) =~= nodes);
    }
}

/// A sequence of nodes that can stand as an expression: not too long,
/// with every child before its parent and one child count for each operator.
pub open spec fn valid(nodes: Seq<NodeView>) -> bool {
    nodes.len() <= MAX_NODES && defect(nodes) is None
}

/// The nodes of a tree as they are laid out from position `base` on:
/// children before their parent and left to right, nothing shared, the
/// root last.
pub open spec fn layout(t: Tree, base: nat) -> Seq<NodeView>
    decreases t,
{
    let below = forest_layout(t.children, base);
    below.0.push(NodeView { op: t.op, children: below.1 })
}

/// The nodes of several trees, laid out one tree after the other from
/// position `base` on, and the positions of their roots.
pub open spec fn forest_layout(ts: Seq<Tree>, base: nat) -> (Seq<NodeView>, Seq<usize>)
    decreases ts,
{
    if ts.len() == 0 {
        (Seq::empty(), Seq::empty())
    } else {
        let front = forest_layout(ts.drop_last(), base);
        let last = layout(ts.last(), base + front.0.len());
        (front.0 + last, front.1.push((base + front.0.len() + last.len() - 1) as usize))
    }
}

/// The tree that a flat expression stands for: the one at its last node.
pub open spec fn root_tree(nodes: Seq<NodeView>) -> Tree {
    tree_at(nodes, nodes.len() - 1)
}

} // verus!
