//! Expressions in flat form, as the engine takes and gives them.

use crate::arity::{
    agree, conflict, lemma_agree_push, lemma_first_conflict, lemma_tracks_push, tracks,
};
use crate::engine::{parse_expression, parsed_expression};
use crate::error::{Defect, Error};
use crate::table::{first_entry, Table};
use crate::node::{
    defect, first_bad_child, forest_layout, layout, lemma_defect, lemma_defect_prefix,
    lemma_first_bad_child, lemma_first_bad_child_prefix, lemma_node_usages_push,
    lemma_tree_at_extend, node_defect, node_usages, ordered, root_tree, shapes, tree_at, valid,
    Node, NodeView, MAX_NODES,
};
use crate::term::{
    forest_size, forest_usages, lemma_forest_size_take, lemma_forest_step,
    lemma_forest_usages_take, lemma_term_view, tree_size, usages, Term, Tree, Usage,
};
use vstd::prelude::*;

verus! {

/// The nodes of an expression with the table of the operators met in them.
#[derive(Debug)]
struct Layout {
    nodes: Vec<Node>,
    arities: Table,
}

impl Layout {
    spec fn view(&self) -> Seq<NodeView> {
        shapes(self.nodes@)
    }

    spec fn wf(&self) -> bool {
        &&& ordered(self@)
        &&& self@.len() <= MAX_NODES
        &&& agree(node_usages(self@))
        &&& tracks(self.arities@, node_usages(self@))
    }

    fn empty() -> (l: Layout)
        ensures
            l.wf(),
            l@ == Seq::<NodeView>::empty(),
    {
        Layout { nodes: Vec::new(), arities: Table::new() }
    }

    /// The first child that does not stand before position `bound`.
    fn bad_child(children: &Vec<usize>, bound: usize) -> (r: Option<usize>)
        ensures
            match r {
                Some(c) => first_bad_child(children@, bound as nat) == Some(c as nat),
                None => first_bad_child(children@, bound as nat) is None,
            },
    {
        let mut j: usize = 0;
        while j < children.len()
            invariant
                j <= children@.len(),
                first_bad_child(children@.take(j as int), bound as nat) is None,
            decreases children@.len() - j,
        {
            proof {
                assert(children@.take(j + 1).drop_last() =~= children@.take(j as int));
            }
            if children[j] >= bound {
                proof {
                    lemma_first_bad_child_prefix(children@, j + 1, bound as nat);
                }
                return Some(children[j]);
            }
            j += 1;
        }
        proof {
            assert(children@.take(j as int) =~= children@);
        }
        None
    }

    /// Puts one node behind the others, unless something is wrong with it.
    fn push_node(&mut self, op: String, children: Vec<usize>) -> (r: Result<usize, Error>)
        requires
            old(self).wf(),
            old(self)@.len() < MAX_NODES,
        ensures
            final(self).wf(),
            match r {
                Ok(i) => {
                    &&& node_defect(old(self)@, op@, children@) is None
                    &&& i == old(self)@.len()
                    &&& final(self)@ == old(self)@.push(NodeView { op: op@, children: children@ })
                },
                Err(e) => {
                    &&& node_defect(old(self)@, op@, children@) == Some(e@)
                    &&& final(self)@ == old(self)@
                },
            },
    {
        let at = self.nodes.len();
        let ghost before = self@;
        let ghost us = node_usages(before);
        match Self::bad_child(&children, at) {
            Some(c) => {
                return Err(Error::BadChild { node: at, child: c });
            },
            None => {},
        }
        let n = children.len();
        let ghost table = self.arities@;
        match self.arities.record(&op, n) {
            Err(m) => {
                return Err(Error::ArityMismatch { op, expected: m, found: n });
            },
            Ok(()) => {
                proof {
                    lemma_tracks_push(table, us, op@, n as nat);
                }
            },
        }
        let node = Node { op, children };
        proof {
            lemma_first_bad_child(node.children@, at as nat);
            lemma_agree_push(us, node.op@, n as nat);
            lemma_node_usages_push(before, node@);
        }
        self.nodes.push(node);
        proof {
            assert(self@ =~= before.push(node@));
        }
        Ok(at)
    }
}

/// The usage at which inserting the rest of `all` behind the usages `cur`
/// fails: its operator was first used with another child count.
spec fn conflict_after(cur: Seq<Usage>, all: Seq<Usage>, e: Defect) -> bool {
    &&& cur.len() < all.len()
    &&& all.take(cur.len() as int) == cur
    &&& first_entry(cur, all[cur.len() as int].0) matches Some(m) && m != all[cur.len() as int].1
        && e == (Defect::ArityMismatch {
        op: all[cur.len() as int].0,
        expected: m,
        found: all[cur.len() as int].1,
    })
}

impl Layout {
    /// Puts the nodes of a term behind the others, children before their
    /// parent and left to right, and stops at the first node whose child
    /// count contradicts an earlier use of its operator.
    fn push_term(&mut self, term: &Term) -> (r: Result<usize, Error>)
        requires
            old(self).wf(),
            old(self)@.len() + tree_size(term@) <= MAX_NODES,
        ensures
            final(self).wf(),
            old(self)@.len() <= final(self)@.len(),
            final(self)@.take(old(self)@.len() as int) == old(self)@,
            match r {
                Ok(root) => {
                    &&& final(self)@ == old(self)@ + layout(term@, old(self)@.len())
                    &&& final(self)@.len() == old(self)@.len() + tree_size(term@)
                    &&& root == final(self)@.len() - 1
                    &&& tree_at(final(self)@, root as int) == term@
                    &&& node_usages(final(self)@) == node_usages(old(self)@) + usages(
                        term@,
                    )
                },
                Err(e) => conflict_after(
                    node_usages(final(self)@),
                    node_usages(old(self)@) + usages(term@),
                    e@,
                ),
            },
        decreases term,
    {
        let ghost start = self@;
        let ghost all = node_usages(start) + usages(term@);
        let ghost kids_trees = term@.children;
        let mut kids: Vec<usize> = Vec::new();
        let mut i: usize = 0;
        proof {
            lemma_term_view(*term);
        }
        while i < term.children.len()
            invariant
                i <= term.children@.len(),
                start == old(self)@,
                kids_trees == term@.children,
                kids_trees.len() == term.children@.len(),
                self.wf(),
                start.len() + tree_size(term@) <= MAX_NODES,
                self@.len() == start.len() + forest_size(kids_trees.take(i as int)),
                self@.take(start.len() as int) == start,
                self@ == start + forest_layout(kids_trees.take(i as int), start.len()).0,
                kids@ == forest_layout(kids_trees.take(i as int), start.len()).1,
                node_usages(self@) == node_usages(start) + forest_usages(
                    kids_trees.take(i as int),
                ),
                kids@.len() == i,
                forall|j: int|
                    0 <= j < i ==> (#[trigger] kids@[j]) < self@.len() && tree_at(
                        self@,
                        kids@[j] as int,
                    ) == kids_trees[j],
                all == node_usages(start) + usages(term@),
            decreases term.children@.len() - i,
        {
            let ghost before = self@;
            let child = &term.children[i];
            proof {
                lemma_term_view(*term);
                assert(kids_trees.take(i + 1).drop_last() =~= kids_trees.take(i as int));
                lemma_forest_size_take(kids_trees, i + 1);
                lemma_forest_usages_take(kids_trees, i + 1);
            }
            match self.push_term(child) {
                Ok(k) => {
                    proof {
                        assert forall|j: int| 0 <= j < i implies (#[trigger] kids@[j])
                            < self@.len() && tree_at(self@, kids@[j] as int)
                            == kids_trees[j] by {
                            lemma_tree_at_extend(before, self@, kids@[j] as int);
                        }
                    }
                    kids.push(k);
                },
                Err(e) => {
                    proof {
                        let cur = node_usages(self@);
                        let part = node_usages(before) + usages(child@);
                        let front = forest_usages(kids_trees.take(i + 1));
                        assert(part =~= node_usages(start) + front);
                        assert(all.take(cur.len() as int) =~= part.take(cur.len() as int));
                    }
                    return Err(e);
                },
            }
            i += 1;
        }
        let ghost before = self@;
        proof {
            assert(kids_trees.take(i as int) =~= kids_trees);
            lemma_first_bad_child(kids@, before.len() as nat);
        }
        let ghost kids_seq = kids@;
        match self.push_node(term.op.clone(), kids) {
            Ok(root) => {
                proof {
                    assert(before =~= self@.take(before.len() as int));
                    assert forall|j: int| 0 <= j < kids_seq.len() implies tree_at(
                        self@,
                        kids_seq[j] as int,
                    ) == kids_trees[j] by {
                        lemma_tree_at_extend(before, self@, kids_seq[j] as int);
                    }
                    assert(tree_at(self@, root as int).children =~= kids_trees);
                    lemma_node_usages_push(before, self@[root as int]);
                }
                Ok(root)
            },
            Err(e) => {
                proof {
                    assert(all.take(before.len() as int) =~= node_usages(before));
                }
                Err(e)
            },
        }
    }
}

/// What is left of `budget` once the nodes of `term` are taken from it.
fn left_after(term: &Term, budget: usize) -> (r: Option<usize>)
    ensures
        match r {
            Some(rest) => tree_size(term@) + rest == budget,
            None => tree_size(term@) > budget,
        },
    decreases term,
{
    if budget == 0 {
        return None;
    }
    let mut rest: usize = budget - 1;
    let mut i: usize = 0;
    proof {
        lemma_term_view(*term);
    }
    while i < term.children.len()
        invariant
            i <= term.children@.len(),
            term@.children.len() == term.children@.len(),
            forest_size(term@.children.take(i as int)) + 1 + rest == budget,
        decreases term.children@.len() - i,
    {
        proof {
            lemma_term_view(*term);
            lemma_forest_step(term@.children, i as int);
            lemma_forest_size_take(term@.children, i + 1);
        }
        match left_after(&term.children[i], rest) {
            Some(left) => {
                rest = left;
            },
            None => {
                return None;
            },
        }
        i += 1;
    }
    proof {
        assert(term@.children.take(i as int) =~= term@.children);
    }
    Some(rest)
}

impl Layout {
    /// The term that stands at position `i`.
    fn build(&self, i: usize) -> (t: Term)
        requires
            self.wf(),
            i < self@.len(),
        ensures
            t@ == tree_at(self@, i as int),
        decreases i,
    {
        let node = &self.nodes[i];
        let mut kids: Vec<Term> = Vec::new();
        let mut j: usize = 0;
        while j < node.children.len()
            invariant
                self.wf(),
                i < self@.len(),
                self@[i as int] == node@,
                j <= node.children@.len(),
                kids@.len() == j,
                forall|k: int|
                    0 <= k < j ==> (#[trigger] kids@[k])@ == tree_at(
                        self@,
                        node.children@[k] as int,
                    ),
            decreases node.children@.len() - j,
        {
            assert(self@[i as int].children[j as int] < i);
            let kid = self.build(node.children[j]);
            kids.push(kid);
            j += 1;
        }
        let t = Term { op: node.op.clone(), children: kids };
        proof {
            lemma_term_view(t);
            assert(t@.children =~= tree_at(self@, i as int).children);
        }
        t
    }
}

/// An expression in flat form: a sequence of nodes in which every child
/// stands before its parent; the last node is the root. A subterm that
/// occurs twice may be shared. Every operator has one child count.
#[derive(Debug)]
pub struct Expr {
    layout: Layout,
}

impl Expr {
    #[verifier::type_invariant]
    spec fn inv(self) -> bool {
        self.layout.wf()
    }

    /// The nodes of the expression.
    pub closed spec fn view(&self) -> Seq<NodeView> {
        self.layout@
    }

    /// The tree that the expression stands for: the one at its last node.
    pub open spec fn tree(&self) -> Tree {
        root_tree(self@)
    }

    /// The expression without nodes.
    pub fn new() -> (e: Expr)
        ensures
            e@ == Seq::<NodeView>::empty(),
    {
        Expr { layout: Layout::empty() }
    }

    /// The number of nodes.
    pub fn len(&self) -> (n: usize)
        ensures
            n == self@.len(),
            n <= MAX_NODES,
    {
        proof {
            use_type_invariant(self);
        }
        self.layout.nodes.len()
    }

    /// The nodes, which are always valid.
    pub fn nodes(&self) -> (r: &Vec<Node>)
        ensures
            shapes(r@) == self@,
            valid(self@),
            ordered(self@),
            agree(node_usages(self@)),
    {
        proof {
            use_type_invariant(self);
            lemma_defect(self@);
        }
        &self.layout.nodes
    }

    /// Puts one node behind the others and returns its position. Refused,
    /// with the expression unchanged, where the expression is full, where
    /// a child does not stand before the new node, or where the operator
    /// was used with another child count before.
    pub fn add(&mut self, op: &str, children: Vec<usize>) -> (r: Result<usize, Error>)
        ensures
            match r {
                Ok(i) => {
                    &&& old(self)@.len() < MAX_NODES
                    &&& node_defect(old(self)@, op@, children@) is None
                    &&& i == old(self)@.len()
                    &&& final(self)@ == old(self)@.push(NodeView { op: op@, children: children@ })
                },
                Err(e) => {
                    &&& final(self)@ == old(self)@
                    &&& e@ == if old(self)@.len() >= MAX_NODES {
                        Defect::TooLarge
                    } else {
                        node_defect(old(self)@, op@, children@)->0
                    }
                    &&& old(self)@.len() >= MAX_NODES || node_defect(old(self)@, op@, children@)
                        is Some
                },
            },
    {
        proof {
            use_type_invariant(&*self);
        }
        if self.layout.nodes.len() >= MAX_NODES {
            return Err(Error::TooLarge);
        }
        let mut layout = Layout::empty();
        std::mem::swap(&mut layout, &mut self.layout);
        let r = layout.push_node(op.to_owned(), children);
        self.layout = layout;
        r
    }

    /// Inserts a term, children before their parent and left to right,
    /// without sharing, and returns the position of its root, which is
    /// then the last node. Refused, with the expression unchanged, where
    /// the nodes would be too many, or where a node of the term uses an
    /// operator with another child count than an earlier node did; the
    /// error names the first such node.
    pub fn insert(&mut self, term: &Term) -> (r: Result<usize, Error>)
        ensures
            match r {
                Ok(root) => {
                    &&& old(self)@.len() + tree_size(term@) <= MAX_NODES
                    &&& agree(node_usages(old(self)@) + usages(term@))
                    &&& final(self)@ == old(self)@ + layout(term@, old(self)@.len())
                    &&& final(self)@.len() == old(self)@.len() + tree_size(term@)
                    &&& node_usages(final(self)@) == node_usages(old(self)@) + usages(term@)
                    &&& root == final(self)@.len() - 1
                    &&& tree_at(final(self)@, root as int) == term@
                },
                Err(e) => {
                    &&& final(self)@ == old(self)@
                    &&& e@ == if old(self)@.len() + tree_size(term@) > MAX_NODES {
                        Defect::TooLarge
                    } else {
                        conflict(node_usages(old(self)@) + usages(term@))
                    }
                    &&& old(self)@.len() + tree_size(term@) > MAX_NODES || !agree(
                        node_usages(old(self)@) + usages(term@),
                    )
                },
            },
    {
        proof {
            use_type_invariant(&*self);
        }
        let start = self.layout.nodes.len();
        if left_after(term, MAX_NODES - start).is_none() {
            return Err(Error::TooLarge);
        }
        let saved = self.layout.arities.duplicate();
        let mut layout = Layout::empty();
        std::mem::swap(&mut layout, &mut self.layout);
        let ghost before = layout@;
        let ghost all = node_usages(before) + usages(term@);
        match layout.push_term(term) {
            Ok(root) => {
                self.layout = layout;
                Ok(root)
            },
            Err(e) => {
                proof {
                    let cur = node_usages(layout@);
                    let k = cur.len() as int;
                    assert(all.take(k + 1) =~= cur.push(all[k]));
                    lemma_agree_push(cur, all[k].0, all[k].1);
                    lemma_first_conflict(all);
                }
                let ghost after = layout@;
                layout.nodes.truncate(start);
                layout.arities = saved;
                proof {
                    assert(layout@ =~= after.take(start as int));
                }
                self.layout = layout;
                Err(e)
            },
        }
    }

    /// The expression of a term: see `insert`.
    pub fn from_term(term: &Term) -> (r: Result<Expr, Error>)
        ensures
            match r {
                Ok(e) => {
                    &&& tree_size(term@) <= MAX_NODES
                    &&& agree(usages(term@))
                    &&& e@ == layout(term@, 0)
                    &&& e@.len() == tree_size(term@)
                    &&& node_usages(e@) == usages(term@)
                    &&& e.tree() == term@
                },
                Err(x) => {
                    &&& x@ == if tree_size(term@) > MAX_NODES {
                        Defect::TooLarge
                    } else {
                        conflict(usages(term@))
                    }
                    &&& tree_size(term@) > MAX_NODES || !agree(usages(term@))
                },
            },
    {
        let mut e = Expr::new();
        match e.insert(term) {
            Ok(_) => Ok(e),
            Err(x) => Err(x),
        }
    }

    /// The expression that holds the given nodes. Refused where they are
    /// too many, or for the first defect among them.
    pub fn from_nodes(nodes: &Vec<Node>) -> (r: Result<Expr, Error>)
        ensures
            match r {
                Ok(e) => valid(shapes(nodes@)) && e@ == shapes(nodes@),
                Err(x) => {
                    &&& !valid(shapes(nodes@))
                    &&& x@ == if nodes@.len() > MAX_NODES {
                        Defect::TooLarge
                    } else {
                        defect(shapes(nodes@))->0
                    }
                },
            },
    {
        if nodes.len() > MAX_NODES {
            return Err(Error::TooLarge);
        }
        let ghost goal = shapes(nodes@);
        let mut layout = Layout::empty();
        let mut i: usize = 0;
        while i < nodes.len()
            invariant
                i <= nodes@.len(),
                nodes@.len() <= MAX_NODES,
                goal == shapes(nodes@),
                layout.wf(),
                layout@ == goal.take(i as int),
            decreases nodes@.len() - i,
        {
            let node = &nodes[i];
            proof {
                assert(goal.take(i + 1).drop_last() =~= goal.take(i as int));
                lemma_defect(layout@);
            }
            match layout.push_node(node.op.clone(), node.children.clone()) {
                Ok(_) => {},
                Err(x) => {
                    proof {
                        lemma_defect_prefix(goal, i + 1);
                    }
                    return Err(x);
                },
            }
            i += 1;
        }
        proof {
            assert(goal.take(i as int) =~= goal);
            lemma_defect(layout@);
        }
        Ok(Expr { layout })
    }

    /// The term that stands at position `i`, if there is such a position.
    pub fn term_at(&self, i: usize) -> (r: Option<Term>)
        ensures
            match r {
                Some(t) => i < self@.len() && t@ == tree_at(self@, i as int),
                None => i >= self@.len(),
            },
    {
        proof {
            use_type_invariant(self);
        }
        if i < self.layout.nodes.len() {
            Some(self.layout.build(i))
        } else {
            None
        }
    }

    /// The term that the expression stands for, if it has a node.
    pub fn term(&self) -> (r: Option<Term>)
        ensures
            match r {
                Some(t) => self@.len() > 0 && t@ == self.tree(),
                None => self@.len() == 0,
            },
    {
        let n = self.len();
        if n == 0 {
            None
        } else {
            self.term_at(n - 1)
        }
    }

    /// The expression that a text in parentheses stands for, such as
    /// `(+ x (* 2 y))`. Refused where the text cannot be read, where what
    /// was read has no node, and where it is no valid expression.
    pub fn parse(text: &str) -> (r: Result<Expr, Error>)
        ensures
            match r {
                Ok(e) => {
                    &&& parsed_expression(text@) == Ok::<Seq<NodeView>, Seq<char>>(e@)
                    &&& valid(e@)
                    &&& e@.len() > 0
                },
                Err(x) => match parsed_expression(text@) {
                    Err(m) => x@ == Defect::Parse(m),
                    Ok(nodes) => if nodes.len() == 0 {
                        x@ == Defect::Empty
                    } else {
                        !valid(nodes) && x@ == if nodes.len() > MAX_NODES {
                            Defect::TooLarge
                        } else {
                            defect(nodes)->0
                        }
                    },
                },
            },
    {
        match parse_expression(text) {
            Ok(nodes) => if nodes.len() == 0 {
                Err(Error::Empty)
            } else {
                Expr::from_nodes(&nodes)
            },
            Err(m) => Err(Error::Parse(m)),
        }
    }
}

} // verus!
