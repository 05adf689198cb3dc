//! Cost models: the size and the depth of an expression.

use crate::error::{Defect, Error};
use crate::expr::Expr;
use crate::node::{
    lemma_tree_at_children, ordered, shapes, tree_at, trees_at, NodeView, MAX_NODES,
};
use crate::term::{
    forest_depth, forest_size, lemma_forest_step, tree_depth, tree_size, Tree,
};
use vstd::prelude::*;

verus! {

/// How the cost of an expression is counted.
#[derive(Clone, Copy, Debug, PartialEq, Eq)]
pub enum CostModel {
    /// The number of nodes: one more than the costs of the children together.
    AstSize,
    /// The depth: one more than the highest cost of a child.
    AstDepth,
}

/// A count as a machine word holds it: counts beyond the largest word stay there.
pub open spec fn held(n: nat) -> nat {
    if n > usize::MAX {
        usize::MAX as nat
    } else {
        n
    }
}

impl CostModel {
    /// The cost of a tree as a number without bound.
    pub open spec fn measure(self, t: Tree) -> nat {
        match self {
            CostModel::AstSize => tree_size(t),
            CostModel::AstDepth => tree_depth(t),
        }
    }

    /// The cost of a tree.
    pub open spec fn cost_of(self, t: Tree) -> nat {
        held(self.measure(t))
    }

    /// The cost model of a name: "ast-size" or "ast-depth".
    pub fn from_name(name: &str) -> (r: Result<CostModel, Error>)
        ensures
            name@ == "ast-size"@ ==> r == Ok::<CostModel, Error>(CostModel::AstSize),
            name@ == "ast-depth"@ ==> r == Ok::<CostModel, Error>(CostModel::AstDepth),
            name@ != "ast-size"@ && name@ != "ast-depth"@ ==> (r matches Err(e) && e@
                == Defect::UnknownCostModel(name@)),
    {
        proof {
            reveal_strlit("ast-size");
            reveal_strlit("ast-depth");
            assert("ast-size"@.len() != "ast-depth"@.len());
        }
        let given = name.to_owned();
        if given == "ast-size".to_owned() {
            Ok(CostModel::AstSize)
        } else if given == "ast-depth".to_owned() {
            Ok(CostModel::AstDepth)
        } else {
            Err(Error::UnknownCostModel(given))
        }
    }
}

/// A sequence of trees none of which is deeper than `bound` is not deeper
/// than `bound`.
pub proof fn lemma_forest_depth_bound(ts: Seq<Tree>, bound: nat)
    requires
        forall|j: int| 0 <= j < ts.len() ==> tree_depth(#[trigger] ts[j]) <= bound,
    ensures
        forest_depth(ts) <= bound,
    decreases ts.len(),
{
    if ts.len() > 0 {
        lemma_forest_depth_bound(ts.drop_last(), bound);
    }
}

/// The tree at position `i` of ordered nodes is at most `i + 1` deep.
pub proof fn lemma_depth_at(nodes: Seq<NodeView>, i: int)
    requires
        ordered(nodes),
        0 <= i < nodes.len(),
    ensures
        tree_depth(tree_at(nodes, i)) <= i + 1,
    decreases i,
{
    lemma_tree_at_children(nodes, i);
    let kids = trees_at(nodes, nodes[i].children);
    assert forall|j: int| 0 <= j < kids.len() implies tree_depth(#[trigger] kids[j]) <= i by {
        let c = nodes[i].children[j];
        lemma_depth_at(nodes, c as int);
    }
    lemma_forest_depth_bound(kids, i as nat);
}

/// One more than the sizes of the trees `kids` together, as a word holds
/// it, from the sizes of those trees as `costs` holds them.
fn size_above(costs: &Vec<usize>, children: &Vec<usize>, Ghost(kids): Ghost<Seq<Tree>>) -> (r:
    usize)
    requires
        kids.len() == children@.len(),
        forall|j: int|
            0 <= j < children@.len() ==> (#[trigger] children@[j]) < costs@.len()
                && costs@[children@[j] as int] == held(tree_size(kids[j])),
    ensures
        r == held(1 + forest_size(kids)),
{
    let mut total: usize = 1;
    let mut j: usize = 0;
    while j < children.len()
        invariant
            j <= children@.len(),
            kids.len() == children@.len(),
            forall|j: int|
                0 <= j < children@.len() ==> (#[trigger] children@[j]) < costs@.len()
                    && costs@[children@[j] as int] == held(tree_size(kids[j])),
            total == held(1 + forest_size(kids.take(j as int))),
        decreases children@.len() - j,
    {
        proof {
            lemma_forest_step(kids, j as int);
        }
        total = total.saturating_add(costs[children[j]]);
        j += 1;
    }
    proof {
        assert(kids.take(j as int) =~= kids);
    }
    total
}

/// One more than the depth of the deepest of the trees `kids`, from the
/// depths of those trees as `costs` holds them.
fn depth_above(
    costs: &Vec<usize>,
    children: &Vec<usize>,
    Ghost(kids): Ghost<Seq<Tree>>,
    Ghost(bound): Ghost<nat>,
) -> (r: usize)
    requires
        bound < usize::MAX,
        kids.len() == children@.len(),
        forall|j: int|
            0 <= j < children@.len() ==> (#[trigger] children@[j]) < costs@.len()
                && costs@[children@[j] as int] == tree_depth(kids[j]) && tree_depth(kids[j])
                <= bound,
    ensures
        r == 1 + forest_depth(kids),
        r <= bound + 1,
{
    let mut deepest: usize = 0;
    let mut j: usize = 0;
    while j < children.len()
        invariant
            j <= children@.len(),
            kids.len() == children@.len(),
            forall|j: int|
                0 <= j < children@.len() ==> (#[trigger] children@[j]) < costs@.len()
                    && costs@[children@[j] as int] == tree_depth(kids[j]) && tree_depth(kids[j])
                    <= bound,
            deepest == forest_depth(kids.take(j as int)),
            deepest <= bound,
        decreases children@.len() - j,
    {
        proof {
            lemma_forest_step(kids, j as int);
        }
        let cost = costs[children[j]];
        if cost > deepest {
            deepest = cost;
        }
        j += 1;
    }
    proof {
        assert(kids.take(j as int) =~= kids);
    }
    deepest + 1
}

impl Expr {
    /// The costs of the trees at all positions, in order.
    pub fn costs(&self, model: CostModel) -> (r: Vec<usize>)
        ensures
            r@.len() == self@.len(),
            forall|k: int|
                0 <= k < self@.len() ==> (#[trigger] r@[k]) == model.cost_of(tree_at(self@, k)),
    {
        let nodes = self.nodes();
        let ghost shape = self@;
        let mut costs: Vec<usize> = Vec::new();
        let mut i: usize = 0;
        while i < nodes.len()
            invariant
                i <= nodes@.len(),
                shapes(nodes@) == shape,
                ordered(shape),
                shape.len() <= MAX_NODES,
                costs@.len() == i,
                forall|k: int|
                    0 <= k < i ==> (#[trigger] costs@[k]) == model.cost_of(tree_at(shape, k)),
            decreases nodes@.len() - i,
        {
            let node = &nodes[i];
            let ghost kids = trees_at(shape, node.children@);
            proof {
                lemma_tree_at_children(shape, i as int);
                assert forall|j: int| 0 <= j < node.children@.len() implies (
                #[trigger] node.children@[j]) < i && tree_depth(kids[j]) <= i by {
                    lemma_depth_at(shape, node.children@[j] as int);
                }
            }
            let cost = match model {
                CostModel::AstSize => size_above(&costs, &node.children, Ghost(kids)),
                CostModel::AstDepth => depth_above(
                    &costs,
                    &node.children,
                    Ghost(kids),
                    Ghost(i as nat),
                ),
            };
            costs.push(cost);
            i += 1;
        }
        costs
    }

    /// The cost of the expression, if it has a node.
    pub fn cost(&self, model: CostModel) -> (r: Option<usize>)
        ensures
            match r {
                Some(c) => self@.len() > 0 && c == model.cost_of(self.tree()),
                None => self@.len() == 0,
            },
    {
        let n = self.len();
        if n == 0 {
            None
        } else {
            let costs = self.costs(model);
            Some(costs[n - 1])
        }
    }
}

} // verus!
