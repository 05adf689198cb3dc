//! The run: saturation of the graph of an expression with a rule set,
//! and the judgement on what the engine hands back.

use crate::arity::{
    agree, conflict, lemma_agree_push, lemma_first_conflict, lemma_tracks_push, tracks,
};
use crate::cost::CostModel;
use crate::derivation::{confirming, confirms};
use crate::equation::{equal_under, lemma_equal_through, lemma_equal_to_itself, Equation};
use crate::engine::{
    best_by_depth, best_by_size, class_of, derivation, explains, expr_class, inserted_usages,
    recexpr_add, recexpr_new, recexpr_nodes, rewrite_view, saturate, saturate_explained,
    Saturation,
};
use crate::error::{Defect, Error};
use crate::expr::Expr;
use crate::node::{ordered, root_tree, shapes, tree_at, valid, Node, NodeView};
use crate::pattern::texts;
use crate::language::Language;
use crate::rule::{engines, equations, rule_views, stands_for, Rule, RuleView};
use crate::table::{entry_views, Table};
use crate::term::{Tree, Usage};
use std::sync::Arc;
use vstd::prelude::*;

verus! {

/// The cost model that a known name stands for.
pub open spec fn model_of(name: Seq<char>) -> CostModel {
    if name == "ast-size"@ {
        CostModel::AstSize
    } else {
        CostModel::AstDepth
    }
}

/// A name of a cost model that the library knows.
pub open spec fn known_model(name: Seq<char>) -> bool {
    name == "ast-size"@ || name == "ast-depth"@
}

/// Whether what the engine picked is taken as the result: it has to be a
/// valid expression with a node, its cost has to be the cost that the
/// engine reports, and that cost may not be above the cost of the input.
pub open spec fn accepted(
    model: CostModel,
    input: Seq<NodeView>,
    reported: usize,
    picked: Seq<NodeView>,
) -> bool {
    &&& picked.len() > 0
    &&& valid(picked)
    &&& reported == model.cost_of(root_tree(picked))
    &&& reported <= model.cost_of(root_tree(input))
}

/// What is settled on between the input and what the engine picked: the
/// pick with the cost that the engine reports where the pick is accepted,
/// and the input with its own cost where it is not.
pub open spec fn settled(
    model: CostModel,
    input: Seq<NodeView>,
    reported: usize,
    picked: Seq<NodeView>,
) -> (nat, Seq<NodeView>) {
    if accepted(model, input, reported, picked) {
        (reported as nat, picked)
    } else {
        (model.cost_of(root_tree(input)), input)
    }
}

/// What a run comes to, from what the engine hands back: refused where
/// the graph holds an operator with two child counts, the error naming
/// the first insertion that brought the second; refused for an input
/// without a node; otherwise what is settled on.
pub open spec fn concluded(
    model: CostModel,
    input: Seq<NodeView>,
    inserted: Seq<Usage>,
    reported: usize,
    picked: Seq<NodeView>,
) -> Result<(nat, Seq<NodeView>), Defect> {
    if !agree(inserted) {
        Err(conflict(inserted))
    } else if input.len() == 0 {
        Err(Defect::Empty)
    } else {
        Ok(settled(model, input, reported, picked))
    }
}

/// The cost that is settled on is the cost of the expression that is settled on.
pub proof fn law_cost_is_that_of_the_result(
    model: CostModel,
    input: Seq<NodeView>,
    reported: usize,
    picked: Seq<NodeView>,
)
    ensures
        settled(model, input, reported, picked).0 == model.cost_of(
            root_tree(settled(model, input, reported, picked).1),
        ),
{
}

/// The cost that is settled on is never above the cost of the input,
/// whatever the engine picked and reported.
pub proof fn law_cost_never_rises(
    model: CostModel,
    input: Seq<NodeView>,
    reported: usize,
    picked: Seq<NodeView>,
)
    ensures
        settled(model, input, reported, picked).0 <= model.cost_of(root_tree(input)),
{
}

/// A second run on the result of a first one never settles on a higher
/// cost than the first did, whatever the engine picks and reports in
/// either run.
pub proof fn law_second_run_is_not_dearer(
    model: CostModel,
    input: Seq<NodeView>,
    first_reported: usize,
    first_picked: Seq<NodeView>,
    second_reported: usize,
    second_picked: Seq<NodeView>,
)
    ensures
        settled(
            model,
            settled(model, input, first_reported, first_picked).1,
            second_reported,
            second_picked,
        ).0 <= settled(model, input, first_reported, first_picked).0,
{
}

/// Where a first run found the cheapest of all trees that are equal to
/// the input under the rules, a second run on its result, with the same
/// rules and the same cost model, comes to the same cost. Of the two
/// runs only what `Language::simplify` states is used: each result is
/// equal to what the run was given, and is not dearer.
pub proof fn law_second_run_after_the_cheapest_costs_the_same(
    model: CostModel,
    eqs: Seq<Equation>,
    input: Tree,
    first: Tree,
    second: Tree,
)
    requires
        equal_under(eqs, input, first),
        forall|t: Tree| #[trigger]
            equal_under(eqs, input, t) ==> model.cost_of(first) <= model.cost_of(t),
        equal_under(eqs, first, second),
        model.cost_of(second) <= model.cost_of(first),
    ensures
        model.cost_of(second) == model.cost_of(first),
{
    lemma_equal_through(eqs, input, first, second);
}

/// Goes through the usages in order and fails at the first one that
/// contradicts an earlier one.
pub fn check_usages(usages: &Vec<(String, usize)>) -> (r: Result<(), Error>)
    ensures
        match r {
            Ok(()) => agree(entry_views(usages@)),
            Err(e) => !agree(entry_views(usages@)) && e@ == conflict(entry_views(usages@)),
        },
{
    let ghost all = entry_views(usages@);
    let mut table = Table::new();
    let mut i: usize = 0;
    while i < usages.len()
        invariant
            i <= usages@.len(),
            all == entry_views(usages@),
            tracks(table@, all.take(i as int)),
            agree(all.take(i as int)),
        decreases usages@.len() - i,
    {
        let ghost seen = all.take(i as int);
        let ghost met = table@;
        proof {
            assert(all.take(i + 1) =~= seen.push(all[i as int]));
            lemma_agree_push(seen, all[i as int].0, all[i as int].1);
        }
        match table.record(&usages[i].0, usages[i].1) {
            Ok(()) => {
                proof {
                    lemma_tracks_push(met, seen, all[i as int].0, all[i as int].1);
                }
            },
            Err(m) => {
                proof {
                    lemma_first_conflict(all);
                }
                return Err(
                    Error::ArityMismatch {
                        op: usages[i].0.clone(),
                        expected: m,
                        found: usages[i].1,
                    },
                );
            },
        }
        i += 1;
    }
    proof {
        assert(all.take(i as int) =~= all);
    }
    Ok(())
}

/// Decides between the input and what the engine picked: the pick is
/// the result where it is `accepted`, and the input with its own cost is
/// the result where it is not. The cost of the result is therefore never
/// above the cost of the input. An input without a node is refused.
pub fn settle(model: CostModel, input: Expr, reported: usize, picked: &Vec<Node>) -> (r:
    Result<(usize, Expr), Error>)
    ensures
        match r {
            Ok((cost, best)) => {
                &&& input@.len() > 0
                &&& best@.len() > 0
                &&& (cost as nat, best@) == settled(model, input@, reported, shapes(picked@))
            },
            Err(e) => input@.len() == 0 && e@ == Defect::Empty,
        },
{
    let own = match input.cost(model) {
        Some(c) => c,
        None => {
            return Err(Error::Empty);
        },
    };
    match Expr::from_nodes(picked) {
        Ok(candidate) => match candidate.cost(model) {
            Some(c) => if c == reported && reported <= own {
                Ok((reported, candidate))
            } else {
                Ok((own, input))
            },
            None => Ok((own, input)),
        },
        Err(_) => Ok((own, input)),
    }
}

/// What a run comes to, from what the engine hands back: the usages of
/// all nodes of the graph, the cost it reports and the expression it
/// picked. Refused where the graph holds an operator with two child
/// counts; the error names the first insertion that brought the second.
/// Otherwise as `settle` says.
pub fn conclude(
    model: CostModel,
    input: Expr,
    inserted: &Vec<(String, usize)>,
    reported: usize,
    picked: &Vec<Node>,
) -> (r: Result<(usize, Expr), Error>)
    ensures
        match r {
            Ok((cost, best)) => best@.len() > 0 && concluded(
                model,
                input@,
                entry_views(inserted@),
                reported,
                shapes(picked@),
            ) == Ok::<(nat, Seq<NodeView>), Defect>((cost as nat, best@)),
            Err(e) => concluded(
                model,
                input@,
                entry_views(inserted@),
                reported,
                shapes(picked@),
            ) == Err::<(nat, Seq<NodeView>), Defect>(e@),
        },
{
    match check_usages(inserted) {
        Ok(()) => settle(model, input, reported, picked),
        Err(e) => Err(e),
    }
}

/// Two classes of the graph are one: both are there and they are the same.
pub open spec fn together(home: Option<usize>, other: Option<usize>) -> bool {
    home is Some && home == other
}

/// Whether two classes of the graph are one: see `together`.
pub fn one_class(home: Option<usize>, other: Option<usize>) -> (r: bool)
    ensures
        r == together(home, other),
{
    match home {
        Some(a) => match other {
            Some(b) => a == b,
            None => false,
        },
        None => false,
    }
}

/// The pick of the engine stands as equal to the input: it is a valid
/// expression, the graph holds it in the class of the input (`home` is
/// the class of the input and `other` that of the pick), and the
/// derivation that the engine wrote down confirms that the two are equal
/// under the rules.
pub open spec fn upholding(
    rules: Seq<RuleView>,
    from: Seq<NodeView>,
    picked: Seq<NodeView>,
    home: Option<usize>,
    other: Option<usize>,
    written: Seq<Seq<char>>,
) -> bool {
    valid(picked) && together(home, other) && confirming(rules, from, picked, written)
}

/// Whether the pick of the engine stands as equal to the input, from
/// what the engine hands back: the classes of the two and the derivation
/// in writing. See `upholding`. Where it stands, the two are proved
/// equal under the rules.
pub fn upholds(
    rules: &Vec<Rule>,
    from: &Vec<Node>,
    picked: &Vec<Node>,
    home: Option<usize>,
    other: Option<usize>,
    written: &Vec<String>,
) -> (r: bool)
    ensures
        r == upholding(
            rule_views(rules@),
            shapes(from@),
            shapes(picked@),
            home,
            other,
            texts(written@),
        ),
        r ==> equal_under(
            equations(rule_views(rules@)),
            tree_at(shapes(from@), from@.len() - 1),
            tree_at(shapes(picked@), picked@.len() - 1),
        ),
{
    if !one_class(home, other) {
        return false;
    }
    match Expr::from_nodes(picked) {
        Ok(_) => confirms(rules, from, picked, written),
        Err(_) => false,
    }
}

/// What a checked run comes to, from everything the engine hands back:
/// what `concluded` says of the pick where the pick stands as equal to
/// the input, and what it says of no pick at all where it does not.
pub open spec fn judged(
    rules: Seq<RuleView>,
    model: CostModel,
    input: Seq<NodeView>,
    inserted: Seq<Usage>,
    reported: usize,
    picked: Seq<NodeView>,
    home: Option<usize>,
    other: Option<usize>,
    written: Seq<Seq<char>>,
) -> Result<(nat, Seq<NodeView>), Defect> {
    concluded(
        model,
        input,
        inserted,
        reported,
        if upholding(rules, input, picked, home, other, written) {
            picked
        } else {
            Seq::empty()
        },
    )
}

/// What a checked run comes to, from everything the engine hands back:
/// the usages of all nodes of the graph, the cost it reports, the
/// expression it picked, the classes of the input and of the pick, and
/// the derivation in writing. See `judged`. The expression that is
/// returned is proved equal to the input under the rules.
pub fn judge(
    rules: &Vec<Rule>,
    model: CostModel,
    input: Expr,
    inserted: &Vec<(String, usize)>,
    reported: usize,
    picked: &Vec<Node>,
    home: Option<usize>,
    other: Option<usize>,
    written: &Vec<String>,
) -> (r: Result<(usize, Expr), Error>)
    ensures
        match r {
            Ok((cost, best)) => {
                &&& best@.len() > 0
                &&& judged(
                    rule_views(rules@),
                    model,
                    input@,
                    entry_views(inserted@),
                    reported,
                    shapes(picked@),
                    home,
                    other,
                    texts(written@),
                ) == Ok::<(nat, Seq<NodeView>), Defect>((cost as nat, best@))
                &&& equal_under(equations(rule_views(rules@)), input.tree(), best.tree())
            },
            Err(e) => judged(
                rule_views(rules@),
                model,
                input@,
                entry_views(inserted@),
                reported,
                shapes(picked@),
                home,
                other,
                texts(written@),
            ) == Err::<(nat, Seq<NodeView>), Defect>(e@),
        },
{
    proof {
        lemma_equal_to_itself(equations(rule_views(rules@)), input.tree());
    }
    if upholds(rules, input.nodes(), picked, home, other, written) {
        conclude(model, input, inserted, reported, picked)
    } else {
        let none: Vec<Node> = Vec::new();
        assert(shapes(none@) =~= Seq::<NodeView>::empty());
        conclude(model, input, inserted, reported, &none)
    }
}

impl Expr {
    /// The expression as the engine holds it.
    pub(crate) fn to_engine(&self) -> (r: egg::RecExpr<egg::SymbolLang>)
        ensures
            recexpr_nodes(r) == self@,
            ordered(self@),
    {
        let nodes = self.nodes();
        let mut out = recexpr_new();
        let mut i: usize = 0;
        while i < nodes.len()
            invariant
                i <= nodes@.len(),
                shapes(nodes@) == self@,
                valid(self@),
                ordered(self@),
                recexpr_nodes(out) == self@.take(i as int),
            decreases nodes@.len() - i,
        {
            let node = &nodes[i];
            proof {
                assert forall|j: int| 0 <= j < node.children@.len() implies node.children@[j]
                    < i by {
                    assert(self@[i as int].children[j] < i);
                }
            }
            recexpr_add(&mut out, node.op.as_str(), &node.children);
            i += 1;
        }
        out
    }
}

impl Language {
    /// The rewrites of the engine that stand for the rules: for each rule
    /// of the set, in order, the rewrite that it holds.
    fn rewrites(&self) -> (r: Vec<Arc<egg::Rewrite<egg::SymbolLang, ()>>>)
        ensures
            r@ == self.engines(),
            r@.len() == self@.len(),
            forall|i: int| 0 <= i < r@.len() ==> stands_for(*#[trigger] r@[i], self@[i]),
            forall|i: int, j: int|
                0 <= i < j < r@.len() ==> rewrite_view(*r@[i]).name != rewrite_view(*r@[j]).name,
    {
        let rules = self.rules();
        let mut out: Vec<Arc<egg::Rewrite<egg::SymbolLang, ()>>> = Vec::new();
        let mut i: usize = 0;
        while i < rules.len()
            invariant
                i <= rules@.len(),
                out@ == engines(rules@).take(i as int),
                forall|k: int|
                    0 <= k < i ==> stands_for(*#[trigger] out@[k], rule_views(rules@)[k]),
            decreases rules@.len() - i,
        {
            out.push(rules[i].rewrite());
            proof {
                assert(out@ =~= engines(rules@).take(i + 1));
            }
            i += 1;
        }
        proof {
            assert(engines(rules@).take(i as int) =~= engines(rules@));
            assert forall|i: int, j: int| 0 <= i < j < out@.len() implies rewrite_view(
                *out@[i],
            ).name != rewrite_view(*out@[j]).name by {
                assert(stands_for(*out@[i], self@[i]));
                assert(stands_for(*out@[j], self@[j]));
            }
        }
        out
    }

    /// What the engine offers as proof that its pick is equal to the
    /// input: the class in which the graph holds the input, the class in
    /// which it holds the pick, and, where one class holds both, the
    /// derivation that leads from the input to the pick, in writing. A
    /// pick that is no valid expression is in no class.
    fn proved(
        &self,
        done: &mut Saturation,
        input: &Expr,
        start: &egg::RecExpr<egg::SymbolLang>,
        picked: &Vec<Node>,
    ) -> (r: (Option<usize>, Option<usize>, Vec<String>))
        requires
            explains(*old(done)),
            recexpr_nodes(*start) == input@,
            ordered(input@),
        ensures
            r.0 == expr_class(*old(done), input@),
            r.1 == if valid(shapes(picked@)) {
                expr_class(*old(done), shapes(picked@))
            } else {
                None
            },
            !together(r.0, r.1) ==> r.2@.len() == 0,
    {
        let home = class_of(done, start);
        match Expr::from_nodes(picked) {
            Ok(candidate) => {
                let target = candidate.to_engine();
                let other = class_of(done, &target);
                let written = if one_class(home, other) {
                    derivation(done, start, &target)
                } else {
                    Vec::new()
                };
                (home, other, written)
            },
            Err(_) => (home, None, Vec::new()),
        }
    }

    /// Saturates the graph of `input` with the rules of the set and
    /// returns the cheapest expression that the engine found equal to the
    /// input, with its cost under the cost model named `cost`, which is
    /// "ast-size" or "ast-depth". Another name is refused before
    /// anything else is done, and an input without a node after that.
    /// Among expressions of one cost the choice of the engine stands.
    ///
    /// The result is proved equal to the input under the rules, each rule
    /// read as an equation between its two patterns whatever its guards:
    /// the engine is asked for a derivation that leads from the input to
    /// what it picked, and its pick is the result only if that derivation
    /// holds; otherwise the input is the result. Everything the engine
    /// hands back is judged as `judge` says: whatever it is, the cost
    /// returned is the cost of the expression returned, and is not above
    /// the cost of the input.
    pub fn simplify(&self, input: Expr, cost: &str) -> (r: Result<(usize, Expr), Error>)
        ensures
            match r {
                Ok((found, best)) => {
                    &&& known_model(cost@)
                    &&& input@.len() > 0
                    &&& best@.len() > 0
                    &&& found == model_of(cost@).cost_of(best.tree())
                    &&& found <= model_of(cost@).cost_of(input.tree())
                    &&& equal_under(equations(self@), input.tree(), best.tree())
                },
                Err(e) => if !known_model(cost@) {
                    e@ == Defect::UnknownCostModel(cost@)
                } else if input@.len() == 0 {
                    e@ == Defect::Empty
                } else {
                    e@ is ArityMismatch
                },
            },
    {
        let model = match CostModel::from_name(cost) {
            Ok(model) => model,
            Err(e) => {
                return Err(e);
            },
        };
        if input.len() == 0 {
            return Err(Error::Empty);
        }
        let start = input.to_engine();
        let rewrites = self.rewrites();
        let mut done = saturate_explained(&start, &rewrites);
        let inserted = inserted_usages(&done);
        let (reported, picked) = match model {
            CostModel::AstSize => best_by_size(&done),
            CostModel::AstDepth => best_by_depth(&done),
        };
        let (home, other, written) = self.proved(&mut done, &input, &start, &picked);
        judge(self.rules(), model, input, &inserted, reported, &picked, home, other, &written)
    }

    /// As `simplify`, but the engine is not asked for a derivation: what
    /// it picked is taken to be equal to the input on its word. What it
    /// hands back is judged as `conclude` says: whatever it is, the cost
    /// returned is the cost of the expression returned, and is not above
    /// the cost of the input.
    pub fn simplify_unchecked(&self, input: Expr, cost: &str) -> (r: Result<(usize, Expr), Error>)
        ensures
            match r {
                Ok((found, best)) => {
                    &&& known_model(cost@)
                    &&& input@.len() > 0
                    &&& best@.len() > 0
                    &&& found == model_of(cost@).cost_of(best.tree())
                    &&& found <= model_of(cost@).cost_of(input.tree())
                },
                Err(e) => if !known_model(cost@) {
                    e@ == Defect::UnknownCostModel(cost@)
                } else if input@.len() == 0 {
                    e@ == Defect::Empty
                } else {
                    e@ is ArityMismatch
                },
            },
    {
        let model = match CostModel::from_name(cost) {
            Ok(model) => model,
            Err(e) => {
                return Err(e);
            },
        };
        if input.len() == 0 {
            return Err(Error::Empty);
        }
        let start = input.to_engine();
        let rewrites = self.rewrites();
        let done = saturate(&start, &rewrites);
        let inserted = inserted_usages(&done);
        let (reported, picked) = match model {
            CostModel::AstSize => best_by_size(&done),
            CostModel::AstDepth => best_by_depth(&done),
        };
        conclude(model, input, &inserted, reported, &picked)
    }
}

} // verus!
