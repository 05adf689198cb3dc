//! Rewrite rules: declarations in one or in both directions, and rules
//! under guards.

use crate::engine::{
    make_guarded_rewrite, make_rewrite, parse_pattern, parsed_pattern, pattern_ast,
    pattern_nodes, rewrite_view, share, share_guard, RewriteView,
};
use crate::equation::Equation;
use crate::error::{Defect, Error};
use crate::guard::Guard;
use crate::node::Node;
use crate::pattern::{
    binds, pattern_shapes, pattern_variables, refusal, variables, PatternNode, PatternNodeView,
};
use std::sync::Arc;
use vstd::prelude::*;

verus! {

/// A rule in mathematical values: its name, the texts of its two
/// patterns, and its guards, the innermost first.
pub struct RuleView {
    pub name: Seq<char>,
    pub searcher: Seq<char>,
    pub applier: Seq<char>,
    pub guards: Seq<Guard>,
}

/// One rewrite rule in one direction: wherever the searcher pattern
/// matches, the applier pattern is put into the same class, if the guards
/// permit.
pub struct Rule {
    name: String,
    /// The texts of the two patterns.
    searcher: String,
    applier: String,
    guards: Vec<Guard>,
    /// The two patterns as the engine holds them.
    lhs: Arc<egg::Pattern<egg::SymbolLang>>,
    rhs: Arc<egg::Pattern<egg::SymbolLang>>,
    /// The nodes of the two patterns.
    left: Vec<PatternNode>,
    right: Vec<PatternNode>,
    /// The rule as the engine runs it.
    rewrite: Arc<egg::Rewrite<egg::SymbolLang, ()>>,
}

impl Rule {
    #[verifier::type_invariant]
    spec fn inv(self) -> bool {
        &&& parsed_pattern(self.searcher@) == Ok::<Seq<PatternNodeView>, Seq<char>>(
            pattern_nodes(*self.lhs),
        )
        &&& parsed_pattern(self.applier@) == Ok::<Seq<PatternNodeView>, Seq<char>>(
            pattern_nodes(*self.rhs),
        )
        &&& binds(variables(pattern_nodes(*self.lhs)), variables(pattern_nodes(*self.rhs)))
        &&& pattern_shapes(self.left@) == pattern_nodes(*self.lhs)
        &&& pattern_shapes(self.right@) == pattern_nodes(*self.rhs)
        &&& rewrite_view(*self.rewrite) == (RewriteView {
            name: self.name@,
            searcher: pattern_nodes(*self.lhs),
            applier: pattern_nodes(*self.rhs),
            guards: self.guards@,
        })
    }

    /// The rule in mathematical values.
    pub closed spec fn view(&self) -> RuleView {
        RuleView {
            name: self.name@,
            searcher: self.searcher@,
            applier: self.applier@,
            guards: self.guards@,
        }
    }

    /// The name of the rule.
    pub fn name(&self) -> (r: &String)
        ensures
            r@ == self@.name,
    {
        &self.name
    }

    /// The text of the pattern that the rule looks for.
    pub fn searcher(&self) -> (r: &String)
        ensures
            r@ == self@.searcher,
    {
        &self.searcher
    }

    /// The text of the pattern that the rule puts in.
    pub fn applier(&self) -> (r: &String)
        ensures
            r@ == self@.applier,
    {
        &self.applier
    }

    /// The number of guards under which the rule stands.
    pub fn guard_count(&self) -> (n: usize)
        ensures
            n == self@.guards.len(),
    {
        self.guards.len()
    }

    /// The rewrite that the rule holds for the engine: the one that was
    /// made from its name, its two patterns and its guards.
    pub closed spec fn engine(&self) -> Arc<egg::Rewrite<egg::SymbolLang, ()>> {
        self.rewrite
    }

    /// The rewrite of the engine that stands for the rule: one more
    /// pointer to the rewrite that the rule holds.
    pub(crate) fn rewrite(&self) -> (r: Arc<egg::Rewrite<egg::SymbolLang, ()>>)
        ensures
            r == self.engine(),
            stands_for(*r, self@),
    {
        proof {
            use_type_invariant(self);
        }
        share(&self.rewrite)
    }

    /// The same rule once more, with the same rewrite for the engine.
    pub fn duplicate(&self) -> (r: Rule)
        ensures
            r@ == self@,
            r.engine() == self.engine(),
    {
        proof {
            use_type_invariant(self);
        }
        let guards = share_all(&self.guards);
        Rule {
            name: self.name.clone(),
            searcher: self.searcher.clone(),
            applier: self.applier.clone(),
            guards,
            lhs: share(&self.lhs),
            rhs: share(&self.rhs),
            left: copy_pattern(&self.left),
            right: copy_pattern(&self.right),
            rewrite: share(&self.rewrite),
        }
    }

    /// The nodes of the pattern that the rule looks for.
    pub fn left(&self) -> (r: &Vec<PatternNode>)
        ensures
            pattern_shapes(r@) == equation_of(self@).left,
    {
        proof {
            use_type_invariant(self);
        }
        &self.left
    }

    /// The nodes of the pattern that the rule puts in.
    pub fn right(&self) -> (r: &Vec<PatternNode>)
        ensures
            pattern_shapes(r@) == equation_of(self@).right,
    {
        proof {
            use_type_invariant(self);
        }
        &self.right
    }

    /// The rule from `lhs` to `rhs`, which were read from the two texts.
    fn plain(
        name: String,
        searcher: &str,
        applier: &str,
        lhs: &Arc<egg::Pattern<egg::SymbolLang>>,
        rhs: &Arc<egg::Pattern<egg::SymbolLang>>,
        left: &Vec<PatternNode>,
        right: &Vec<PatternNode>,
    ) -> (r: Result<Rule, Error>)
        requires
            parsed_pattern(searcher@) == Ok::<Seq<PatternNodeView>, Seq<char>>(
                pattern_nodes(**lhs),
            ),
            parsed_pattern(applier@) == Ok::<Seq<PatternNodeView>, Seq<char>>(
                pattern_nodes(**rhs),
            ),
            pattern_shapes(left@) == pattern_nodes(**lhs),
            pattern_shapes(right@) == pattern_nodes(**rhs),
        ensures
            match r {
                Ok(rule) => {
                    &&& refusal(
                        name@,
                        variables(pattern_nodes(**lhs)),
                        variables(pattern_nodes(**rhs)),
                    ) is None
                    &&& rule@ == (RuleView {
                        name: name@,
                        searcher: searcher@,
                        applier: applier@,
                        guards: Seq::empty(),
                    })
                },
                Err(e) => refusal(
                    name@,
                    variables(pattern_nodes(**lhs)),
                    variables(pattern_nodes(**rhs)),
                ) matches Some(m) && e@ == Defect::Rule(m),
            },
    {
        match make_rewrite(name.as_str(), lhs, rhs) {
            Ok(rewrite) => Ok(
                Rule {
                    name,
                    searcher: searcher.to_owned(),
                    applier: applier.to_owned(),
                    guards: Vec::new(),
                    lhs: share(lhs),
                    rhs: share(rhs),
                    left: copy_pattern(left),
                    right: copy_pattern(right),
                    rewrite: Arc::new(rewrite),
                },
            ),
            Err(m) => Err(Error::Rule(m)),
        }
    }

    /// The same rule under one more guard, with `-cond` behind its name.
    pub fn only_when(&self, guard: &Guard) -> (r: Result<Rule, Error>)
        ensures
            r matches Ok(rule) && rule@ == (RuleView {
                name: self@.name + "-cond"@,
                searcher: self@.searcher,
                applier: self@.applier,
                guards: self@.guards.push(*guard),
            }),
    {
        proof {
            use_type_invariant(self);
        }
        let name = self.name.clone().concat("-cond");
        let mut guards = share_all(&self.guards);
        guards.push(share_guard(guard));
        let asked = share_all(&guards);
        let vars = pattern_variables(&self.left);
        match make_guarded_rewrite(name.as_str(), &self.lhs, &self.rhs, asked, vars) {
            Ok(rewrite) => Ok(
                Rule {
                    name,
                    searcher: self.searcher.clone(),
                    applier: self.applier.clone(),
                    guards,
                    lhs: share(&self.lhs),
                    rhs: share(&self.rhs),
                    left: copy_pattern(&self.left),
                    right: copy_pattern(&self.right),
                    rewrite: Arc::new(rewrite),
                },
            ),
            Err(m) => Err(Error::Rule(m)),
        }
    }
}

/// The same pattern once more.
fn copy_pattern(pattern: &Vec<PatternNode>) -> (r: Vec<PatternNode>)
    ensures
        pattern_shapes(r@) == pattern_shapes(pattern@),
{
    let mut out: Vec<PatternNode> = Vec::new();
    let mut i: usize = 0;
    while i < pattern.len()
        invariant
            i <= pattern@.len(),
            out@.len() == i,
            forall|k: int| 0 <= k < i ==> (#[trigger] out@[k])@ == pattern@[k]@,
        decreases pattern@.len() - i,
    {
        let node = match &pattern[i] {
            PatternNode::Var(v) => PatternNode::Var(v.clone()),
            PatternNode::Op(n) => PatternNode::Op(
                Node { op: n.op.clone(), children: n.children.clone() },
            ),
        };
        out.push(node);
        i += 1;
    }
    out
}

/// The same guards once more.
fn share_all(guards: &Vec<Guard>) -> (r: Vec<Guard>)
    ensures
        r@ == guards@,
{
    let mut out: Vec<Guard> = Vec::new();
    let mut i: usize = 0;
    while i < guards.len()
        invariant
            i <= guards@.len(),
            out@ == guards@.take(i as int),
        decreases guards@.len() - i,
    {
        out.push(share_guard(&guards[i]));
        i += 1;
    }
    out
}

/// A rewrite of the engine stands for a rule: it has the name of the
/// rule, it searches for the pattern that the first text of the rule
/// stands for and puts in the one that the second text stands for, and it
/// asks the guards of the rule.
pub open spec fn stands_for(made: egg::Rewrite<egg::SymbolLang, ()>, rule: RuleView) -> bool {
    &&& rewrite_view(made).name == rule.name
    &&& parsed_pattern(rule.searcher) == Ok::<Seq<PatternNodeView>, Seq<char>>(
        rewrite_view(made).searcher,
    )
    &&& parsed_pattern(rule.applier) == Ok::<Seq<PatternNodeView>, Seq<char>>(
        rewrite_view(made).applier,
    )
    &&& rewrite_view(made).guards == rule.guards
}

/// The rewrites that rules hold for the engine, in order.
pub open spec fn engines(rules: Seq<Rule>) -> Seq<Arc<egg::Rewrite<egg::SymbolLang, ()>>> {
    Seq::new(rules.len(), |i: int| rules[i].engine())
}

/// The rules in mathematical values.
pub open spec fn rule_views(rules: Seq<Rule>) -> Seq<RuleView> {
    Seq::new(rules.len(), |i: int| rules[i]@)
}

/// A rule as an equation between the patterns that its texts stand for.
pub open spec fn equation_of(rule: RuleView) -> Equation {
    Equation {
        left: parsed_pattern(rule.searcher)->Ok_0,
        right: parsed_pattern(rule.applier)->Ok_0,
    }
}

/// The rules as equations.
pub open spec fn equations(rules: Seq<RuleView>) -> Seq<Equation> {
    Seq::new(rules.len(), |i: int| equation_of(rules[i]))
}

/// What a declaration of a rule gives: the rule, and before it the rule
/// in the other direction where both directions are asked for, or the
/// reason for which the declaration is refused.
pub open spec fn declared(
    name: Seq<char>,
    searcher: Seq<char>,
    applier: Seq<char>,
    symmetric: bool,
) -> Result<Seq<RuleView>, Defect> {
    let forth = RuleView { name: name, searcher: searcher, applier: applier, guards: Seq::empty() };
    let back = RuleView {
        name: name + "-rev"@,
        searcher: applier,
        applier: searcher,
        guards: Seq::empty(),
    };
    match parsed_pattern(searcher) {
        Err(m) => Err(Defect::Parse(m)),
        Ok(s) => match parsed_pattern(applier) {
            Err(m) => Err(Defect::Parse(m)),
            Ok(a) => if symmetric && refusal(back.name, variables(a), variables(s)) is Some {
                Err(Defect::Rule(refusal(back.name, variables(a), variables(s))->0))
            } else if refusal(name, variables(s), variables(a)) is Some {
                Err(Defect::Rule(refusal(name, variables(s), variables(a))->0))
            } else if symmetric {
                Ok(seq![back, forth])
            } else {
                Ok(seq![forth])
            },
        },
    }
}

/// A declared rewrite rule: one rule, or two where both directions were
/// asked for.
pub struct RewriteRule {
    rules: Vec<Rule>,
}

impl RewriteRule {
    /// The rules of the declaration, in order.
    pub closed spec fn view(&self) -> Seq<RuleView> {
        rule_views(self.rules@)
    }

    /// Declares the rule `name` from the pattern `searcher` to the
    /// pattern `applier`; with `symmetric`, also the rule from `applier`
    /// to `searcher`, which has `-rev` behind its name and stands first.
    /// Refused where a pattern cannot be read, the searcher first, and
    /// where a rule uses a variable on its right that its left does not
    /// bind, the reverse rule first.
    pub fn new(name: String, searcher: &str, applier: &str, symmetric: bool) -> (r: Result<
        RewriteRule,
        Error,
    >)
        ensures
            match r {
                Ok(rule) => declared(name@, searcher@, applier@, symmetric) == Ok::<
                    Seq<RuleView>,
                    Defect,
                >(rule@),
                Err(e) => declared(name@, searcher@, applier@, symmetric) == Err::<
                    Seq<RuleView>,
                    Defect,
                >(e@),
            },
    {
        let lhs = match parse_pattern(searcher) {
            Ok(p) => Arc::new(p),
            Err(m) => {
                return Err(Error::Parse(m));
            },
        };
        let rhs = match parse_pattern(applier) {
            Ok(p) => Arc::new(p),
            Err(m) => {
                return Err(Error::Parse(m));
            },
        };
        let left = pattern_ast(&lhs);
        let right = pattern_ast(&rhs);
        let mut rules: Vec<Rule> = Vec::new();
        if symmetric {
            let back = name.clone().concat("-rev");
            match Rule::plain(back, applier, searcher, &rhs, &lhs, &right, &left) {
                Ok(rule) => {
                    rules.push(rule);
                },
                Err(e) => {
                    return Err(e);
                },
            }
        }
        match Rule::plain(name, searcher, applier, &lhs, &rhs, &left, &right) {
            Ok(rule) => {
                rules.push(rule);
            },
            Err(e) => {
                return Err(e);
            },
        }
        let made = RewriteRule { rules };
        proof {
            assert(made@ =~= declared(name@, searcher@, applier@, symmetric)->Ok_0);
        }
        Ok(made)
    }

    /// The rewrites that the rules of the declaration hold for the
    /// engine, in the order of the rules.
    pub closed spec fn engines(&self) -> Seq<Arc<egg::Rewrite<egg::SymbolLang, ()>>> {
        engines(self.rules@)
    }

    /// The rules of the declaration, in order.
    pub fn rules(&self) -> (r: &Vec<Rule>)
        ensures
            rule_views(r@) == self@,
            engines(r@) == self.engines(),
    {
        &self.rules
    }

    /// The same declaration once more, with the same rewrites for the
    /// engine.
    pub fn duplicate(&self) -> (r: RewriteRule)
        ensures
            r@ == self@,
            r.engines() == self.engines(),
    {
        let mut rules: Vec<Rule> = Vec::new();
        let mut i: usize = 0;
        while i < self.rules.len()
            invariant
                i <= self.rules@.len(),
                rules@.len() == i,
                forall|k: int| 0 <= k < i ==> (#[trigger] rules@[k])@ == self.rules@[k]@,
                forall|k: int|
                    0 <= k < i ==> (#[trigger] rules@[k]).engine() == self.rules@[k].engine(),
            decreases self.rules@.len() - i,
        {
            rules.push(self.rules[i].duplicate());
            i += 1;
        }
        let copy = RewriteRule { rules };
        proof {
            assert(copy@ =~= self@);
            assert(copy.engines() =~= self.engines());
        }
        copy
    }
}

/// The rules of a declaration under one more guard each.
pub open spec fn guarded(rules: Seq<RuleView>, guard: Guard) -> Seq<RuleView> {
    Seq::new(
        rules.len(),
        |i: int|
            RuleView {
                name: rules[i].name + "-cond"@,
                searcher: rules[i].searcher,
                applier: rules[i].applier,
                guards: rules[i].guards.push(guard),
            },
    )
}

impl RewriteRule {
    /// The same declaration with every rule under one more guard: a rule
    /// then fires on a match only if the guard, shown the bindings of the
    /// match, answers `true`. Each rule has `-cond` behind its name.
    pub fn only_when(&self, guard: Guard) -> (r: Result<RewriteRule, Error>)
        ensures
            r matches Ok(rule) && rule@ == guarded(self@, guard),
    {
        let mut rules: Vec<Rule> = Vec::new();
        let mut i: usize = 0;
        while i < self.rules.len()
            invariant
                i <= self.rules@.len(),
                rules@.len() == i,
                forall|k: int| 0 <= k < i ==> (#[trigger] rules@[k])@ == guarded(self@, guard)[k],
            decreases self.rules@.len() - i,
        {
            match self.rules[i].only_when(&guard) {
                Ok(rule) => {
                    rules.push(rule);
                },
                Err(e) => {
                    return Err(e);
                },
            }
            i += 1;
        }
        Ok(RewriteRule { rules })
    }
}

/// A declaration in both directions gives a rule from the searcher to the
/// applier and a rule from the applier to the searcher.
pub proof fn law_symmetric_gives_both_directions(
    name: Seq<char>,
    searcher: Seq<char>,
    applier: Seq<char>,
    rules: Seq<RuleView>,
)
    requires
        declared(name, searcher, applier, true) == Ok::<Seq<RuleView>, Defect>(rules),
    ensures
        exists|i: int|
            0 <= i < rules.len() && (#[trigger] rules[i]).searcher == searcher && rules[i].applier
                == applier,
        exists|j: int|
            0 <= j < rules.len() && (#[trigger] rules[j]).searcher == applier && rules[j].applier
                == searcher,
{
}

} // verus!
