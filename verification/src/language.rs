//! Rule sets.

use crate::error::{Defect, Error};
use crate::rule::{engines, rule_views, RewriteRule, Rule, RuleView};
use std::sync::Arc;
use vstd::prelude::*;

verus! {

/// The rule lists of declarations in mathematical values.
pub open spec fn declaration_views(decls: Seq<RewriteRule>) -> Seq<Seq<RuleView>> {
    Seq::new(decls.len(), |i: int| decls[i]@)
}

/// For each declaration the rewrites that its rules hold for the engine.
pub open spec fn declaration_engines(decls: Seq<RewriteRule>) -> Seq<
    Seq<Arc<egg::Rewrite<egg::SymbolLang, ()>>>,
> {
    Seq::new(decls.len(), |i: int| decls[i].engines())
}

/// What several declarations hold, one declaration after the other.
pub open spec fn flatten<T>(decls: Seq<Seq<T>>) -> Seq<T>
    decreases decls.len(),
{
    if decls.len() == 0 {
        Seq::empty()
    } else {
        flatten(decls.drop_last()) + decls.last()
    }
}

/// The names of rules, in order.
pub open spec fn rule_names(rules: Seq<RuleView>) -> Seq<Seq<char>> {
    Seq::new(rules.len(), |i: int| rules[i].name)
}

/// The first name that stands in the sequence for the second time.
pub open spec fn first_duplicate(names: Seq<Seq<char>>) -> Option<Seq<char>>
    decreases names.len(),
{
    if names.len() == 0 {
        None
    } else {
        match first_duplicate(names.drop_last()) {
            Some(n) => Some(n),
            None => if names.drop_last().contains(names.last()) {
                Some(names.last())
            } else {
                None
            },
        }
    }
}

/// Once a duplicate has been found among the first `k` names, going
/// further does not change what is found.
pub proof fn lemma_first_duplicate_prefix(names: Seq<Seq<char>>, k: int)
    requires
        0 <= k <= names.len(),
        first_duplicate(names.take(k)) is Some,
    ensures
        first_duplicate(names) == first_duplicate(names.take(k)),
    decreases names.len() - k,
{
    if k < names.len() {
        assert(names.take(k + 1).drop_last() =~= names.take(k));
        lemma_first_duplicate_prefix(names, k + 1);
    } else {
        assert(names.take(k) =~= names);
    }
}

/// Names without a duplicate are all different, and the other way round.
pub proof fn lemma_first_duplicate(names: Seq<Seq<char>>)
    ensures
        first_duplicate(names) is None <==> forall|i: int, j: int|
            0 <= i < j < names.len() ==> names[i] != names[j],
    decreases names.len(),
{
    if names.len() > 0 {
        let rest = names.drop_last();
        lemma_first_duplicate(rest);
        if first_duplicate(names) is None {
            assert forall|i: int, j: int| 0 <= i < j < names.len() implies names[i]
                != names[j] by {
                if j < rest.len() {
                    assert(rest[i] == names[i] && rest[j] == names[j]);
                } else {
                    assert(rest[i] == names[i]);
                }
            }
        }
    }
}

/// What the first `i` declarations hold and the first `j` items of the
/// next one stand at the front of what all declarations hold.
pub proof fn lemma_flatten_prefix<T>(decls: Seq<Seq<T>>, i: int, j: int)
    requires
        0 <= i < decls.len(),
        0 <= j <= decls[i].len(),
    ensures
        flatten(decls.take(i)).len() + j <= flatten(decls).len(),
        flatten(decls).take(flatten(decls.take(i)).len() + j) == flatten(decls.take(i))
            + decls[i].take(j),
    decreases decls.len(),
{
    if i < decls.len() - 1 {
        let rest = decls.drop_last();
        assert(rest.take(i) =~= decls.take(i));
        lemma_flatten_prefix(rest, i, j);
    }
}

/// No two of the rules have one name.
pub open spec fn distinct_names(rules: Seq<RuleView>) -> bool {
    forall|i: int, j: int| 0 <= i < j < rules.len() ==> rules[i].name != rules[j].name
}

/// A set of rules with different names, ready to run.
pub struct Language {
    rules: Vec<Rule>,
}

impl Language {
    #[verifier::type_invariant]
    spec fn inv(self) -> bool {
        distinct_names(rule_views(self.rules@))
    }

    /// The rules of the set, in order.
    pub closed spec fn view(&self) -> Seq<RuleView> {
        rule_views(self.rules@)
    }

    /// The rewrites that the rules of the set hold for the engine, in
    /// the order of the rules.
    pub closed spec fn engines(&self) -> Seq<Arc<egg::Rewrite<egg::SymbolLang, ()>>> {
        engines(self.rules@)
    }

    /// The rule set of the given declarations: all their rules, one
    /// declaration after the other, each with the rewrite that it holds
    /// for the engine. Refused where a name stands for the second time;
    /// the error holds the first such name.
    pub fn new(declarations: &Vec<RewriteRule>) -> (r: Result<Language, Error>)
        ensures
            match r {
                Ok(set) => {
                    &&& set@ == flatten(declaration_views(declarations@))
                    &&& set.engines() == flatten(declaration_engines(declarations@))
                    &&& first_duplicate(rule_names(set@)) is None
                    &&& distinct_names(set@)
                },
                Err(e) => first_duplicate(
                    rule_names(flatten(declaration_views(declarations@))),
                ) matches Some(n) && e@ == Defect::DuplicateRule(n),
            },
    {
        let ghost decls = declaration_views(declarations@);
        let ghost held = declaration_engines(declarations@);
        let ghost all = flatten(decls);
        let mut rules: Vec<Rule> = Vec::new();
        let mut i: usize = 0;
        while i < declarations.len()
            invariant
                i <= declarations@.len(),
                decls == declaration_views(declarations@),
                held == declaration_engines(declarations@),
                all == flatten(decls),
                rule_views(rules@) == flatten(decls.take(i as int)),
                engines(rules@) == flatten(held.take(i as int)),
                first_duplicate(rule_names(rule_views(rules@))) is None,
            decreases declarations@.len() - i,
        {
            let declared = declarations[i].rules();
            let ghost front = flatten(decls.take(i as int));
            let ghost first = flatten(held.take(i as int));
            let mut j: usize = 0;
            while j < declared.len()
                invariant
                    i < declarations@.len(),
                    j <= declared@.len(),
                    decls == declaration_views(declarations@),
                    held == declaration_engines(declarations@),
                    all == flatten(decls),
                    decls[i as int] == rule_views(declared@),
                    held[i as int] == engines(declared@),
                    front == flatten(decls.take(i as int)),
                    first == flatten(held.take(i as int)),
                    rule_views(rules@) == front + rule_views(declared@).take(j as int),
                    engines(rules@) == first + engines(declared@).take(j as int),
                    first_duplicate(rule_names(rule_views(rules@))) is None,
                decreases declared@.len() - j,
            {
                let rule = &declared[j];
                let ghost before = rule_views(rules@);
                let ghost made = engines(rules@);
                let ghost names = rule_names(before);
                proof {
                    lemma_flatten_prefix(decls, i as int, j + 1);
                    assert(front + rule_views(declared@).take(j + 1) =~= before.push(rule@));
                    assert(rule_names(before.push(rule@)) =~= names.push(rule@.name));
                    assert(names.push(rule@.name).drop_last() =~= names);
                }
                if Self::holds_name(&rules, rule.name()) {
                    proof {
                        let found = rule_names(all);
                        let k = before.len() as int;
                        assert(found.take(k + 1) =~= names.push(rule@.name));
                        lemma_first_duplicate_prefix(found, k + 1);
                    }
                    return Err(Error::DuplicateRule(rule.name().clone()));
                }
                let copy = rule.duplicate();
                rules.push(copy);
                proof {
                    assert(rule_views(rules@) =~= before.push(rule@));
                    assert(engines(rules@) =~= made.push(rule.engine()));
                    assert(first + engines(declared@).take(j + 1) =~= made.push(rule.engine()));
                }
                j += 1;
            }
            proof {
                assert(decls.take(i + 1).drop_last() =~= decls.take(i as int));
                assert(held.take(i + 1).drop_last() =~= held.take(i as int));
                assert(engines(declared@).take(j as int) =~= engines(declared@));
                assert(rule_views(declared@).take(j as int) =~= rule_views(declared@));
            }
            i += 1;
        }
        proof {
            let views = rule_views(rules@);
            assert(decls.take(i as int) =~= decls);
            assert(held.take(i as int) =~= held);
            lemma_first_duplicate(rule_names(views));
            assert forall|i: int, j: int| 0 <= i < j < views.len() implies views[i].name
                != views[j].name by {
                assert(rule_names(views)[i] == views[i].name);
                assert(rule_names(views)[j] == views[j].name);
            }
        }
        Ok(Language { rules })
    }

    /// Whether one of the rules has this name.
    fn holds_name(rules: &Vec<Rule>, name: &String) -> (r: bool)
        ensures
            r == rule_names(rule_views(rules@)).contains(name@),
    {
        let ghost names = rule_names(rule_views(rules@));
        let mut k: usize = 0;
        while k < rules.len()
            invariant
                k <= rules@.len(),
                names == rule_names(rule_views(rules@)),
                forall|m: int| 0 <= m < k ==> names[m] != name@,
            decreases rules@.len() - k,
        {
            if *rules[k].name() == *name {
                assert(names[k as int] == name@);
                return true;
            }
            k += 1;
        }
        false
    }

    /// The rules of the set, in order. No two of them have one name.
    pub fn rules(&self) -> (r: &Vec<Rule>)
        ensures
            rule_views(r@) == self@,
            engines(r@) == self.engines(),
            distinct_names(self@),
    {
        proof {
            use_type_invariant(self);
        }
        &self.rules
    }
}

/// A rule set holds every rule of every declaration it was made from.
pub proof fn law_rule_set_keeps_rules(decls: Seq<Seq<RuleView>>, k: int, i: int)
    requires
        0 <= k < decls.len(),
        0 <= i < decls[k].len(),
    ensures
        flatten(decls).contains(decls[k][i]),
{
    lemma_flatten_prefix(decls, k, i + 1);
    let at = flatten(decls.take(k)).len() + i;
    let front = flatten(decls).take(at + 1);
    assert(front[at] == decls[k].take(i + 1)[i]);
}

} // verus!
