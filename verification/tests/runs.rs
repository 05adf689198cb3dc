use egraphsgood::error::Error;
use egraphsgood::expr::Expr;
use egraphsgood::language::Language;
use egraphsgood::rule::RewriteRule;
use egraphsgood::term::Term;

fn rule(name: &str, searcher: &str, applier: &str, symmetric: bool) -> RewriteRule {
    RewriteRule::new(name.to_string(), searcher, applier, symmetric).unwrap()
}

#[test]
fn add_zero_is_removed() {
    let rules = Language::new(&vec![rule("add-0", "(+ ?a 0)", "?a", false)]).unwrap();
    let input = Expr::parse("(+ 1 0)").unwrap();
    let (cost, best) = rules.simplify(input, "ast-size").unwrap();
    assert_eq!(cost, 1);
    assert_eq!(best.term().unwrap(), Term::leaf("1"));
}

#[test]
fn commutation_then_identity() {
    let rules = Language::new(&vec![
        rule("comm-mul", "(* ?a ?b)", "(* ?b ?a)", true),
        rule("mul-1", "(* ?a 1)", "?a", false),
    ])
    .unwrap();
    let input = Expr::parse("(* 1 x)").unwrap();
    let (cost, best) = rules.simplify(input, "ast-size").unwrap();
    assert_eq!(cost, 1);
    assert_eq!(best.term().unwrap(), Term::leaf("x"));
}

#[test]
fn unknown_cost_model_is_refused() {
    let rules = Language::new(&vec![rule("add-0", "(+ ?a 0)", "?a", false)]).unwrap();
    let input = Expr::parse("(+ 1 0)").unwrap();
    let outcome = rules.simplify(input, "bogus");
    assert_eq!(outcome.err(), Some(Error::UnknownCostModel("bogus".to_string())));
}

#[test]
fn second_arity_is_refused() {
    let mut expr = Expr::new();
    let first = Term::new("f", vec![Term::leaf("1")]);
    let second = Term::new("f", vec![Term::leaf("1"), Term::leaf("2")]);
    assert_eq!(expr.insert(&first), Ok(1));
    assert_eq!(
        expr.insert(&second),
        Err(Error::ArityMismatch { op: "f".to_string(), expected: 1, found: 2 })
    );
    assert_eq!(expr.len(), 2);
}
