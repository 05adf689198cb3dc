use egraphsgood::error::Error;
use egraphsgood::expr::Expr;
use egraphsgood::language::Language;
use egraphsgood::node::Node;
use egraphsgood::pattern::PatternNode;
use egraphsgood::rule::RewriteRule;
use egraphsgood::term::Term;

fn rule(name: &str, searcher: &str, applier: &str, symmetric: bool) -> RewriteRule {
    RewriteRule::new(name.to_string(), searcher, applier, symmetric).unwrap()
}

fn simplify(rules: Vec<RewriteRule>, text: &str, cost: &str) -> (usize, Term) {
    let set = Language::new(&rules).unwrap();
    let (cost, best) = set.simplify(Expr::parse(text).unwrap(), cost).unwrap();
    (cost, best.term().unwrap())
}

#[test]
fn one_direction_gives_one_rule() {
    let declared = rule("add-0", "(+ ?a 0)", "?a", false);
    assert_eq!(declared.rules().len(), 1);
    assert_eq!(declared.rules()[0].name(), "add-0");
    assert_eq!(declared.rules()[0].searcher(), "(+ ?a 0)");
    assert_eq!(declared.rules()[0].applier(), "?a");
    assert_eq!(declared.rules()[0].guard_count(), 0);
}

#[test]
fn both_directions_give_two_rules_the_reverse_first() {
    let declared = rule("comm-add", "(+ ?a ?b)", "(+ ?b ?a)", true);
    assert_eq!(declared.rules().len(), 2);
    assert_eq!(declared.rules()[0].name(), "comm-add-rev");
    assert_eq!(declared.rules()[0].searcher(), "(+ ?b ?a)");
    assert_eq!(declared.rules()[0].applier(), "(+ ?a ?b)");
    assert_eq!(declared.rules()[1].name(), "comm-add");
    assert_eq!(declared.rules()[1].searcher(), "(+ ?a ?b)");
    assert_eq!(declared.rules()[1].applier(), "(+ ?b ?a)");
}

#[test]
fn commutation_puts_both_orders_into_one_class() {
    let rules = vec![
        rule("comm-add", "(+ ?a ?b)", "(+ ?b ?a)", true),
        rule("mark", "(+ 2 1)", "found", false),
    ];
    assert_eq!(simplify(rules, "(+ 1 2)", "ast-size"), (1, Term::leaf("found")));
    let rules = vec![rule("mark", "(+ 2 1)", "found", false)];
    assert_eq!(simplify(rules, "(+ 1 2)", "ast-size").0, 3);
}

#[test]
fn reverse_direction_is_applied() {
    let rules = vec![rule("fold", "(double ?a)", "(+ ?a ?a)", true)];
    assert_eq!(
        simplify(rules, "(+ x x)", "ast-size"),
        (2, Term::new("double", vec![Term::leaf("x")]))
    );
    let rules = vec![rule("fold", "(double ?a)", "(+ ?a ?a)", false)];
    assert_eq!(simplify(rules, "(+ x x)", "ast-size").0, 3);
}

#[test]
fn malformed_pattern_is_a_parse_error() {
    let searcher = RewriteRule::new("r".to_string(), "(+ ?a", "?a", false);
    assert!(matches!(searcher.err(), Some(Error::Parse(_))));
    let applier = RewriteRule::new("r".to_string(), "(+ ?a 0)", ")", false);
    assert!(matches!(applier.err(), Some(Error::Parse(_))));
    let both = RewriteRule::new("r".to_string(), "", "(", true);
    assert!(matches!(both.err(), Some(Error::Parse(_))));
}

#[test]
fn unbound_variable_is_refused() {
    let made = RewriteRule::new("grow".to_string(), "(f ?a)", "(g ?a ?b)", false);
    assert_eq!(
        made.err(),
        Some(Error::Rule("Rewrite grow refers to unbound var ?b".to_string()))
    );
}

#[test]
fn reverse_rule_is_judged_first() {
    let made = RewriteRule::new("drop".to_string(), "(pair ?a ?b)", "?a", true);
    assert_eq!(
        made.err(),
        Some(Error::Rule("Rewrite drop-rev refers to unbound var ?b".to_string()))
    );
    assert!(RewriteRule::new("drop".to_string(), "(pair ?a ?b)", "?a", false).is_ok());
}

#[test]
fn rule_set_holds_all_rules_in_order() {
    let set = Language::new(&vec![
        rule("comm-mul", "(* ?a ?b)", "(* ?b ?a)", true),
        rule("mul-1", "(* ?a 1)", "?a", false),
    ])
    .unwrap();
    let names: Vec<&str> = set.rules().iter().map(|r| r.name().as_str()).collect();
    assert_eq!(names, vec!["comm-mul-rev", "comm-mul", "mul-1"]);
}

#[test]
fn empty_rule_set_changes_nothing() {
    assert_eq!(
        simplify(vec![], "(+ 1 0)", "ast-size"),
        (3, Term::new("+", vec![Term::leaf("1"), Term::leaf("0")]))
    );
}

#[test]
fn duplicate_name_is_refused() {
    let twice = Language::new(&vec![
        rule("add-0", "(+ ?a 0)", "?a", false),
        rule("mul-1", "(* ?a 1)", "?a", false),
        rule("add-0", "(+ 0 ?a)", "?a", false),
    ]);
    assert_eq!(twice.err(), Some(Error::DuplicateRule("add-0".to_string())));
    let reverse = Language::new(&vec![
        rule("swap", "(p ?a ?b)", "(p ?b ?a)", true),
        rule("swap-rev", "(q ?a)", "?a", false),
    ]);
    assert_eq!(reverse.err(), Some(Error::DuplicateRule("swap-rev".to_string())));
}

#[test]
fn declaration_can_be_used_twice() {
    let declared = rule("add-0", "(+ ?a 0)", "?a", false);
    let first = Language::new(&vec![declared.duplicate()]).unwrap();
    let second = Language::new(&vec![declared]).unwrap();
    let a = first.simplify(Expr::parse("(+ 1 0)").unwrap(), "ast-size").unwrap();
    let b = second.simplify(Expr::parse("(+ 1 0)").unwrap(), "ast-size").unwrap();
    assert_eq!(a.0, b.0);
    assert_eq!(a.1.term(), b.1.term());
}

#[test]
fn depth_model_prefers_the_flat_expression() {
    let rules = vec![rule("flat", "(f (f ?a))", "(g ?a ?a ?a)", false)];
    assert_eq!(
        simplify(rules, "(f (f x))", "ast-depth"),
        (2, Term::new("g", vec![Term::leaf("x"), Term::leaf("x"), Term::leaf("x")]))
    );
    let rules = vec![rule("flat", "(f (f ?a))", "(g ?a ?a ?a)", false)];
    assert_eq!(simplify(rules, "(f (f x))", "ast-size").0, 3);
}

#[test]
fn cost_never_rises() {
    let rules = vec![rule("grow", "(f ?a)", "(g (g ?a))", false)];
    let (cost, best) = simplify(rules, "(f x)", "ast-size");
    assert_eq!(cost, 2);
    assert_eq!(best, Term::new("f", vec![Term::leaf("x")]));
}

#[test]
fn second_run_finds_nothing_cheaper() {
    let rules = Language::new(&vec![
        rule("comm-mul", "(* ?a ?b)", "(* ?b ?a)", true),
        rule("mul-1", "(* ?a 1)", "?a", false),
        rule("add-0", "(+ ?a 0)", "?a", false),
    ])
    .unwrap();
    let input = Expr::parse("(+ (* 1 (* y 1)) 0)").unwrap();
    let (first, best) = rules.simplify(input, "ast-size").unwrap();
    assert_eq!(first, 1);
    let (second, again) = rules.simplify(best, "ast-size").unwrap();
    assert_eq!(second, first);
    assert_eq!(again.term(), Some(Term::leaf("y")));
}

#[test]
fn rule_that_brings_a_second_arity_fails_the_run() {
    let rules = Language::new(&vec![rule("widen", "(f ?a)", "(f ?a ?a)", false)]).unwrap();
    let outcome = rules.simplify(Expr::parse("(f x)").unwrap(), "ast-size");
    assert_eq!(
        outcome.err(),
        Some(Error::ArityMismatch { op: "f".to_string(), expected: 1, found: 2 })
    );
}

#[test]
fn input_without_a_node_is_refused_after_the_cost_model() {
    let rules = Language::new(&vec![]).unwrap();
    assert_eq!(rules.simplify(Expr::new(), "ast-size").err(), Some(Error::Empty));
    assert_eq!(
        rules.simplify(Expr::new(), "nope").err(),
        Some(Error::UnknownCostModel("nope".to_string()))
    );
}

#[test]
fn shared_input_is_taken() {
    let mut input = Expr::new();
    input.add("x", vec![]).unwrap();
    input.add("0", vec![]).unwrap();
    input.add("+", vec![0, 1]).unwrap();
    input.add("pair", vec![2, 2]).unwrap();
    let rules = Language::new(&vec![rule("add-0", "(+ ?a 0)", "?a", false)]).unwrap();
    let (cost, best) = rules.simplify(input, "ast-size").unwrap();
    assert_eq!(cost, 3);
    assert_eq!(best.term(), Some(Term::new("pair", vec![Term::leaf("x"), Term::leaf("x")])));
}

#[test]
fn rule_holds_the_nodes_of_its_patterns() {
    let declared = rule("add-0", "(+ ?a 0)", "?a", true);
    let forth = &declared.rules()[1];
    assert_eq!(
        forth.left(),
        &vec![
            PatternNode::Var("?a".to_string()),
            PatternNode::Op(Node { op: "0".to_string(), children: vec![] }),
            PatternNode::Op(Node { op: "+".to_string(), children: vec![0, 1] }),
        ]
    );
    assert_eq!(forth.right(), &vec![PatternNode::Var("?a".to_string())]);
    let back = &declared.rules()[0];
    assert_eq!(back.left(), forth.right());
    assert_eq!(back.right(), forth.left());
    let twice = rule("halve", "(+ (f ?a) (f ?a))", "(f ?a)", false);
    assert_eq!(
        twice.rules()[0].left(),
        &vec![
            PatternNode::Var("?a".to_string()),
            PatternNode::Op(Node { op: "f".to_string(), children: vec![0] }),
            PatternNode::Op(Node { op: "+".to_string(), children: vec![1, 1] }),
        ]
    );
}

#[test]
fn variables_of_a_pattern_stand_once_in_their_order() {
    let declared = rule("mix", "(f ?b (g ?a ?b) ?c ?a)", "?c", false);
    let found = egraphsgood::pattern::pattern_variables(declared.rules()[0].left());
    assert_eq!(found, vec!["?b".to_string(), "?a".to_string(), "?c".to_string()]);
    let none = rule("ground", "(f 1)", "2", false);
    assert!(egraphsgood::pattern::pattern_variables(none.rules()[0].left()).is_empty());
}
