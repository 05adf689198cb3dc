use egraphsgood::cost::CostModel;
use egraphsgood::derivation::{confirms, holds, is_ordered, is_unmarked, shows, Marks};
use egraphsgood::expr::Expr;
use egraphsgood::guard::{Always, Guard, Never};
use egraphsgood::language::Language;
use egraphsgood::node::Node;
use egraphsgood::rule::RewriteRule;
use egraphsgood::error::Error;
use egraphsgood::simplify::{judge, one_class, upholds};
use egraphsgood::term::Term;
use std::sync::Arc;

fn rule(name: &str, searcher: &str, applier: &str, symmetric: bool) -> RewriteRule {
    RewriteRule::new(name.to_string(), searcher, applier, symmetric).unwrap()
}

fn nodes(text: &str) -> Vec<Node> {
    let expr = Expr::parse(text).unwrap();
    expr.nodes()
        .iter()
        .map(|n| Node { op: n.op.clone(), children: n.children.clone() })
        .collect()
}

fn arithmetic() -> Language {
    Language::new(&vec![
        rule("comm-mul", "(* ?a ?b)", "(* ?b ?a)", true),
        rule("mul-1", "(* ?a 1)", "?a", false),
        rule("add-0", "(+ ?a 0)", "?a", false),
        rule("twice", "(+ ?a ?a)", "(* 2 ?a)", false),
    ])
    .unwrap()
}

fn shown(set: &Language, from: &str, to: &str, links: &[&str]) -> bool {
    let links: Vec<Vec<Node>> = links.iter().map(|l| nodes(l)).collect();
    shows(set.rules(), &nodes(from), &nodes(to), &links)
}

#[test]
fn run_removes_add_zero() {
    let rules = Language::new(&vec![rule("add-0", "(+ ?a 0)", "?a", false)]).unwrap();
    let (cost, best) = rules.simplify(Expr::parse("(+ 1 0)").unwrap(), "ast-size").unwrap();
    assert_eq!(cost, 1);
    assert_eq!(best.term(), Some(Term::leaf("1")));
}

#[test]
fn run_chains_commutation_and_identity() {
    let rules = Language::new(&vec![
        rule("comm-mul", "(* ?a ?b)", "(* ?b ?a)", true),
        rule("mul-1", "(* ?a 1)", "?a", false),
    ])
    .unwrap();
    let (cost, best) = rules.simplify(Expr::parse("(* 1 x)").unwrap(), "ast-size").unwrap();
    assert_eq!(cost, 1);
    assert_eq!(best.term(), Some(Term::leaf("x")));
}

#[test]
fn run_agrees_with_the_unchecked_run() {
    let inputs = [
        "(+ (* 1 (* y 1)) 0)",
        "(h (* 1 (f x)) (* 1 (f x)))",
        "(+ (+ a 0) (+ a 0))",
        "(* (+ x x) 1)",
        "x",
    ];
    for text in inputs {
        let plain = arithmetic().simplify_unchecked(Expr::parse(text).unwrap(), "ast-size").unwrap();
        let checked =
            arithmetic().simplify(Expr::parse(text).unwrap(), "ast-size").unwrap();
        assert_eq!(plain.0, checked.0, "{}", text);
        assert_eq!(checked.1.cost(CostModel::AstSize), Some(checked.0), "{}", text);
        let plain = arithmetic().simplify_unchecked(Expr::parse(text).unwrap(), "ast-depth").unwrap();
        let checked =
            arithmetic().simplify(Expr::parse(text).unwrap(), "ast-depth").unwrap();
        assert_eq!(plain.0, checked.0, "{}", text);
    }
}

#[test]
fn run_follows_rules_backwards() {
    let rules = Language::new(&vec![rule("fold", "(double ?a)", "(+ ?a ?a)", true)]).unwrap();
    let (cost, best) =
        rules.simplify(Expr::parse("(f (+ x x))").unwrap(), "ast-size").unwrap();
    assert_eq!(cost, 3);
    assert_eq!(
        best.term(),
        Some(Term::new("f", vec![Term::new("double", vec![Term::leaf("x")])]))
    );
}

#[test]
fn run_takes_guarded_rules() {
    let open = rule("add-0", "(+ ?a 0)", "?a", false)
        .only_when(Guard { predicate: Arc::new(Always) })
        .ok()
        .unwrap();
    let rules = Language::new(&vec![open]).unwrap();
    let (cost, best) =
        rules.simplify(Expr::parse("(g (+ 1 0))").unwrap(), "ast-size").unwrap();
    assert_eq!(cost, 2);
    assert_eq!(best.term(), Some(Term::new("g", vec![Term::leaf("1")])));
    let shut = rule("add-0", "(+ ?a 0)", "?a", false)
        .only_when(Guard { predicate: Arc::new(Never) })
        .ok()
        .unwrap();
    let rules = Language::new(&vec![shut]).unwrap();
    let (cost, _) =
        rules.simplify(Expr::parse("(g (+ 1 0))").unwrap(), "ast-size").unwrap();
    assert_eq!(cost, 4);
}

#[test]
fn unchecked_run_refuses_as_the_checked_run_does() {
    let rules = arithmetic();
    assert!(rules.simplify_unchecked(Expr::parse("(+ 1 0)").unwrap(), "bogus").is_err());
    assert!(rules.simplify_unchecked(Expr::new(), "ast-size").is_err());
    let widen = Language::new(&vec![rule("widen", "(f ?a)", "(f ?a ?a)", false)]).unwrap();
    assert!(widen.simplify_unchecked(Expr::parse("(f x)").unwrap(), "ast-size").is_err());
}

#[test]
fn run_without_rules_returns_the_input() {
    let rules = Language::new(&vec![]).unwrap();
    let (cost, best) =
        rules.simplify(Expr::parse("(+ 1 0)").unwrap(), "ast-size").unwrap();
    assert_eq!(cost, 3);
    assert_eq!(best.term(), Expr::parse("(+ 1 0)").unwrap().term());
}

#[test]
fn derivation_with_one_link_shows_an_expression_equal_to_itself() {
    assert!(shown(&arithmetic(), "(+ 1 0)", "(+ 1 0)", &["(+ 1 0)"]));
    assert!(!shown(&arithmetic(), "(+ 1 0)", "1", &["(+ 1 0)"]));
    assert!(!shown(&arithmetic(), "(+ 1 0)", "(+ 1 0)", &[]));
}

#[test]
fn derivation_at_the_root() {
    assert!(shown(&arithmetic(), "(+ 1 0)", "1", &["(+ 1 0)", "(Rewrite=> add-0 1)"]));
    assert!(shown(&arithmetic(), "1", "(+ 1 0)", &["1", "(Rewrite<= add-0 (+ 1 0))"]));
}

#[test]
fn derivation_inside() {
    assert!(shown(
        &arithmetic(),
        "(f (* 1 x) y)",
        "(f x y)",
        &[
            "(f (* 1 x) y)",
            "(f (Rewrite=> comm-mul (* x 1)) y)",
            "(f (Rewrite=> mul-1 x) y)",
        ],
    ));
}

#[test]
fn derivation_with_a_variable_that_stands_twice() {
    assert!(shown(
        &arithmetic(),
        "(+ (g a) (g a))",
        "(* 2 (g a))",
        &["(+ (g a) (g a))", "(Rewrite=> twice (* 2 (g a)))"],
    ));
    assert!(!shown(
        &arithmetic(),
        "(+ (g a) (g b))",
        "(* 2 (g a))",
        &["(+ (g a) (g b))", "(Rewrite=> twice (* 2 (g a)))"],
    ));
}

#[test]
fn rule_whose_left_side_is_a_variable() {
    let set = Language::new(&vec![rule("wrap", "?a", "(id ?a)", true)]).unwrap();
    assert!(shown(&set, "x", "(id x)", &["x", "(Rewrite=> wrap (id x))"]));
    assert!(shown(&set, "(id x)", "x", &["(id x)", "(Rewrite<= wrap x)"]));
    assert!(shown(&set, "(id x)", "x", &["(id x)", "(Rewrite=> wrap-rev x)"]));
    assert!(!shown(&set, "x", "(id y)", &["x", "(Rewrite=> wrap (id y))"]));
}

#[test]
fn derivation_with_a_wrong_link_is_refused() {
    let set = arithmetic();
    // the rule does not give this
    assert!(!shown(&set, "(+ 1 0)", "0", &["(+ 1 0)", "(Rewrite=> add-0 0)"]));
    // the rule leads the other way
    assert!(!shown(&set, "(+ 1 0)", "1", &["(+ 1 0)", "(Rewrite<= add-0 1)"]));
    // no rule of this name
    assert!(!shown(&set, "(+ 1 0)", "1", &["(+ 1 0)", "(Rewrite=> sub-0 1)"]));
    // a link without a mark that differs from the one before
    assert!(!shown(&set, "(+ 1 0)", "1", &["(+ 1 0)", "1"]));
    // a link without a mark that does not differ
    assert!(!shown(&set, "(+ 1 0)", "(+ 1 0)", &["(+ 1 0)", "(+ 1 0)"]));
    // two places change in one link
    assert!(!shown(
        &set,
        "(f (+ 1 0) (+ 2 0))",
        "(f 1 2)",
        &["(f (+ 1 0) (+ 2 0))", "(f (Rewrite=> add-0 1) 2)"],
    ));
    // the derivation begins or ends elsewhere
    assert!(!shown(&set, "(+ 2 0)", "1", &["(+ 1 0)", "(Rewrite=> add-0 1)"]));
    assert!(!shown(&set, "(+ 1 0)", "2", &["(+ 1 0)", "(Rewrite=> add-0 1)"]));
}

#[test]
fn expressions_that_hold_marks_are_not_shown() {
    let set = arithmetic();
    let marked = vec![
        Node { op: "add-0".to_string(), children: vec![] },
        Node { op: "1".to_string(), children: vec![] },
        Node { op: "Rewrite=>".to_string(), children: vec![0, 1] },
    ];
    let plain = nodes("1");
    assert!(!shows(set.rules(), &marked, &plain, &vec![nodes("1")]));
    assert!(!shows(set.rules(), &plain, &marked, &vec![nodes("1")]));
}

#[test]
fn marks_are_known_by_their_text_and_their_two_children() {
    let marks = Marks::new();
    let forth = Node { op: "Rewrite=>".to_string(), children: vec![0, 1] };
    let back = Node { op: "Rewrite<=".to_string(), children: vec![0, 1] };
    let short = Node { op: "Rewrite=>".to_string(), children: vec![0] };
    let other = Node { op: "Rewrite".to_string(), children: vec![0, 1] };
    assert!(marks.marks(&forth) && marks.leads_forth(&forth));
    assert!(marks.marks(&back) && !marks.leads_forth(&back));
    assert!(!marks.marks(&short));
    assert!(!marks.marks(&other));
}

#[test]
fn marks_are_left_out_when_trees_are_compared() {
    let set = arithmetic();
    // marks in a link that is not the last one do not count
    assert!(shown(
        &set,
        "(f (* x 1) (+ y 0))",
        "(f x y)",
        &[
            "(f (* x 1) (+ y 0))",
            "(f (Rewrite=> mul-1 x) (+ y 0))",
            "(f x (Rewrite=> add-0 y))",
        ],
    ));
    // a mark around a mark
    assert!(shown(
        &set,
        "(+ 1 0)",
        "1",
        &["(+ 1 0)", "(Rewrite=> add-0 (Rewrite=> add-0 1))"],
    ));
}

#[test]
fn derivation_holds_or_does_not() {
    let set = arithmetic();
    let marks = Marks::new();
    assert!(holds(set.rules(), &vec![nodes("x")], &marks));
    assert!(holds(set.rules(), &vec![nodes("(+ x 0)"), nodes("(Rewrite=> add-0 x)")], &marks));
    assert!(!holds(set.rules(), &vec![], &marks));
    assert!(!holds(set.rules(), &vec![vec![]], &marks));
    assert!(!holds(set.rules(), &vec![nodes("x"), vec![]], &marks));
    assert!(!holds(set.rules(), &vec![nodes("(+ x 0)"), nodes("x")], &marks));
    let twisted = vec![Node { op: "f".to_string(), children: vec![0] }];
    assert!(!holds(set.rules(), &vec![twisted], &marks));
}

#[test]
fn marks_are_found() {
    let marks = Marks::new();
    assert!(is_unmarked(&nodes("(f (g x) y)"), &marks));
    assert!(is_unmarked(&vec![], &marks));
    assert!(!is_unmarked(&nodes("(f (Rewrite=> r x) y)"), &marks));
    assert!(!is_unmarked(&nodes("(Rewrite<= r x)"), &marks));
    assert!(is_unmarked(&nodes("(Rewrite=> x)"), &marks));
}

#[test]
fn order_of_nodes_is_judged() {
    assert!(is_ordered(&nodes("(f (g x) y)")));
    assert!(is_ordered(&vec![]));
    assert!(!is_ordered(&vec![Node { op: "f".to_string(), children: vec![0] }]));
    assert!(!is_ordered(&vec![
        Node { op: "x".to_string(), children: vec![] },
        Node { op: "f".to_string(), children: vec![0, 2] },
    ]));
}

#[test]
fn rule_with_a_name_of_two_words_is_followed() {
    let rules = Language::new(&vec![rule("add zero", "(+ ?a 0)", "?a", false)]).unwrap();
    let (cost, best) = rules.simplify(Expr::parse("(g (+ 1 0))").unwrap(), "ast-size").unwrap();
    assert_eq!(cost, 2);
    assert_eq!(best.term(), Some(Term::new("g", vec![Term::leaf("1")])));
}

#[test]
fn pattern_with_a_part_that_stands_twice_is_followed() {
    let rules =
        Language::new(&vec![rule("halve", "(+ (f ?a) (f ?a))", "(f ?a)", false)]).unwrap();
    let (cost, best) =
        rules.simplify(Expr::parse("(g (+ (f x) (f x)))").unwrap(), "ast-size").unwrap();
    assert_eq!(cost, 3);
    assert_eq!(
        best.term(),
        Some(Term::new("g", vec![Term::new("f", vec![Term::leaf("x")])]))
    );
}

#[test]
fn long_chain_is_followed() {
    let rules = Language::new(&vec![
        rule("assoc", "(+ (+ ?a ?b) ?c)", "(+ ?a (+ ?b ?c))", true),
        rule("comm", "(+ ?a ?b)", "(+ ?b ?a)", false),
        rule("add-0", "(+ ?a 0)", "?a", false),
    ])
    .unwrap();
    let (cost, best) =
        rules.simplify(Expr::parse("(+ 0 (+ (+ 0 x) 0))").unwrap(), "ast-size").unwrap();
    assert_eq!(cost, 1);
    assert_eq!(best.term(), Some(Term::leaf("x")));
}

fn grown(seed: &mut u64, depth: u32) -> String {
    *seed = seed.wrapping_mul(6364136223846793005).wrapping_add(1442695040888963407);
    let pick = (*seed >> 33) % 10;
    if depth == 0 || pick < 3 {
        let leaves = ["x", "y", "0", "1"];
        return leaves[((*seed >> 40) % 4) as usize].to_string();
    }
    match pick {
        3 | 4 | 5 => format!("(+ {} {})", grown(seed, depth - 1), grown(seed, depth - 1)),
        6 | 7 => format!("(* {} {})", grown(seed, depth - 1), grown(seed, depth - 1)),
        8 => format!("(- {} {})", grown(seed, depth - 1), grown(seed, depth - 1)),
        _ => format!("(neg {})", grown(seed, depth - 1)),
    }
}

#[test]
fn run_agrees_with_the_unchecked_run_on_many_inputs() {
    let rules = Language::new(&vec![
        rule("comm-mul", "(* ?a ?b)", "(* ?b ?a)", false),
        rule("add-0", "(+ ?a 0)", "?a", false),
        rule("zero-add", "(+ 0 ?a)", "?a", false),
        rule("mul-1", "(* ?a 1)", "?a", false),
        rule("mul-0", "(* ?a 0)", "0", false),
        rule("sub-self", "(- ?a ?a)", "0", false),
        rule("double", "(+ ?a ?a)", "(* 2 ?a)", true),
        rule("neg-neg", "(neg (neg ?a))", "?a", false),
    ])
    .unwrap();
    let mut seed: u64 = 7;
    for _ in 0..25 {
        let text = grown(&mut seed, 3);
        let plain = rules.simplify_unchecked(Expr::parse(&text).unwrap(), "ast-size").unwrap();
        let checked = rules.simplify(Expr::parse(&text).unwrap(), "ast-size").unwrap();
        // among expressions of one cost the two runs may choose differently
        assert_eq!(plain.0, checked.0, "{}", text);
        assert_eq!(checked.1.cost(CostModel::AstSize), Some(checked.0), "{}", text);
    }
}

fn confirmed(set: &Language, from: &str, to: &str, written: &[&str]) -> bool {
    let written: Vec<String> = written.iter().map(|l| l.to_string()).collect();
    confirms(set.rules(), &nodes(from), &nodes(to), &written)
}

#[test]
fn written_derivation_is_read_and_followed() {
    let set = arithmetic();
    assert!(confirmed(&set, "(+ x 0)", "x", &["(+ x 0)", "(Rewrite=> add-0 x)"]));
    assert!(confirmed(
        &set,
        "(* 1 x)",
        "x",
        &["(* 1 x)", "(Rewrite=> comm-mul (* x 1))", "(Rewrite=> mul-1 x)"],
    ));
    assert!(confirmed(&set, "x", "(+ x 0)", &["x", "(Rewrite<= add-0 (+ x 0))"]));
    assert!(confirmed(&set, "(f x)", "(f x)", &["(f x)"]));
}

#[test]
fn written_derivation_that_cannot_be_read_confirms_nothing() {
    let set = arithmetic();
    assert!(!confirmed(&set, "(+ x 0)", "x", &["(+ x 0)", "(Rewrite=> add-0 x"]));
    assert!(!confirmed(&set, "(+ x 0)", "x", &["(+ x 0", "(Rewrite=> add-0 x)"]));
    assert!(!confirmed(&set, "(+ x 0)", "x", &["(+ x 0)", ")", "(Rewrite=> add-0 x)"]));
}

#[test]
fn written_derivation_that_does_not_hold_confirms_nothing() {
    let set = arithmetic();
    assert!(!confirmed(&set, "(+ x 0)", "x", &[]));
    assert!(!confirmed(&set, "(+ x 0)", "x", &["(+ x 0)", "(Rewrite=> mul-1 x)"]));
    assert!(!confirmed(&set, "(+ x 0)", "x", &["(+ x 0)", "(Rewrite=> add-1 x)"]));
    assert!(!confirmed(&set, "(+ x 0)", "y", &["(+ x 0)", "(Rewrite=> add-0 x)"]));
    assert!(!confirmed(&set, "(+ y 0)", "x", &["(+ x 0)", "(Rewrite=> add-0 x)"]));
    assert!(!confirmed(&set, "(+ x 0)", "x", &["(+ x 0)", "x"]));
}

fn upheld(
    set: &Language,
    from: &str,
    picked: &Vec<Node>,
    home: Option<usize>,
    other: Option<usize>,
    written: &[&str],
) -> bool {
    let written: Vec<String> = written.iter().map(|l| l.to_string()).collect();
    upholds(set.rules(), &nodes(from), picked, home, other, &written)
}

#[test]
fn classes_are_one_where_both_are_there_and_the_same() {
    assert!(one_class(Some(3), Some(3)));
    assert!(one_class(Some(0), Some(0)));
    assert!(!one_class(Some(3), Some(4)));
    assert!(!one_class(Some(3), None));
    assert!(!one_class(None, Some(3)));
    assert!(!one_class(None, None));
}

#[test]
fn pick_stands_where_class_and_derivation_agree() {
    let set = arithmetic();
    let written = ["(+ x 0)", "(Rewrite=> add-0 x)"];
    assert!(upheld(&set, "(+ x 0)", &nodes("x"), Some(2), Some(2), &written));
    assert!(upheld(&set, "(+ x 0)", &nodes("(+ x 0)"), Some(0), Some(0), &["(+ x 0)"]));
}

#[test]
fn pick_does_not_stand_in_another_class() {
    let set = arithmetic();
    let written = ["(+ x 0)", "(Rewrite=> add-0 x)"];
    assert!(!upheld(&set, "(+ x 0)", &nodes("x"), Some(2), Some(1), &written));
    assert!(!upheld(&set, "(+ x 0)", &nodes("x"), Some(2), None, &written));
    assert!(!upheld(&set, "(+ x 0)", &nodes("x"), None, Some(2), &written));
    assert!(!upheld(&set, "(+ x 0)", &nodes("x"), None, None, &written));
}

#[test]
fn pick_does_not_stand_without_a_derivation_that_confirms_it() {
    let set = arithmetic();
    assert!(!upheld(&set, "(+ x 0)", &nodes("x"), Some(2), Some(2), &[]));
    assert!(!upheld(&set, "(+ x 0)", &nodes("x"), Some(2), Some(2), &["(+ x 0)", "(Rewrite=> mul-1 x)"]));
    assert!(!upheld(&set, "(+ x 0)", &nodes("y"), Some(2), Some(2), &["(+ x 0)", "(Rewrite=> add-0 x)"]));
}

#[test]
fn pick_that_is_no_expression_does_not_stand() {
    let set = arithmetic();
    let twice = vec![
        Node { op: "x".to_string(), children: vec![] },
        Node { op: "f".to_string(), children: vec![0] },
        Node { op: "f".to_string(), children: vec![0, 1] },
    ];
    assert!(!upheld(&set, "(g x)", &twice, Some(2), Some(2), &["(g x)"]));
    let forward = vec![Node { op: "f".to_string(), children: vec![1] }];
    assert!(!upheld(&set, "(f x)", &forward, Some(1), Some(1), &["(f x)"]));
    assert!(!upheld(&set, "(f x)", &Vec::new(), Some(1), Some(1), &["(f x)"]));
}

fn usages(list: &[(&str, usize)]) -> Vec<(String, usize)> {
    list.iter().map(|(op, n)| (op.to_string(), *n)).collect()
}

fn lines(written: &[&str]) -> Vec<String> {
    written.iter().map(|l| l.to_string()).collect()
}

#[test]
fn pick_that_stands_is_the_result() {
    let set = arithmetic();
    let (cost, best) = judge(
        set.rules(),
        CostModel::AstSize,
        Expr::parse("(+ x 0)").unwrap(),
        &usages(&[("x", 0), ("0", 0), ("+", 2)]),
        1,
        &nodes("x"),
        Some(2),
        Some(2),
        &lines(&["(+ x 0)", "(Rewrite=> add-0 x)"]),
    )
    .unwrap();
    assert_eq!(cost, 1);
    assert_eq!(best.term(), Some(Term::leaf("x")));
}

#[test]
fn pick_that_does_not_stand_gives_way_to_the_input() {
    let set = arithmetic();
    let sum = Term::new("+", vec![Term::leaf("x"), Term::leaf("0")]);
    let inserted = usages(&[("x", 0), ("0", 0), ("+", 2)]);
    let written = lines(&["(+ x 0)", "(Rewrite=> add-0 x)"]);
    let other_class = judge(
        set.rules(),
        CostModel::AstSize,
        Expr::parse("(+ x 0)").unwrap(),
        &inserted,
        1,
        &nodes("x"),
        Some(2),
        Some(0),
        &written,
    )
    .unwrap();
    assert_eq!(other_class.0, 3);
    assert_eq!(other_class.1.term().as_ref(), Some(&sum));
    let wrong_derivation = judge(
        set.rules(),
        CostModel::AstSize,
        Expr::parse("(+ x 0)").unwrap(),
        &inserted,
        1,
        &nodes("x"),
        Some(2),
        Some(2),
        &lines(&["(+ x 0)", "(Rewrite=> mul-1 x)"]),
    )
    .unwrap();
    assert_eq!(wrong_derivation.0, 3);
    assert_eq!(wrong_derivation.1.term().as_ref(), Some(&sum));
    let wrong_cost = judge(
        set.rules(),
        CostModel::AstSize,
        Expr::parse("(+ x 0)").unwrap(),
        &inserted,
        2,
        &nodes("x"),
        Some(2),
        Some(2),
        &written,
    )
    .unwrap();
    assert_eq!(wrong_cost.0, 3);
    assert_eq!(wrong_cost.1.term().as_ref(), Some(&sum));
}

#[test]
fn graph_with_two_child_counts_fails_the_judgement() {
    let set = arithmetic();
    let outcome = judge(
        set.rules(),
        CostModel::AstDepth,
        Expr::parse("(+ x 0)").unwrap(),
        &usages(&[("x", 0), ("0", 0), ("+", 2), ("+", 1)]),
        1,
        &nodes("x"),
        Some(2),
        Some(2),
        &lines(&["(+ x 0)", "(Rewrite=> add-0 x)"]),
    );
    assert_eq!(
        outcome.err(),
        Some(Error::ArityMismatch { op: "+".to_string(), expected: 2, found: 1 })
    );
    let empty = judge(
        set.rules(),
        CostModel::AstSize,
        Expr::new(),
        &usages(&[]),
        1,
        &nodes("x"),
        Some(0),
        Some(0),
        &lines(&["x"]),
    );
    assert_eq!(empty.err(), Some(Error::Empty));
}
