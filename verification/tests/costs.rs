use egraphsgood::cost::CostModel;
use egraphsgood::error::Error;
use egraphsgood::expr::Expr;
use egraphsgood::node::Node;
use egraphsgood::simplify::{conclude, settle};
use egraphsgood::term::Term;

fn node(op: &str, children: Vec<usize>) -> Node {
    Node { op: op.to_string(), children }
}

#[test]
fn names_of_cost_models() {
    assert_eq!(CostModel::from_name("ast-size"), Ok(CostModel::AstSize));
    assert_eq!(CostModel::from_name("ast-depth"), Ok(CostModel::AstDepth));
    assert_eq!(
        CostModel::from_name("bogus"),
        Err(Error::UnknownCostModel("bogus".to_string()))
    );
    assert_eq!(CostModel::from_name(""), Err(Error::UnknownCostModel("".to_string())));
    assert_eq!(
        CostModel::from_name("AST-SIZE"),
        Err(Error::UnknownCostModel("AST-SIZE".to_string()))
    );
    assert_eq!(
        CostModel::from_name("ast-size "),
        Err(Error::UnknownCostModel("ast-size ".to_string()))
    );
}

#[test]
fn size_counts_nodes_and_depth_counts_levels() {
    let expr = Expr::parse("(+ (* 2 (neg x)) y)").unwrap();
    assert_eq!(expr.cost(CostModel::AstSize), Some(6));
    assert_eq!(expr.cost(CostModel::AstDepth), Some(4));
    assert_eq!(expr.costs(CostModel::AstSize), vec![1, 1, 2, 4, 1, 6]);
    assert_eq!(expr.costs(CostModel::AstDepth), vec![1, 1, 2, 3, 1, 4]);
}

#[test]
fn leaf_costs_one() {
    let expr = Expr::parse("x").unwrap();
    assert_eq!(expr.cost(CostModel::AstSize), Some(1));
    assert_eq!(expr.cost(CostModel::AstDepth), Some(1));
}

#[test]
fn empty_expression_has_no_cost() {
    assert_eq!(Expr::new().cost(CostModel::AstSize), None);
    assert_eq!(Expr::new().cost(CostModel::AstDepth), None);
}

#[test]
fn shared_subterm_counts_each_time_it_occurs() {
    let nodes = vec![node("a", vec![]), node("f", vec![0, 0]), node("g", vec![1, 1, 0])];
    let expr = Expr::from_nodes(&nodes).unwrap();
    assert_eq!(expr.cost(CostModel::AstSize), Some(8));
    assert_eq!(expr.cost(CostModel::AstDepth), Some(3));
}

#[test]
fn size_stays_at_the_largest_word() {
    let mut nodes = vec![node("a", vec![])];
    for i in 0..70 {
        nodes.push(node("d", vec![i, i]));
    }
    let expr = Expr::from_nodes(&nodes).unwrap();
    assert_eq!(expr.cost(CostModel::AstSize), Some(usize::MAX));
    assert_eq!(expr.cost(CostModel::AstDepth), Some(71));
}

fn input() -> Expr {
    Expr::parse("(+ 1 0)").unwrap()
}

#[test]
fn cheaper_pick_is_taken() {
    let picked = vec![node("1", vec![])];
    let (cost, best) = settle(CostModel::AstSize, input(), 1, &picked).unwrap();
    assert_eq!(cost, 1);
    assert_eq!(best.term(), Some(Term::leaf("1")));
}

#[test]
fn pick_of_equal_cost_is_taken() {
    let picked = vec![node("0", vec![]), node("1", vec![]), node("+", vec![0, 1])];
    let (cost, best) = settle(CostModel::AstSize, input(), 3, &picked).unwrap();
    assert_eq!(cost, 3);
    assert_eq!(best.nodes(), &picked);
}

#[test]
fn dearer_pick_gives_way_to_the_input() {
    let picked = vec![node("1", vec![]), node("neg", vec![0]), node("neg", vec![1]), node("neg", vec![2])];
    let (cost, best) = settle(CostModel::AstSize, input(), 4, &picked).unwrap();
    assert_eq!(cost, 3);
    assert_eq!(best.nodes(), input().nodes());
    let (cost, best) = settle(CostModel::AstDepth, input(), 4, &picked).unwrap();
    assert_eq!(cost, 2);
    assert_eq!(best.nodes(), input().nodes());
}

#[test]
fn pick_with_a_wrong_cost_gives_way_to_the_input() {
    let picked = vec![node("1", vec![])];
    let (cost, best) = settle(CostModel::AstSize, input(), 2, &picked).unwrap();
    assert_eq!(cost, 3);
    assert_eq!(best.nodes(), input().nodes());
    let (cost, best) = settle(CostModel::AstSize, input(), 0, &picked).unwrap();
    assert_eq!(cost, 3);
    assert_eq!(best.nodes(), input().nodes());
}

#[test]
fn pick_that_is_no_expression_gives_way_to_the_input() {
    let dangling = vec![node("f", vec![0])];
    let (cost, best) = settle(CostModel::AstSize, input(), 1, &dangling).unwrap();
    assert_eq!(cost, 3);
    assert_eq!(best.nodes(), input().nodes());
    let (cost, best) = settle(CostModel::AstSize, input(), 0, &vec![]).unwrap();
    assert_eq!(cost, 3);
    assert_eq!(best.nodes(), input().nodes());
    let twice = vec![node("a", vec![]), node("f", vec![0]), node("f", vec![])];
    let (cost, best) = settle(CostModel::AstSize, input(), 1, &twice).unwrap();
    assert_eq!(cost, 3);
    assert_eq!(best.nodes(), input().nodes());
}

#[test]
fn depth_is_judged_by_depth() {
    let deep = Expr::parse("(f (f (f x)))").unwrap();
    let wide = vec![node("x", vec![]), node("g", vec![0, 0, 0, 0, 0])];
    let (cost, best) = settle(CostModel::AstDepth, deep, 2, &wide).unwrap();
    assert_eq!(cost, 2);
    assert_eq!(best.nodes(), &wide);
    let deep = Expr::parse("(f (f (f x)))").unwrap();
    let (cost, best) = settle(CostModel::AstSize, deep, 6, &wide).unwrap();
    assert_eq!(cost, 4);
    assert_eq!(best.term(), Expr::parse("(f (f (f x)))").unwrap().term());
}

#[test]
fn input_without_a_node_is_refused() {
    let picked = vec![node("1", vec![])];
    assert_eq!(settle(CostModel::AstSize, Expr::new(), 1, &picked).err(), Some(Error::Empty));
}

#[test]
fn graph_with_two_arities_is_refused() {
    let inserted = vec![
        ("1".to_string(), 0),
        ("0".to_string(), 0),
        ("+".to_string(), 2),
        ("+".to_string(), 1),
    ];
    let picked = vec![node("1", vec![])];
    assert_eq!(
        conclude(CostModel::AstSize, input(), &inserted, 1, &picked).err(),
        Some(Error::ArityMismatch { op: "+".to_string(), expected: 2, found: 1 })
    );
}

#[test]
fn graph_that_agrees_is_settled() {
    let inserted = vec![("1".to_string(), 0), ("0".to_string(), 0), ("+".to_string(), 2)];
    let picked = vec![node("1", vec![])];
    let (cost, best) = conclude(CostModel::AstSize, input(), &inserted, 1, &picked).unwrap();
    assert_eq!(cost, 1);
    assert_eq!(best.term(), Some(Term::leaf("1")));
}
