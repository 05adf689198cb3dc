//! What the library takes from `egg`: its types, and one function of the
//! library around each function of `egg` that is called. The contracts in
//! this file say what `egg`'s source shows; they are believed, not proved,
//! and everything else in the library is proved from them.

use crate::guard::{permits, Guard};
use crate::node::{ordered, shapes, Node, NodeView, MAX_NODES};
use crate::pattern::{
    pattern_shapes, refusal, texts, variables, PatternNode, PatternNodeView,
};
use std::sync::Arc;
use vstd::prelude::*;

verus! {

/// `egg::SymbolLang`: a node whose operator is any symbol.
#[verifier::external_type_specification]
#[verifier::external_body]
pub struct ExSymbolLang(egg::SymbolLang);

/// `egg::RecExpr`: an expression as a list of nodes.
#[verifier::external_type_specification]
#[verifier::external_body]
#[verifier::reject_recursive_types(L)]
pub struct ExRecExpr<L>(egg::RecExpr<L>);

/// `egg::Pattern`: an expression with variables, ready to be searched for
/// or to be put in.
#[verifier::external_type_specification]
#[verifier::external_body]
#[verifier::reject_recursive_types(L)]
pub struct ExPattern<L>(egg::Pattern<L>);

/// `egg::Rewrite`: a named rule as the engine runs it.
#[verifier::external_type_specification]
#[verifier::external_body]
#[verifier::reject_recursive_types(L)]
#[verifier::reject_recursive_types(N)]
pub struct ExRewrite<L, N>(egg::Rewrite<L, N>);

/// `egg::Subst`: the classes to which one match binds the variables.
#[verifier::external_type_specification]
#[verifier::external_body]
pub struct ExSubst(egg::Subst);

/// A read-only look at the classes of a graph while it is being saturated.
/// It holds `egg::EGraph<SymbolLang, ()>` by reference; nothing of the
/// graph can be changed through it.
#[verifier::external_body]
pub struct Classes<'a> {
    graph: &'a egg::EGraph<egg::SymbolLang, ()>,
}

/// A graph after saturation, together with the class of the expression it
/// was started from. It holds an `egg::Runner<SymbolLang, ()>` that has run.
#[verifier::external_body]
pub struct Saturation {
    runner: egg::Runner<egg::SymbolLang, ()>,
}

/// The nodes that an `egg::RecExpr` holds, in order.
pub uninterp spec fn recexpr_nodes(e: egg::RecExpr<egg::SymbolLang>) -> Seq<NodeView>;

/// What egg reads from the text of an expression: its nodes, children
/// before parents, or the complaint of the reader.
pub uninterp spec fn parsed_expression(text: Seq<char>) -> Result<Seq<NodeView>, Seq<char>>;

/// The nodes that an `egg::Pattern` holds, in order.
pub uninterp spec fn pattern_nodes(p: egg::Pattern<egg::SymbolLang>) -> Seq<PatternNodeView>;

/// What egg reads from the text of a pattern: its nodes, children before
/// parents and no node twice, or the complaint of the reader.
pub uninterp spec fn parsed_pattern(text: Seq<char>) -> Result<Seq<PatternNodeView>, Seq<char>>;

/// The classes to which a substitution binds variables, by the text of
/// the variable, which begins with a question mark. Two variables that
/// egg reads from patterns have two texts.
pub uninterp spec fn subst_bindings(s: egg::Subst) -> Map<Seq<char>, usize>;

/// The nodes of a graph by identifier: at each identifier that the graph
/// has given out, the node that was inserted under it. It is a member of
/// the class of that identifier, and its children are identifiers that
/// were given out before.
pub uninterp spec fn graph_nodes(c: Classes) -> Seq<NodeView>;

/// The classes of a graph by identifier: at each identifier that the
/// graph has given out, the identifier that stands for its class. Two
/// identifiers are in one class exactly if the same one stands for both.
pub uninterp spec fn graph_found(c: Classes) -> Seq<usize>;

/// The nodes of the classes of a graph by identifier: at each identifier
/// that the graph has given out, the nodes that its class holds, in the
/// order in which the class holds them.
pub uninterp spec fn class_nodes(c: Classes) -> Seq<Seq<NodeView>>;

/// What a rewrite of the engine was made of.
pub struct RewriteView {
    /// Its name.
    pub name: Seq<char>,
    /// The nodes of the pattern that it searches for.
    pub searcher: Seq<PatternNodeView>,
    /// The nodes of the pattern that it puts into the class of a match.
    pub applier: Seq<PatternNodeView>,
    /// The guards that it asks at each match, through `permits` and with
    /// the variables of the searched pattern, before it puts anything in;
    /// none where it was made without a condition.
    pub guards: Seq<Guard>,
}

/// What an `egg::Rewrite` was made of, where it was made of two patterns,
/// with or without a condition.
pub uninterp spec fn rewrite_view(r: egg::Rewrite<egg::SymbolLang, ()>) -> RewriteView;

/// Whether a graph keeps, for each of its unions, the rule that led to it.
pub uninterp spec fn explains(s: Saturation) -> bool;

/// The class of a graph that holds an expression, if one does.
pub uninterp spec fn expr_class(s: Saturation, e: Seq<NodeView>) -> Option<usize>;

/// `Arc::clone`: one more pointer to the same value.
#[verifier::external_body]
pub(crate) fn share<T>(a: &Arc<T>) -> (r: Arc<T>)
    ensures
        r == *a,
{
    Arc::clone(a)
}

/// `Arc::clone` on the predicate of a guard: the same guard once more.
#[verifier::external_body]
pub(crate) fn share_guard(g: &Guard) -> (r: Guard)
    ensures
        r == *g,
{
    Guard { predicate: Arc::clone(&g.predicate) }
}

/// `RecExpr::default`: an expression without nodes.
#[verifier::external_body]
pub(crate) fn recexpr_new() -> (e: egg::RecExpr<egg::SymbolLang>)
    ensures
        recexpr_nodes(e) == Seq::<NodeView>::empty(),
{
    egg::RecExpr::default()
}

/// `RecExpr::add` of a `SymbolLang` node: the node is put behind the
/// others. egg asks that its children stand in the expression already;
/// identifiers are 32 bits wide, so the expression may not be full.
#[verifier::external_body]
pub(crate) fn recexpr_add(e: &mut egg::RecExpr<egg::SymbolLang>, op: &str, children: &Vec<usize>)
    requires
        recexpr_nodes(*old(e)).len() < MAX_NODES,
        forall|j: int| 0 <= j < children@.len() ==> children@[j] < recexpr_nodes(*old(e)).len(),
    ensures
        recexpr_nodes(*final(e)) == recexpr_nodes(*old(e)).push(
            NodeView { op: op@, children: children@ },
        ),
{
    e.add(egg::SymbolLang::new(op, children.iter().map(|c| egg::Id::from(*c)).collect()));
}

/// `<RecExpr<SymbolLang> as FromStr>::from_str`: the nodes that the text
/// of an expression stands for, or the complaint as text.
#[verifier::external_body]
pub(crate) fn parse_expression(text: &str) -> (r: Result<Vec<Node>, String>)
    ensures
        match r {
            Ok(nodes) => parsed_expression(text@) == Ok::<Seq<NodeView>, Seq<char>>(
                shapes(nodes@),
            ),
            Err(m) => parsed_expression(text@) == Err::<Seq<NodeView>, Seq<char>>(m@),
        },
{
    match text.parse::<egg::RecExpr<egg::SymbolLang>>() {
        Ok(e) => Ok(e.as_ref().iter().map(|n| Node {
            op: n.op.to_string(),
            children: n.children.iter().map(|c| usize::from(*c)).collect(),
        }).collect()),
        Err(e) => Err(e.to_string()),
    }
}

/// `<Pattern<SymbolLang> as FromStr>::from_str`: the pattern that a text
/// stands for, or the complaint as text.
#[verifier::external_body]
pub(crate) fn parse_pattern(text: &str) -> (r: Result<egg::Pattern<egg::SymbolLang>, String>)
    ensures
        match r {
            Ok(p) => parsed_pattern(text@) == Ok::<Seq<PatternNodeView>, Seq<char>>(
                pattern_nodes(p),
            ),
            Err(m) => parsed_pattern(text@) == Err::<Seq<PatternNodeView>, Seq<char>>(m@),
        },
{
    text.parse::<egg::Pattern<egg::SymbolLang>>().map_err(|e| e.to_string())
}

/// `Pattern::ast`: the nodes of a pattern.
#[verifier::external_body]
pub(crate) fn pattern_ast(p: &egg::Pattern<egg::SymbolLang>) -> (r: Vec<PatternNode>)
    ensures
        pattern_shapes(r@) == pattern_nodes(*p),
{
    p.ast.as_ref().iter().map(|n| match n {
        egg::ENodeOrVar::Var(v) => PatternNode::Var(v.to_string()),
        egg::ENodeOrVar::ENode(e) => PatternNode::Op(Node {
            op: e.op.to_string(),
            children: e.children.iter().map(|c| usize::from(*c)).collect(),
        }),
    }).collect()
}

/// `Var::from_str` and `Subst::get`: the class to which the variable of
/// this text is bound, if the text is that of a variable and the variable
/// is bound.
#[verifier::external_body]
pub(crate) fn subst_get(s: &egg::Subst, text: &str) -> (r: Option<usize>)
    ensures
        r == if subst_bindings(*s).contains_key(text@) {
            Some(subst_bindings(*s)[text@])
        } else {
            None
        },
{
    text.parse::<egg::Var>().ok().and_then(|v| s.get(v)).map(|id| usize::from(*id))
}

/// `Rewrite::new` on two patterns: egg refuses the rule, with a
/// complaint, exactly where the right-hand side uses a variable that the
/// left-hand side does not bind. Otherwise the rewrite holds the name and
/// copies of the two patterns, and no condition.
#[verifier::external_body]
pub(crate) fn make_rewrite(
    name: &str,
    searcher: &Arc<egg::Pattern<egg::SymbolLang>>,
    applier: &Arc<egg::Pattern<egg::SymbolLang>>,
) -> (r: Result<egg::Rewrite<egg::SymbolLang, ()>, String>)
    ensures
        match r {
            Ok(made) => {
                &&& refusal(
                    name@,
                    variables(pattern_nodes(**searcher)),
                    variables(pattern_nodes(**applier)),
                ) is None
                &&& rewrite_view(made) == (RewriteView {
                    name: name@,
                    searcher: pattern_nodes(**searcher),
                    applier: pattern_nodes(**applier),
                    guards: Seq::empty(),
                })
            },
            Err(m) => refusal(
                name@,
                variables(pattern_nodes(**searcher)),
                variables(pattern_nodes(**applier)),
            ) == Some(m@),
        },
{
    egg::Rewrite::new(name, egg::Pattern::clone(searcher), egg::Pattern::clone(applier))
}

/// `Rewrite::new` on a pattern and an `egg::ConditionalApplier`, whose
/// condition asks `permits` with the given guards and variables, which
/// are to be the variables of the searched pattern. egg applies the
/// right-hand side to a match only where the condition answers `true`,
/// and refuses the rule as it refuses the rule without the condition.
/// Otherwise the rewrite holds the name, copies of the two patterns, and
/// the condition with the guards.
#[verifier::external_body]
pub(crate) fn make_guarded_rewrite(
    name: &str,
    searcher: &Arc<egg::Pattern<egg::SymbolLang>>,
    applier: &Arc<egg::Pattern<egg::SymbolLang>>,
    guards: Vec<Guard>,
    vars: Vec<String>,
) -> (r: Result<egg::Rewrite<egg::SymbolLang, ()>, String>)
    requires
        texts(vars@) == variables(pattern_nodes(**searcher)),
    ensures
        match r {
            Ok(made) => {
                &&& refusal(
                    name@,
                    variables(pattern_nodes(**searcher)),
                    variables(pattern_nodes(**applier)),
                ) is None
                &&& rewrite_view(made) == (RewriteView {
                    name: name@,
                    searcher: pattern_nodes(**searcher),
                    applier: pattern_nodes(**applier),
                    guards: guards@,
                })
            },
            Err(m) => refusal(
                name@,
                variables(pattern_nodes(**searcher)),
                variables(pattern_nodes(**applier)),
            ) == Some(m@),
        },
{
    let condition = move |graph: &mut egg::EGraph<egg::SymbolLang, ()>,
                          _: egg::Id,
                          subst: &egg::Subst| permits(&guards, &vars, &Classes { graph }, subst);
    let applier = egg::ConditionalApplier { condition, applier: egg::Pattern::clone(applier) };
    egg::Rewrite::new(name, egg::Pattern::clone(searcher), applier)
}

/// `EGraph::nodes().len()`: the number of identifiers that the graph has
/// given out; they are the numbers below it.
#[verifier::external_body]
pub(crate) fn id_count(c: &Classes) -> (n: usize)
    ensures
        n == graph_nodes(*c).len(),
        n == graph_found(*c).len(),
        n == class_nodes(*c).len(),
{
    c.graph.nodes().len()
}

/// `EGraph::find`: the identifier that stands for the class of an
/// identifier; it is one that the graph has given out.
#[verifier::external_body]
pub(crate) fn find_class(c: &Classes, id: usize) -> (r: usize)
    requires
        id < graph_found(*c).len(),
    ensures
        r == graph_found(*c)[id as int],
        r < graph_found(*c).len(),
{
    usize::from(c.graph.find(egg::Id::from(id)))
}

/// `EGraph`'s `Index<Id>` and the first of `EClass::nodes`: the first
/// node of the class of an identifier, if the class has one. Its children
/// are identifiers that the graph has given out.
#[verifier::external_body]
pub(crate) fn first_node(c: &Classes, id: usize) -> (r: Option<Node>)
    requires
        id < class_nodes(*c).len(),
    ensures
        match r {
            Some(n) => {
                &&& class_nodes(*c)[id as int].len() > 0
                &&& n@ == class_nodes(*c)[id as int][0]
                &&& forall|j: int|
                    0 <= j < n.children@.len() ==> n.children@[j] < class_nodes(*c).len()
            },
            None => class_nodes(*c)[id as int].len() == 0,
        },
{
    c.graph[egg::Id::from(id)].nodes.first().map(|n| Node {
        op: n.op.to_string(),
        children: n.children.iter().map(|c| usize::from(*c)).collect(),
    })
}

/// `EGraph::id_to_node`: the node that was inserted under an identifier.
/// egg makes a node only of children that the graph holds already, and
/// gives it the next identifier, so the children are below it.
#[verifier::external_body]
pub(crate) fn node_of(c: &Classes, id: usize) -> (n: Node)
    requires
        id < graph_nodes(*c).len(),
    ensures
        n@ == graph_nodes(*c)[id as int],
        forall|j: int| 0 <= j < n.children@.len() ==> n.children@[j] < id,
{
    let node = c.graph.id_to_node(egg::Id::from(id));
    Node {
        op: node.op.to_string(),
        children: node.children.iter().map(|c| usize::from(*c)).collect(),
    }
}

/// `Runner::default().with_expr(..).run(..)`: saturates the graph of an
/// expression with the rules, within egg's default limits on passes,
/// nodes and time. egg asks that the expression has a node and that
/// children stand before their parents.
#[verifier::external_body]
pub(crate) fn saturate(
    expr: &egg::RecExpr<egg::SymbolLang>,
    rules: &Vec<Arc<egg::Rewrite<egg::SymbolLang, ()>>>,
) -> (s: Saturation)
    requires
        recexpr_nodes(*expr).len() > 0,
        ordered(recexpr_nodes(*expr)),
{
    let runner = egg::Runner::default().with_expr(expr).run(rules.iter().map(|r| &**r));
    Saturation { runner }
}

/// `Runner::default().with_explanations_enabled().with_expr(..).run(..)`:
/// as `saturate`, in a graph that keeps for each union the rule that led
/// to it. Such a graph finds a rule again by its name, so egg asks that
/// no two rules have one name.
#[verifier::external_body]
pub(crate) fn saturate_explained(
    expr: &egg::RecExpr<egg::SymbolLang>,
    rules: &Vec<Arc<egg::Rewrite<egg::SymbolLang, ()>>>,
) -> (s: Saturation)
    requires
        recexpr_nodes(*expr).len() > 0,
        ordered(recexpr_nodes(*expr)),
        forall|i: int, j: int|
            0 <= i < j < rules@.len() ==> rewrite_view(*rules@[i]).name != rewrite_view(
                *rules@[j],
            ).name,
    ensures
        explains(s),
{
    let runner = egg::Runner::default().with_explanations_enabled().with_expr(expr);
    Saturation { runner: runner.run(rules.iter().map(|r| &**r)) }
}

/// `EGraph::lookup_expr`: the class that holds an expression, if one
/// does. egg asks that children stand before their parents.
#[verifier::external_body]
pub(crate) fn class_of(s: &Saturation, e: &egg::RecExpr<egg::SymbolLang>) -> (r: Option<usize>)
    requires
        ordered(recexpr_nodes(*e)),
    ensures
        r == expr_class(*s, recexpr_nodes(*e)),
{
    s.runner.egraph.lookup_expr(e).map(|id| usize::from(id))
}

/// `Runner::explain_equivalence` and `Explanation::get_flat_strings`: the
/// links of a derivation that leads from one expression to another, each
/// as text. egg asks that the graph keeps the rules of its unions and
/// that one class holds both expressions. Nothing is believed of what
/// comes back.
#[verifier::external_body]
pub(crate) fn derivation(
    s: &mut Saturation,
    from: &egg::RecExpr<egg::SymbolLang>,
    to: &egg::RecExpr<egg::SymbolLang>,
) -> (r: Vec<String>)
    requires
        explains(*old(s)),
        ordered(recexpr_nodes(*from)),
        ordered(recexpr_nodes(*to)),
        expr_class(*old(s), recexpr_nodes(*from)) is Some,
        expr_class(*old(s), recexpr_nodes(*from)) == expr_class(*old(s), recexpr_nodes(*to)),
{
    let mut explanation = s.runner.explain_equivalence(from, to);
    explanation.get_flat_strings()
}

/// `EGraph::nodes`: the operator and the child count of every node that
/// was inserted into the graph, in the order of insertion.
#[verifier::external_body]
pub(crate) fn inserted_usages(s: &Saturation) -> (r: Vec<(String, usize)>) {
    s.runner.egraph.nodes().iter().map(|n| (n.op.to_string(), n.children.len())).collect()
}

/// `Extractor::new` with `AstSize` and `find_best` on the class of the
/// expression: the cost that egg reports and the expression it picks.
#[verifier::external_body]
pub(crate) fn best_by_size(s: &Saturation) -> (r: (usize, Vec<Node>)) {
    let extractor = egg::Extractor::new(&s.runner.egraph, egg::AstSize);
    let (cost, best) = extractor.find_best(s.runner.roots[0]);
    (cost, best.as_ref().iter().map(|n| Node {
        op: n.op.to_string(),
        children: n.children.iter().map(|c| usize::from(*c)).collect(),
    }).collect())
}

/// `Extractor::new` with `AstDepth` and `find_best` on the class of the
/// expression: the cost that egg reports and the expression it picks.
#[verifier::external_body]
pub(crate) fn best_by_depth(s: &Saturation) -> (r: (usize, Vec<Node>)) {
    let extractor = egg::Extractor::new(&s.runner.egraph, egg::AstDepth);
    let (cost, best) = extractor.find_best(s.runner.roots[0]);
    (cost, best.as_ref().iter().map(|n| Node {
        op: n.op.to_string(),
        children: n.children.iter().map(|c| usize::from(*c)).collect(),
    }).collect())
}

} // verus!
