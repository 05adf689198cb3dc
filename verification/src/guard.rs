//! Guards of rules: predicates supplied from outside, the bindings of a
//! match that they are shown, and the decision whether a rule may fire.

use crate::engine::{
    class_nodes, find_class, first_node, graph_found, graph_nodes, id_count, node_of,
    subst_bindings, subst_get, Classes,
};
use crate::node::{tree_at, NodeView};
use crate::pattern::texts;
use crate::term::{lemma_term_view, Term, Tree};
use std::sync::Arc;
use vstd::prelude::*;

verus! {

/// What a guard is told of one pattern variable: its name without the
/// leading question mark, and one term of the class it is bound to.
#[derive(Debug, PartialEq, Eq)]
pub struct Binding {
    pub name: String,
    pub term: Term,
}

/// A binding in mathematical values.
pub struct BindingView {
    pub name: Seq<char>,
    pub term: Tree,
}

impl View for Binding {
    type V = BindingView;

    open spec fn view(&self) -> BindingView {
        BindingView { name: self.name@, term: self.term@ }
    }
}

/// Bindings in mathematical values.
pub open spec fn binding_views(bindings: Seq<Binding>) -> Seq<BindingView> {
    Seq::new(bindings.len(), |i: int| bindings[i]@)
}

/// A side condition of a rule, supplied from outside. It sees the
/// bindings of a match and nothing of the graph.
pub trait Predicate: Send + Sync {
    /// What the predicate is known to answer on these bindings. `None`,
    /// which is the default, claims nothing.
    open spec fn decided(&self, bindings: Seq<BindingView>) -> Option<bool> {
        None
    }

    /// Whether the rule may fire on a match with these bindings, or why
    /// the predicate could not tell. A failure counts as `false` and does
    /// not stop the run; to make it known is left to the predicate.
    fn test(&self, bindings: &Vec<Binding>) -> (r: Result<bool, String>)
        ensures
            self.decided(binding_views(bindings@)) matches Some(v) ==> r == Ok::<bool, String>(v),
    ;
}

/// A guard of a rule: a predicate that may be shared among rules.
pub struct Guard {
    pub predicate: Arc<dyn Predicate>,
}

/// The predicate that lets every match pass.
pub struct Always;

/// The predicate that lets no match pass.
pub struct Never;

impl Predicate for Always {
    open spec fn decided(&self, bindings: Seq<BindingView>) -> Option<bool> {
        Some(true)
    }

    fn test(&self, bindings: &Vec<Binding>) -> (r: Result<bool, String>) {
        Ok(true)
    }
}

impl Predicate for Never {
    open spec fn decided(&self, bindings: Seq<BindingView>) -> Option<bool> {
        Some(false)
    }

    fn test(&self, bindings: &Vec<Binding>) -> (r: Result<bool, String>) {
        Ok(false)
    }
}

/// What the answer of a predicate counts for: a match passes only on a
/// plain `true`; a predicate that fails counts as `false`.
pub fn verdict(outcome: &Result<bool, String>) -> (r: bool)
    ensures
        r == (*outcome == Ok::<bool, String>(true)),
{
    match outcome {
        Ok(v) => *v,
        Err(_) => false,
    }
}

/// The name of a variable without its leading question mark.
pub open spec fn bare(text: Seq<char>) -> Seq<char> {
    if text.len() > 0 && text[0] == '?' {
        text.skip(1)
    } else {
        text
    }
}

/// The name of a variable without its leading question mark.
pub fn bare_name(text: &str) -> (r: String)
    ensures
        r@ == bare(text@),
{
    let n = text.unicode_len();
    if n > 0 && text.get_char(0) == '?' {
        let rest = text.substring_char(1, n);
        rest.to_owned()
    } else {
        text.to_owned()
    }
}

/// What the bindings of a match are read from: a graph in mathematical
/// values. Its identifiers are the numbers below the length of `found`.
pub struct GraphView {
    /// At each identifier the node that was inserted under it.
    pub nodes: Seq<NodeView>,
    /// At each identifier the identifier that stands for its class.
    pub found: Seq<usize>,
    /// At each identifier the nodes of its class, in their order.
    pub classes: Seq<Seq<NodeView>>,
}

/// A graph of the engine in mathematical values.
pub open spec fn graph_view(c: Classes) -> GraphView {
    GraphView { nodes: graph_nodes(c), found: graph_found(c), classes: class_nodes(c) }
}

/// The term of the class of `id` that is read along first nodes: its
/// root is the first node of the class, and below it stand the terms that
/// are read in the same way for the classes of the children. `path` holds
/// the classes that lie between the class where the reading began and
/// this one. There is no such term where the way leads back into a class
/// of the path, where a class is empty, and where it leads deeper than
/// `fuel` nodes.
pub open spec fn first_term(g: GraphView, id: usize, path: Seq<usize>, fuel: nat) -> Option<Tree>
    decreases fuel, 0nat,
{
    if fuel == 0 || id >= g.found.len() {
        None
    } else {
        let class = g.found[id as int];
        if path.contains(class) || class >= g.classes.len() || g.classes[class as int].len() == 0 {
            None
        } else {
            let node = g.classes[class as int][0];
            match first_terms(g, node.children, path.push(class), (fuel - 1) as nat) {
                Some(kids) => Some(Tree { op: node.op, children: kids }),
                None => None,
            }
        }
    }
}

/// The terms that are read along first nodes for several classes, if
/// there is one for each.
pub open spec fn first_terms(g: GraphView, ids: Seq<usize>, path: Seq<usize>, fuel: nat) -> Option<
    Seq<Tree>,
>
    decreases fuel, 1 + ids.len(),
{
    if ids.len() == 0 {
        Some(Seq::empty())
    } else {
        match first_terms(g, ids.drop_last(), path, fuel) {
            Some(front) => match first_term(g, ids.last(), path, fuel) {
                Some(t) => Some(front.push(t)),
                None => None,
            },
            None => None,
        }
    }
}

/// Once the terms of the first `k` classes cannot all be read, those of
/// all of them cannot.
pub proof fn lemma_first_terms_prefix(
    g: GraphView,
    ids: Seq<usize>,
    k: int,
    path: Seq<usize>,
    fuel: nat,
)
    requires
        0 <= k <= ids.len(),
        first_terms(g, ids.take(k), path, fuel) is None,
    ensures
        first_terms(g, ids, path, fuel) is None,
    decreases ids.len() - k,
{
    if k < ids.len() {
        assert(ids.take(k + 1).drop_last() =~= ids.take(k));
        lemma_first_terms_prefix(g, ids, k + 1, path, fuel);
    } else {
        assert(ids.take(k) =~= ids);
    }
}

/// The one term of the class of `id` that guards are shown. It goes by
/// the class, not by the identifier: it is the term that is read along
/// first nodes from the class, where there is one; where the first nodes
/// lead in a circle, it is the term that was inserted under the
/// identifier that stands for the class. Every identifier that the graph
/// has given out has such a term; another number has none.
pub open spec fn representative(g: GraphView, id: usize) -> Option<Tree> {
    if id < g.found.len() {
        match first_term(g, id, Seq::empty(), g.found.len()) {
            Some(t) => Some(t),
            None => Some(tree_at(g.nodes, g.found[id as int] as int)),
        }
    } else {
        None
    }
}

/// The terms that are read for several classes are the terms that are
/// read for each of them.
pub proof fn lemma_first_terms_each(g: GraphView, ids: Seq<usize>, path: Seq<usize>, fuel: nat)
    requires
        first_terms(g, ids, path, fuel) is Some,
    ensures
        first_terms(g, ids, path, fuel)->0.len() == ids.len(),
        forall|j: int|
            0 <= j < ids.len() ==> first_term(g, #[trigger] ids[j], path, fuel) == Some(
                first_terms(g, ids, path, fuel)->0[j],
            ),
    decreases ids.len(),
{
    if ids.len() > 0 {
        lemma_first_terms_each(g, ids.drop_last(), path, fuel);
        assert forall|j: int| 0 <= j < ids.len() implies first_term(
            g,
            #[trigger] ids[j],
            path,
            fuel,
        ) == Some(first_terms(g, ids, path, fuel)->0[j]) by {
            if j < ids.len() - 1 {
                assert(ids.drop_last()[j] == ids[j]);
            }
        }
    }
}

/// A term that is read along first nodes is read again, and is the same,
/// on a path that holds no other classes and with no less fuel.
pub proof fn lemma_first_term_again(
    g: GraphView,
    id: usize,
    path: Seq<usize>,
    fuel: nat,
    shorter: Seq<usize>,
    more: nat,
)
    requires
        first_term(g, id, path, fuel) is Some,
        forall|x: usize| shorter.contains(x) ==> path.contains(x),
        fuel <= more,
    ensures
        first_term(g, id, shorter, more) == first_term(g, id, path, fuel),
    decreases fuel, 0nat,
{
    let class = g.found[id as int];
    let node = g.classes[class as int][0];
    assert forall|x: usize| shorter.push(class).contains(x) implies path.push(class).contains(
        x,
    ) by {
        let k = choose|k: int| 0 <= k < shorter.push(class).len() && shorter.push(class)[k] == x;
        if k < shorter.len() {
            assert(shorter[k] == x);
            assert(shorter.contains(x));
            let h = choose|h: int| 0 <= h < path.len() && path[h] == x;
            assert(path.push(class)[h] == x);
        } else {
            assert(path.push(class)[path.len() as int] == x);
        }
    }
    lemma_first_terms_again(
        g,
        node.children,
        path.push(class),
        (fuel - 1) as nat,
        shorter.push(class),
        (more - 1) as nat,
    );
}

/// As `lemma_first_term_again`, for the terms of several classes.
pub proof fn lemma_first_terms_again(
    g: GraphView,
    ids: Seq<usize>,
    path: Seq<usize>,
    fuel: nat,
    shorter: Seq<usize>,
    more: nat,
)
    requires
        first_terms(g, ids, path, fuel) is Some,
        forall|x: usize| shorter.contains(x) ==> path.contains(x),
        fuel <= more,
    ensures
        first_terms(g, ids, shorter, more) == first_terms(g, ids, path, fuel),
    decreases fuel, 1 + ids.len(),
{
    if ids.len() > 0 {
        lemma_first_terms_again(g, ids.drop_last(), path, fuel, shorter, more);
        lemma_first_term_again(g, ids.last(), path, fuel, shorter, more);
    }
}

/// Where the first nodes lead from the class of `id` to a term without
/// coming back into a class they have left, that term is the
/// representative: its root is the first node of the class, and below it
/// stand the representatives of the children of that node.
pub proof fn law_representative_follows_first_nodes(g: GraphView, id: usize)
    requires
        id < g.found.len(),
        first_term(g, id, Seq::empty(), g.found.len()) is Some,
    ensures
        representative(g, id) matches Some(t) && ({
            let node = g.classes[g.found[id as int] as int][0];
            &&& t.op == node.op
            &&& t.children.len() == node.children.len()
            &&& forall|j: int|
                0 <= j < node.children.len() ==> representative(g, #[trigger] node.children[j])
                    == Some(t.children[j])
        }),
{
    let class = g.found[id as int];
    let node = g.classes[class as int][0];
    let path = Seq::<usize>::empty().push(class);
    let fuel = (g.found.len() - 1) as nat;
    lemma_first_terms_each(g, node.children, path, fuel);
    assert forall|j: int| 0 <= j < node.children.len() implies representative(
        g,
        #[trigger] node.children[j],
    ) == Some(first_terms(g, node.children, path, fuel)->0[j]) by {
        lemma_first_term_again(
            g,
            node.children[j],
            path,
            fuel,
            Seq::empty(),
            g.found.len() as nat,
        );
    }
}

/// Two identifiers of one class have one representative.
pub proof fn law_one_class_one_term(g: GraphView, a: usize, b: usize)
    requires
        a < g.found.len(),
        b < g.found.len(),
        g.found[a as int] == g.found[b as int],
    ensures
        representative(g, a) == representative(g, b),
{
}

/// Whether a class lies on the path.
fn on_path(path: &Vec<usize>, class: usize) -> (r: bool)
    ensures
        r == path@.contains(class),
{
    let mut i: usize = 0;
    while i < path.len()
        invariant
            i <= path@.len(),
            forall|k: int| 0 <= k < i ==> path@[k] != class,
        decreases path@.len() - i,
    {
        if path[i] == class {
            return true;
        }
        i += 1;
    }
    false
}

/// The term that is read along first nodes: see `first_term`.
fn read_first(classes: &Classes, id: usize, path: &Vec<usize>, fuel: usize) -> (r: Option<Term>)
    requires
        id < graph_found(*classes).len(),
        graph_found(*classes).len() == class_nodes(*classes).len(),
    ensures
        match r {
            Some(t) => first_term(graph_view(*classes), id, path@, fuel as nat) == Some(t@),
            None => first_term(graph_view(*classes), id, path@, fuel as nat) is None,
        },
    decreases fuel,
{
    if fuel == 0 {
        return None;
    }
    let class = find_class(classes, id);
    if on_path(path, class) {
        return None;
    }
    let node = match first_node(classes, class) {
        Some(node) => node,
        None => {
            return None;
        },
    };
    let mut deeper = path.clone();
    deeper.push(class);
    let ghost g = graph_view(*classes);
    let ghost ids = node.children@;
    assert(deeper@ =~= path@.push(class));
    let mut kids: Vec<Term> = Vec::new();
    let mut j: usize = 0;
    while j < node.children.len()
        invariant
            j <= node.children@.len(),
            fuel > 0,
            g == graph_view(*classes),
            g.found.len() == g.classes.len(),
            id < g.found.len(),
            class == g.found[id as int],
            !path@.contains(class),
            deeper@ == path@.push(class),
            g.classes[class as int].len() > 0,
            node@ == g.classes[class as int][0],
            ids == node.children@,
            forall|k: int| 0 <= k < ids.len() ==> ids[k] < g.found.len(),
            kids@.len() == j,
            first_terms(g, ids.take(j as int), deeper@, (fuel - 1) as nat) matches Some(ts)
                && ts.len() == j && (forall|k: int| 0 <= k < j ==> (#[trigger] kids@[k])@ == ts[k]),
        decreases node.children@.len() - j,
    {
        proof {
            assert(ids.take(j + 1).drop_last() =~= ids.take(j as int));
        }
        match read_first(classes, node.children[j], &deeper, fuel - 1) {
            Some(kid) => {
                kids.push(kid);
            },
            None => {
                proof {
                    lemma_first_terms_prefix(g, ids, j + 1, deeper@, (fuel - 1) as nat);
                }
                return None;
            },
        }
        j += 1;
    }
    let t = Term { op: node.op, children: kids };
    proof {
        assert(ids.take(j as int) =~= ids);
        lemma_term_view(t);
        let ts = first_terms(g, ids, deeper@, (fuel - 1) as nat)->0;
        assert(t@.children =~= ts);
    }
    Some(t)
}

/// The term that was inserted under an identifier of the graph.
fn inserted_term(classes: &Classes, id: usize) -> (t: Term)
    requires
        id < graph_nodes(*classes).len(),
    ensures
        t@ == tree_at(graph_nodes(*classes), id as int),
    decreases id,
{
    let node = node_of(classes, id);
    let ghost nodes = graph_nodes(*classes);
    let mut kids: Vec<Term> = Vec::new();
    let mut j: usize = 0;
    while j < node.children.len()
        invariant
            j <= node.children@.len(),
            nodes == graph_nodes(*classes),
            id < nodes.len(),
            node@ == nodes[id as int],
            forall|k: int| 0 <= k < node.children@.len() ==> node.children@[k] < id,
            kids@.len() == j,
            forall|k: int|
                0 <= k < j ==> (#[trigger] kids@[k])@ == tree_at(nodes, node.children@[k] as int),
        decreases node.children@.len() - j,
    {
        let kid = inserted_term(classes, node.children[j]);
        kids.push(kid);
        j += 1;
    }
    let t = Term { op: node.op, children: kids };
    proof {
        lemma_term_view(t);
        assert(t@.children =~= tree_at(nodes, id as int).children);
    }
    t
}

/// One term of the class of `id`: see `representative`.
pub fn represent(classes: &Classes, id: usize) -> (r: Option<Term>)
    ensures
        match r {
            Some(t) => representative(graph_view(*classes), id) == Some(t@),
            None => representative(graph_view(*classes), id) is None,
        },
{
    let n = id_count(classes);
    if id >= n {
        return None;
    }
    let path: Vec<usize> = Vec::new();
    match read_first(classes, id, &path, n) {
        Some(t) => Some(t),
        None => {
            let class = find_class(classes, id);
            Some(inserted_term(classes, class))
        },
    }
}

/// The bindings that a guard is shown for a match: one for each of the
/// variables that the match binds to a class of the graph, in the order
/// of the variables.
pub open spec fn bindings_for(
    texts: Seq<Seq<char>>,
    subst: Map<Seq<char>, usize>,
    graph: GraphView,
) -> Seq<BindingView>
    decreases texts.len(),
{
    if texts.len() == 0 {
        Seq::empty()
    } else {
        let front = bindings_for(texts.drop_last(), subst, graph);
        if subst.contains_key(texts.last()) {
            match representative(graph, subst[texts.last()]) {
                Some(term) => front.push(BindingView { name: bare(texts.last()), term }),
                None => front,
            }
        } else {
            front
        }
    }
}

/// The bindings of a match: see `bindings_for`.
pub fn bindings(vars: &Vec<String>, subst: &egg::Subst, classes: &Classes) -> (r: Vec<Binding>)
    ensures
        binding_views(r@) == bindings_for(
            texts(vars@),
            subst_bindings(*subst),
            graph_view(*classes),
        ),
{
    let ghost names = texts(vars@);
    let ghost bound = subst_bindings(*subst);
    let ghost nodes = graph_view(*classes);
    let mut out: Vec<Binding> = Vec::new();
    let mut i: usize = 0;
    while i < vars.len()
        invariant
            i <= vars@.len(),
            names == texts(vars@),
            bound == subst_bindings(*subst),
            nodes == graph_view(*classes),
            binding_views(out@) == bindings_for(names.take(i as int), bound, nodes),
        decreases vars@.len() - i,
    {
        let text = &vars[i];
        let ghost before = binding_views(out@);
        proof {
            assert(names.take(i + 1).drop_last() =~= names.take(i as int));
        }
        match subst_get(subst, text.as_str()) {
            Some(id) => match represent(classes, id) {
                Some(term) => {
                    let binding = Binding { name: bare_name(text.as_str()), term };
                    out.push(binding);
                    proof {
                        assert(binding_views(out@) =~= before.push(binding@));
                    }
                },
                None => {},
            },
            None => {},
        }
        i += 1;
    }
    proof {
        assert(names.take(i as int) =~= names);
    }
    out
}

/// Every guard is known to let these bindings pass.
pub open spec fn all_accept(guards: Seq<Guard>, shown: Seq<BindingView>) -> bool {
    forall|i: int|
        0 <= i < guards.len() ==> (#[trigger] guards[i]).predicate.decided(shown) == Some(true)
}

/// Some guard is known to hold these bindings back.
pub open spec fn some_reject(guards: Seq<Guard>, shown: Seq<BindingView>) -> bool {
    exists|i: int|
        0 <= i < guards.len() && (#[trigger] guards[i]).predicate.decided(shown) == Some(false)
}

/// Every answer is a plain `true`. An answer of `false` and the failure
/// of a predicate both count against the match.
pub open spec fn passing(answers: Seq<Result<bool, String>>) -> bool {
    forall|i: int| 0 <= i < answers.len() ==> #[trigger] answers[i] == Ok::<bool, String>(true)
}

/// Whether a match passes on these answers of its guards: see `passing`.
pub fn passes(answers: &Vec<Result<bool, String>>) -> (r: bool)
    ensures
        r == passing(answers@),
{
    let mut i: usize = 0;
    while i < answers.len()
        invariant
            i <= answers@.len(),
            forall|k: int| 0 <= k < i ==> #[trigger] answers@[k] == Ok::<bool, String>(true),
        decreases answers@.len() - i,
    {
        if !verdict(&answers[i]) {
            return false;
        }
        i += 1;
    }
    true
}

/// The answers are those of the guards, asked from the last guard to the
/// first with the bindings `shown`: each answer is what its guard is
/// known to answer, where that is known; a further guard was asked only
/// after a plain `true`; and the asking stopped before the first guard
/// only at an answer that is no plain `true`.
pub open spec fn asked(
    guards: Seq<Guard>,
    shown: Seq<BindingView>,
    answers: Seq<Result<bool, String>>,
) -> bool {
    &&& answers.len() <= guards.len()
    &&& forall|k: int|
        0 <= k < answers.len() ==> (guards[guards.len() - 1 - k].predicate.decided(shown)
            matches Some(v) ==> #[trigger] answers[k] == Ok::<bool, String>(v))
    &&& forall|k: int|
        0 <= k < answers.len() - 1 ==> #[trigger] answers[k] == Ok::<bool, String>(true)
    &&& answers.len() < guards.len() ==> answers.len() > 0 && answers.last() != Ok::<bool, String>(
        true,
    )
}

/// Whether a rule under these guards may fire on a match. The guards are
/// asked from the last to the first, each with the bindings of the match,
/// until one of them does not answer with a plain `true`; the rule may
/// fire if the answers pass. So a rule without guards always may; a
/// guard that is known to refuse holds the rule back, as does one that
/// fails; guards that are all known to accept let it fire.
pub fn permits(
    guards: &Vec<Guard>,
    vars: &Vec<String>,
    classes: &Classes,
    subst: &egg::Subst,
) -> (r: bool)
    ensures
        exists|answers: Seq<Result<bool, String>>|
            r == #[trigger] passing(answers) && asked(
                guards@,
                bindings_for(texts(vars@), subst_bindings(*subst), graph_view(*classes)),
                answers,
            ),
        guards@.len() == 0 ==> r,
        all_accept(
            guards@,
            bindings_for(texts(vars@), subst_bindings(*subst), graph_view(*classes)),
        ) ==> r,
        some_reject(
            guards@,
            bindings_for(texts(vars@), subst_bindings(*subst), graph_view(*classes)),
        ) ==> !r,
{
    let ghost seen = bindings_for(texts(vars@), subst_bindings(*subst), graph_view(*classes));
    let mut answers: Vec<Result<bool, String>> = Vec::new();
    if guards.len() == 0 {
        let r = passes(&answers);
        assert(asked(guards@, seen, answers@));
        return r;
    }
    let shown = bindings(vars, subst, classes);
    let mut i: usize = guards.len();
    while i > 0
        invariant
            i <= guards@.len(),
            seen == binding_views(shown@),
            seen == bindings_for(texts(vars@), subst_bindings(*subst), graph_view(*classes)),
            answers@.len() == guards@.len() - i,
            forall|k: int|
                0 <= k < answers@.len() ==> #[trigger] answers@[k] == Ok::<bool, String>(true),
            forall|k: int|
                i <= k < guards@.len() ==> (#[trigger] guards@[k]).predicate.decided(seen)
                    != Some(false),
        decreases i,
    {
        i -= 1;
        let outcome = guards[i].predicate.test(&shown);
        let stop = !verdict(&outcome);
        answers.push(outcome);
        if stop {
            let r = passes(&answers);
            proof {
                assert(!passing(answers@)) by {
                    assert(answers@[answers@.len() - 1] != Ok::<bool, String>(true));
                }
                assert(asked(guards@, seen, answers@));
            }
            return r;
        }
    }
    let r = passes(&answers);
    proof {
        assert(asked(guards@, seen, answers@));
    }
    r
}

} // verus!
