//! Derivations as the engine writes them down: chains of expressions in
//! which each arises from the one before by one use of a rule, at a place
//! that a mark shows. The engine can be asked for the derivation that
//! leads from the input to what it picked; what it answers is judged
//! here, so that the result of a run is proved equal to the input under
//! the rules.

use crate::engine::{parse_expression, parsed_expression};
use crate::equation::{chained, equal_under, instance, rewrites, step, whole, Equation};
use crate::node::{ordered, shapes, tree_at, Node, NodeView};
use crate::pattern::{pattern_shapes, texts, PatternNode, PatternNodeView};
use crate::rule::{equation_of, equations, rule_views, Rule, RuleView};
use crate::table::{first_entry, lemma_first_entry, Entry, Table};
use crate::term::Tree;
use vstd::prelude::*;

verus! {

/// A node that marks the place of a rewrite in one link of a derivation:
/// its first child names the rule, its second child is what was rewritten.
pub open spec fn is_mark(n: NodeView) -> bool {
    (n.op == "Rewrite=>"@ || n.op == "Rewrite<="@) && n.children.len() == 2
}

/// The tree that stands at position `i` once the marks are left out.
pub open spec fn plain_at(nodes: Seq<NodeView>, i: int) -> Tree
    decreases i,
{
    if 0 <= i < nodes.len() {
        if is_mark(nodes[i]) {
            if nodes[i].children[1] < i {
                plain_at(nodes, nodes[i].children[1] as int)
            } else {
                arbitrary()
            }
        } else {
            Tree {
                op: nodes[i].op,
                children: Seq::new(
                    nodes[i].children.len(),
                    |j: int|
                        if 0 <= j < nodes[i].children.len() && nodes[i].children[j] < i {
                            plain_at(nodes, nodes[i].children[j] as int)
                        } else {
                            arbitrary()
                        },
                ),
            }
        }
    } else {
        arbitrary()
    }
}

/// No node is a mark.
pub open spec fn unmarked(nodes: Seq<NodeView>) -> bool {
    forall|i: int| 0 <= i < nodes.len() ==> !is_mark(#[trigger] nodes[i])
}

/// Where there are no marks, leaving them out changes nothing.
pub proof fn lemma_plain_is_tree(nodes: Seq<NodeView>, i: int)
    requires
        unmarked(nodes),
        0 <= i < nodes.len(),
    ensures
        plain_at(nodes, i) == tree_at(nodes, i),
    decreases i,
{
    let cs = nodes[i].children;
    assert forall|j: int| 0 <= j < cs.len() && cs[j] < i implies plain_at(nodes, cs[j] as int)
        == tree_at(nodes, cs[j] as int) by {
        lemma_plain_is_tree(nodes, cs[j] as int);
    }
    assert(plain_at(nodes, i).children =~= tree_at(nodes, i).children);
}

/// The position at which the tree at `i` begins once marks are left out.
pub open spec fn unmark(nodes: Seq<NodeView>, i: int) -> int
    decreases i,
{
    if 0 <= i < nodes.len() && is_mark(nodes[i]) && nodes[i].children[1] < i {
        unmark(nodes, nodes[i].children[1] as int)
    } else {
        i
    }
}

/// Where marks end, the tree that stands there is the tree that stood
/// at the mark, and no mark stands there.
pub proof fn lemma_unmark(nodes: Seq<NodeView>, i: int)
    requires
        ordered(nodes),
        0 <= i < nodes.len(),
    ensures
        0 <= unmark(nodes, i) <= i,
        !is_mark(nodes[unmark(nodes, i)]),
        plain_at(nodes, unmark(nodes, i)) == plain_at(nodes, i),
    decreases i,
{
    if is_mark(nodes[i]) {
        lemma_unmark(nodes, nodes[i].children[1] as int);
    }
}

/// The tree at a place without a mark has the operator of the node and
/// the plain trees of its children.
pub proof fn lemma_plain_children(nodes: Seq<NodeView>, x: int)
    requires
        ordered(nodes),
        0 <= x < nodes.len(),
        !is_mark(nodes[x]),
    ensures
        plain_at(nodes, x).op == nodes[x].op,
        plain_at(nodes, x).children.len() == nodes[x].children.len(),
        forall|k: int|
            0 <= k < nodes[x].children.len() ==> (#[trigger] plain_at(nodes, x).children[k])
                == plain_at(nodes, nodes[x].children[k] as int),
{
}

/// The two texts by which marks are known.
pub struct Marks {
    forth: String,
    back: String,
}

impl Marks {
    #[verifier::type_invariant]
    spec fn inv(self) -> bool {
        self.forth@ == "Rewrite=>"@ && self.back@ == "Rewrite<="@
    }

    /// The two texts: the one of a mark that leads forth, then the one
    /// of a mark that leads back.
    pub closed spec fn view(&self) -> (Seq<char>, Seq<char>) {
        (self.forth@, self.back@)
    }

    /// The marks as the engine writes them: "Rewrite=>" where a rule led
    /// forth, "Rewrite<=" where it led back.
    pub fn new() -> (m: Marks)
        ensures
            m@ == ("Rewrite=>"@, "Rewrite<="@),
    {
        Marks { forth: "Rewrite=>".to_owned(), back: "Rewrite<=".to_owned() }
    }

    /// Whether a node is a mark.
    pub fn marks(&self, node: &Node) -> (r: bool)
        ensures
            r == is_mark(node@),
    {
        proof {
            use_type_invariant(self);
        }
        (node.op == self.forth || node.op == self.back) && node.children.len() == 2
    }

    /// Whether a node says that the rule led forth, from the link before
    /// to this one.
    pub fn leads_forth(&self, node: &Node) -> (r: bool)
        ensures
            r == (node@.op == "Rewrite=>"@),
    {
        proof {
            use_type_invariant(self);
        }
        node.op == self.forth
    }
}

/// Whether every child of every node stands before the node.
pub fn is_ordered(nodes: &Vec<Node>) -> (r: bool)
    ensures
        r == ordered(shapes(nodes@)),
{
    let mut i: usize = 0;
    while i < nodes.len()
        invariant
            i <= nodes@.len(),
            ordered(shapes(nodes@).take(i as int)),
        decreases nodes@.len() - i,
    {
        let node = &nodes[i];
        let mut j: usize = 0;
        while j < node.children.len()
            invariant
                i < nodes@.len(),
                node == nodes@[i as int],
                j <= node.children@.len(),
                forall|k: int| 0 <= k < j ==> node.children@[k] < i,
            decreases node.children@.len() - j,
        {
            if node.children[j] >= i {
                assert(shapes(nodes@)[i as int].children[j as int] >= i);
                return false;
            }
            j += 1;
        }
        i += 1;
    }
    proof {
        assert(shapes(nodes@).take(i as int) =~= shapes(nodes@));
    }
    true
}

/// Whether no node is a mark.
pub fn is_unmarked(nodes: &Vec<Node>, marks: &Marks) -> (r: bool)
    ensures
        r == unmarked(shapes(nodes@)),
{
    let mut i: usize = 0;
    while i < nodes.len()
        invariant
            i <= nodes@.len(),
            forall|k: int| 0 <= k < i ==> !is_mark(#[trigger] shapes(nodes@)[k]),
        decreases nodes@.len() - i,
    {
        if marks.marks(&nodes[i]) {
            assert(is_mark(shapes(nodes@)[i as int]));
            return false;
        }
        i += 1;
    }
    true
}

/// The position at which the tree at `i` begins once marks are left out.
fn skip_marks(nodes: &Vec<Node>, i: usize, marks: &Marks) -> (r: usize)
    requires
        ordered(shapes(nodes@)),
        i < nodes@.len(),
    ensures
        r == unmark(shapes(nodes@), i as int),
        r <= i,
        !is_mark(shapes(nodes@)[r as int]),
        plain_at(shapes(nodes@), r as int) == plain_at(shapes(nodes@), i as int),
{
    let mut at: usize = i;
    proof {
        lemma_unmark(shapes(nodes@), i as int);
    }
    while marks.marks(&nodes[at])
        invariant
            ordered(shapes(nodes@)),
            at <= i,
            i < nodes@.len(),
            unmark(shapes(nodes@), at as int) == unmark(shapes(nodes@), i as int),
        decreases at,
    {
        at = nodes[at].children[1];
    }
    at
}

/// Whether the trees at two positions are the same once marks are left out.
fn same(a: &Vec<Node>, i: usize, b: &Vec<Node>, j: usize, marks: &Marks) -> (r: bool)
    requires
        ordered(shapes(a@)),
        ordered(shapes(b@)),
        i < a@.len(),
        j < b@.len(),
    ensures
        r == (plain_at(shapes(a@), i as int) == plain_at(shapes(b@), j as int)),
    decreases i,
{
    let ghost sa = shapes(a@);
    let ghost sb = shapes(b@);
    let x = skip_marks(a, i, marks);
    let y = skip_marks(b, j, marks);
    let n = &a[x];
    let m = &b[y];
    proof {
        lemma_plain_children(sb, y as int);
    }
    if n.op != m.op || n.children.len() != m.children.len() {
        return false;
    }
    let mut k: usize = 0;
    while k < n.children.len()
        invariant
            sa == shapes(a@),
            sb == shapes(b@),
            ordered(sa),
            ordered(sb),
            x <= i,
            x < a@.len(),
            y < b@.len(),
            n == a@[x as int],
            m == b@[y as int],
            n.children@.len() == m.children@.len(),
            k <= n.children@.len(),
            plain_at(sa, x as int) == plain_at(sa, i as int),
            plain_at(sb, y as int) == plain_at(sb, j as int),
            plain_at(sa, x as int).children.len() == n.children@.len(),
            plain_at(sb, y as int).children.len() == m.children@.len(),
            forall|h: int|
                0 <= h < n.children@.len() ==> (#[trigger] plain_at(sa, x as int).children[h])
                    == plain_at(sa, n.children@[h] as int) && plain_at(sb, y as int).children[h]
                    == plain_at(sb, m.children@[h] as int),
            forall|h: int|
                0 <= h < k ==> plain_at(sa, n.children@[h] as int) == plain_at(
                    sb,
                    m.children@[h] as int,
                ),
        decreases n.children@.len() - k,
    {
        if !same(a, n.children[k], b, m.children[k], marks) {
            assert(plain_at(sa, x as int).children[k as int] != plain_at(
                sb,
                y as int,
            ).children[k as int]);
            return false;
        }
        k += 1;
    }
    proof {
        assert(plain_at(sa, x as int).children =~= plain_at(sb, y as int).children);
    }
    true
}


/// The table after the variables of the pattern at `p` have been
/// entered, each with the position in `nodes` at which the pattern meets
/// it when it is laid over the tree at `t`. A variable that stands in the
/// table already keeps its place; where the pattern and the tree part
/// ways, what lies below is passed over.
pub open spec fn laid(
    pattern: Seq<PatternNodeView>,
    p: int,
    nodes: Seq<NodeView>,
    t: int,
    table: Seq<Entry>,
) -> Seq<Entry>
    decreases p + 1, 0nat,
{
    if 0 <= p < pattern.len() && 0 <= t < nodes.len() {
        match pattern[p] {
            PatternNodeView::Var(v) => if first_entry(table, v) is Some {
                table
            } else {
                table.push((v, t as nat))
            },
            PatternNodeView::Op(n) => if n.children.len() == nodes[unmark(
                nodes,
                t,
            )].children.len() {
                laid_below(pattern, p, nodes, unmark(nodes, t), 0, table)
            } else {
                table
            },
        }
    } else {
        table
    }
}

/// The table after the children of the pattern node at `p`, from the
/// `k`th on, have been laid over the children of the node at `x`.
pub open spec fn laid_below(
    pattern: Seq<PatternNodeView>,
    p: int,
    nodes: Seq<NodeView>,
    x: int,
    k: int,
    table: Seq<Entry>,
) -> Seq<Entry>
    decreases p, pattern[p]->Op_0.children.len() - k,
{
    if 0 <= p < pattern.len() && pattern[p] is Op && 0 <= x < nodes.len() && 0 <= k
        < pattern[p]->Op_0.children.len() && k < nodes[x].children.len() {
        let c = pattern[p]->Op_0.children[k];
        let next = if c < p {
            laid(pattern, c as int, nodes, nodes[x].children[k] as int, table)
        } else {
            table
        };
        laid_below(pattern, p, nodes, x, k + 1, next)
    } else {
        table
    }
}

/// Every position in the table is below `bound`.
pub open spec fn within(table: Seq<Entry>, bound: nat) -> bool {
    forall|i: int| 0 <= i < table.len() ==> (#[trigger] table[i]).1 < bound
}

/// The trees that a table of variables gives for them: a variable that
/// was entered stands for the tree at the position it was entered with.
pub open spec fn sigma_of(source: Seq<NodeView>, table: Seq<Entry>) -> Map<Seq<char>, Tree> {
    Map::new(
        |v: Seq<char>| true,
        |v: Seq<char>|
            match first_entry(table, v) {
                Some(at) => plain_at(source, at as int),
                None => arbitrary(),
            },
    )
}

/// Every child of every node of the pattern below `p` stands before its
/// node, and every variable there stands in the table.
pub open spec fn bound_in(pattern: Seq<PatternNodeView>, p: int, table: Seq<Entry>) -> bool
    decreases p,
{
    if 0 <= p < pattern.len() {
        match pattern[p] {
            PatternNodeView::Var(v) => first_entry(table, v) is Some,
            PatternNodeView::Op(n) => forall|k: int|
                0 <= k < n.children.len() ==> (#[trigger] n.children[k]) < p && bound_in(
                    pattern,
                    n.children[k] as int,
                    table,
                ),
        }
    } else {
        false
    }
}

/// The pattern at `p`, with its variables standing for the trees that
/// the table gives them in `source`, is the tree at `t` of `term`.
pub open spec fn fitting(
    pattern: Seq<PatternNodeView>,
    p: int,
    term: Seq<NodeView>,
    t: int,
    source: Seq<NodeView>,
    table: Seq<Entry>,
) -> bool {
    bound_in(pattern, p, table) && instance(pattern, p, sigma_of(source, table)) == plain_at(
        term,
        t,
    )
}

/// The tree at `t` of `to` is the tree at `f` of `from` rewritten at its
/// root from the pattern `left` to the pattern `right`: with the
/// variables of `left` standing for what they meet when `left` is laid
/// over the tree of `from`, `left` is that tree and `right` is the tree
/// of `to`.
pub open spec fn applying(
    left: Seq<PatternNodeView>,
    right: Seq<PatternNodeView>,
    from: Seq<NodeView>,
    f: int,
    to: Seq<NodeView>,
    t: int,
) -> bool {
    let table = laid(left, left.len() - 1, from, f, Seq::empty());
    &&& left.len() > 0
    &&& right.len() > 0
    &&& fitting(left, left.len() - 1, from, f, from, table)
    &&& fitting(right, right.len() - 1, to, t, from, table)
}

/// What applies, rewrites.
pub proof fn lemma_applying_rewrites(
    left: Seq<PatternNodeView>,
    right: Seq<PatternNodeView>,
    from: Seq<NodeView>,
    f: int,
    to: Seq<NodeView>,
    t: int,
)
    requires
        applying(left, right, from, f, to, t),
    ensures
        rewrites(Equation { left, right }, plain_at(from, f), plain_at(to, t)),
{
    let table = laid(left, left.len() - 1, from, f, Seq::empty());
    let sigma = sigma_of(from, table);
    let eq = Equation { left, right };
    assert(whole(eq.left, sigma) == plain_at(from, f));
}

/// Enters the variables of a pattern: see `laid`.
fn collect(
    pattern: &Vec<PatternNode>,
    p: usize,
    term: &Vec<Node>,
    t: usize,
    table: &mut Table,
    marks: &Marks,
)
    requires
        ordered(shapes(term@)),
        p < pattern@.len(),
        t < term@.len(),
        within(old(table)@, term@.len() as nat),
    ensures
        final(table)@ == laid(
            pattern_shapes(pattern@),
            p as int,
            shapes(term@),
            t as int,
            old(table)@,
        ),
        within(final(table)@, term@.len() as nat),
    decreases p,
{
    let ghost shape = pattern_shapes(pattern@);
    let ghost nodes = shapes(term@);
    let ghost start = table@;
    match &pattern[p] {
        PatternNode::Var(v) => {
            let _ = table.record(v, t);
        },
        PatternNode::Op(n) => {
            let x = skip_marks(term, t, marks);
            let m = &term[x];
            if n.children.len() == m.children.len() {
                let mut k: usize = 0;
                while k < n.children.len()
                    invariant
                        shape == pattern_shapes(pattern@),
                        nodes == shapes(term@),
                        ordered(nodes),
                        p < pattern@.len(),
                        shape[p as int] == PatternNodeView::Op(n@),
                        x < term@.len(),
                        m == term@[x as int],
                        n.children@.len() == m.children@.len(),
                        k <= n.children@.len(),
                        within(table@, term@.len() as nat),
                        laid_below(shape, p as int, nodes, x as int, k as int, table@)
                            == laid_below(shape, p as int, nodes, x as int, 0, start),
                    decreases n.children@.len() - k,
                {
                    if n.children[k] < p {
                        collect(pattern, n.children[k], term, m.children[k], table, marks);
                    }
                    k += 1;
                }
            }
        },
    }
}

/// Whether the pattern at `p` fits the tree at `t`: see `fitting`.
fn fits(
    pattern: &Vec<PatternNode>,
    p: usize,
    term: &Vec<Node>,
    t: usize,
    source: &Vec<Node>,
    table: &Table,
    marks: &Marks,
) -> (r: bool)
    requires
        ordered(shapes(term@)),
        ordered(shapes(source@)),
        p < pattern@.len(),
        t < term@.len(),
        within(table@, source@.len() as nat),
    ensures
        r == fitting(
            pattern_shapes(pattern@),
            p as int,
            shapes(term@),
            t as int,
            shapes(source@),
            table@,
        ),
    decreases p,
{
    let ghost sigma = sigma_of(shapes(source@), table@);
    let ghost shape = pattern_shapes(pattern@);
    let ghost st = shapes(term@);
    match &pattern[p] {
        PatternNode::Var(v) => {
            match table.find(v) {
                Some(at) => {
                    proof {
                        lemma_first_entry(table@, v@);
                    }
                    same(term, t, source, at, marks)
                },
                None => false,
            }
        },
        PatternNode::Op(n) => {
            let x = skip_marks(term, t, marks);
            let m = &term[x];
            proof {
                lemma_plain_children(st, x as int);
            }
            if n.op != m.op || n.children.len() != m.children.len() {
                return false;
            }
            let mut k: usize = 0;
            while k < n.children.len()
                invariant
                    ordered(st),
                    ordered(shapes(source@)),
                    within(table@, source@.len() as nat),
                    p < pattern@.len(),
                    shape[p as int] == PatternNodeView::Op(n@),
                    x < term@.len(),
                    m == term@[x as int],
                    n.children@.len() == m.children@.len(),
                    k <= n.children@.len(),
                    st == shapes(term@),
                    sigma == sigma_of(shapes(source@), table@),
                    shape == pattern_shapes(pattern@),
                    plain_at(st, x as int) == plain_at(st, t as int),
                    plain_at(st, x as int).children.len() == m.children@.len(),
                    forall|h: int|
                        0 <= h < m.children@.len() ==> (#[trigger] plain_at(
                            st,
                            x as int,
                        ).children[h]) == plain_at(st, m.children@[h] as int),
                    forall|h: int|
                        0 <= h < k ==> (#[trigger] n.children@[h]) < p && fitting(
                            shape,
                            n.children@[h] as int,
                            st,
                            m.children@[h] as int,
                            shapes(source@),
                            table@,
                        ),
                decreases n.children@.len() - k,
            {
                if n.children[k] >= p {
                    return false;
                }
                if !fits(pattern, n.children[k], term, m.children[k], source, table, marks) {
                    proof {
                        if bound_in(shape, p as int, table@) {
                            assert(instance(shape, p as int, sigma).children[k as int]
                                == instance(shape, n.children@[k as int] as int, sigma));
                        }
                    }
                    return false;
                }
                k += 1;
            }
            proof {
                assert(instance(shape, p as int, sigma).children =~= plain_at(
                    st,
                    x as int,
                ).children);
            }
            true
        },
    }
}

/// Whether a rule applies at the root: see `applying`.
fn applies(
    left: &Vec<PatternNode>,
    right: &Vec<PatternNode>,
    from: &Vec<Node>,
    f: usize,
    to: &Vec<Node>,
    t: usize,
    marks: &Marks,
) -> (r: bool)
    requires
        ordered(shapes(from@)),
        ordered(shapes(to@)),
        f < from@.len(),
        t < to@.len(),
    ensures
        r == applying(
            pattern_shapes(left@),
            pattern_shapes(right@),
            shapes(from@),
            f as int,
            shapes(to@),
            t as int,
        ),
{
    if left.len() == 0 || right.len() == 0 {
        return false;
    }
    let mut table = Table::new();
    collect(left, left.len() - 1, from, f, &mut table, marks);
    fits(left, left.len() - 1, from, f, from, &table, marks) && fits(
        right,
        right.len() - 1,
        to,
        t,
        from,
        &table,
        marks,
    )
}


/// The first rule of this name, if there is one.
pub open spec fn named(rules: Seq<RuleView>, name: Seq<char>) -> Option<int>
    decreases rules.len(),
{
    if rules.len() == 0 {
        None
    } else {
        match named(rules.drop_last(), name) {
            Some(k) => Some(k),
            None => if rules.last().name == name {
                Some(rules.len() - 1)
            } else {
                None
            },
        }
    }
}

/// What `named` finds is a rule of that name.
pub proof fn lemma_named(rules: Seq<RuleView>, name: Seq<char>)
    ensures
        named(rules, name) matches Some(k) ==> 0 <= k < rules.len() && rules[k].name == name,
    decreases rules.len(),
{
    if rules.len() > 0 {
        lemma_named(rules.drop_last(), name);
    }
}

/// Once a rule has been found among the first `k`, looking further does
/// not change what is found.
pub proof fn lemma_named_prefix(rules: Seq<RuleView>, k: int, name: Seq<char>)
    requires
        0 <= k <= rules.len(),
        named(rules.take(k), name) is Some,
    ensures
        named(rules, name) == named(rules.take(k), name),
    decreases rules.len() - k,
{
    if k < rules.len() {
        assert(rules.take(k + 1).drop_last() =~= rules.take(k));
        lemma_named_prefix(rules, k + 1, name);
    } else {
        assert(rules.take(k) =~= rules);
    }
}

/// The first child, from the `k`th on, at which the node at `x` of
/// `prev` and the node at `y` of `next` differ once marks are left out;
/// the number of children where there is none.
pub open spec fn first_change(
    prev: Seq<NodeView>,
    x: int,
    next: Seq<NodeView>,
    y: int,
    k: int,
) -> int
    decreases prev[x].children.len() - k,
{
    if 0 <= k < prev[x].children.len() && k < next[y].children.len() && plain_at(
        prev,
        prev[x].children[k] as int,
    ) == plain_at(next, next[y].children[k] as int) {
        first_change(prev, x, next, y, k + 1)
    } else {
        k
    }
}

/// The tree at `ni` of `next` arises from the tree at `pi` of `prev` by
/// one use of a rule at the place that `next` marks. At a mark, the rule
/// it names has to apply between the two trees, forth or back as the
/// mark says. Elsewhere the two nodes have to be alike, exactly one child
/// has to differ, and that child has to arise in the same way.
pub open spec fn linked(
    rules: Seq<RuleView>,
    prev: Seq<NodeView>,
    pi: int,
    next: Seq<NodeView>,
    ni: int,
) -> bool
    decreases ni,
{
    if 0 <= pi < prev.len() && 0 <= ni < next.len() {
        if is_mark(next[ni]) {
            let inner = next[ni].children[1] as int;
            match named(rules, next[next[ni].children[0] as int].op) {
                None => false,
                Some(k) => if next[ni].op == "Rewrite=>"@ {
                    applying(
                        equation_of(rules[k]).left,
                        equation_of(rules[k]).right,
                        prev,
                        pi,
                        next,
                        inner,
                    )
                } else {
                    applying(
                        equation_of(rules[k]).left,
                        equation_of(rules[k]).right,
                        next,
                        inner,
                        prev,
                        pi,
                    )
                },
            }
        } else {
            let x = unmark(prev, pi);
            let n = next[ni].children.len();
            let k = first_change(prev, x, next, ni, 0);
            &&& prev[x].op == next[ni].op
            &&& prev[x].children.len() == n
            &&& k < n
            &&& next[ni].children[k] < ni
            &&& linked(
                rules,
                prev,
                prev[x].children[k] as int,
                next,
                next[ni].children[k] as int,
            )
            &&& forall|h: int|
                k < h < n ==> plain_at(prev, #[trigger] prev[x].children[h] as int) == plain_at(
                    next,
                    next[ni].children[h] as int,
                )
        }
    } else {
        false
    }
}

/// Children before the first change do not differ.
pub proof fn lemma_first_change(prev: Seq<NodeView>, x: int, next: Seq<NodeView>, y: int, k: int)
    requires
        0 <= k <= prev[x].children.len(),
        prev[x].children.len() == next[y].children.len(),
    ensures
        k <= first_change(prev, x, next, y, k) <= prev[x].children.len(),
        forall|h: int|
            k <= h < first_change(prev, x, next, y, k) ==> plain_at(
                prev,
                #[trigger] prev[x].children[h] as int,
            ) == plain_at(next, next[y].children[h] as int),
        first_change(prev, x, next, y, k) < prev[x].children.len() ==> plain_at(
            prev,
            prev[x].children[first_change(prev, x, next, y, k)] as int,
        ) != plain_at(next, next[y].children[first_change(prev, x, next, y, k)] as int),
    decreases prev[x].children.len() - k,
{
    if k < prev[x].children.len() && plain_at(prev, prev[x].children[k] as int) == plain_at(
        next,
        next[y].children[k] as int,
    ) {
        lemma_first_change(prev, x, next, y, k + 1);
    }
}

/// What is linked is one step apart.
pub proof fn lemma_linked_steps(
    rules: Seq<RuleView>,
    prev: Seq<NodeView>,
    pi: int,
    next: Seq<NodeView>,
    ni: int,
)
    requires
        ordered(prev),
        ordered(next),
        linked(rules, prev, pi, next, ni),
    ensures
        step(equations(rules), plain_at(prev, pi), plain_at(next, ni)),
    decreases ni,
{
    let eqs = equations(rules);
    let a = plain_at(prev, pi);
    let b = plain_at(next, ni);
    if is_mark(next[ni]) {
        let inner = next[ni].children[1] as int;
        let name = next[next[ni].children[0] as int].op;
        lemma_named(rules, name);
        let k = named(rules, name)->0;
        let eq = equation_of(rules[k]);
        if next[ni].op == "Rewrite=>"@ {
            lemma_applying_rewrites(eq.left, eq.right, prev, pi, next, inner);
            assert(rewrites(eqs[k], a, b));
        } else {
            lemma_applying_rewrites(eq.left, eq.right, next, inner, prev, pi);
            assert(rewrites(eqs[k], b, a));
        }
    } else {
        let x = unmark(prev, pi);
        lemma_unmark(prev, pi);
        let k = first_change(prev, x, next, ni, 0);
        lemma_first_change(prev, x, next, ni, 0);
        lemma_linked_steps(
            rules,
            prev,
            prev[x].children[k] as int,
            next,
            next[ni].children[k] as int,
        );
        let left = plain_at(prev, x);
        assert(step(eqs, left.children[k], b.children[k]));
    }
}

/// The links of a derivation in mathematical values.
pub open spec fn link_shapes(links: Seq<Vec<Node>>) -> Seq<Seq<NodeView>> {
    Seq::new(links.len(), |i: int| shapes(links[i]@))
}

/// The trees of the links of a derivation, marks left out.
pub open spec fn link_trees(links: Seq<Seq<NodeView>>) -> Seq<Tree> {
    Seq::new(links.len(), |i: int| plain_at(links[i], links[i].len() - 1))
}

/// A derivation holds: it has a link, every link is an expression with
/// its children before their parents, and each link arises from the one
/// before by one use of a rule.
pub open spec fn holding(rules: Seq<RuleView>, links: Seq<Seq<NodeView>>) -> bool {
    &&& links.len() > 0
    &&& forall|i: int| 0 <= i < links.len() ==> (#[trigger] links[i]).len() > 0 && ordered(links[i])
    &&& forall|i: int|
        0 <= i < links.len() - 1 ==> linked(
            rules,
            #[trigger] links[i],
            links[i].len() - 1,
            links[i + 1],
            links[i + 1].len() - 1,
        )
}

/// A derivation shows that `to` is equal to `from` under the rules: the
/// two are expressions without marks, the derivation holds, it begins
/// with `from` and it ends with `to`.
pub open spec fn showing(
    rules: Seq<RuleView>,
    from: Seq<NodeView>,
    to: Seq<NodeView>,
    links: Seq<Seq<NodeView>>,
) -> bool {
    &&& from.len() > 0 && ordered(from) && unmarked(from)
    &&& to.len() > 0 && ordered(to) && unmarked(to)
    &&& holding(rules, links)
    &&& plain_at(links[0], links[0].len() - 1) == plain_at(from, from.len() - 1)
    &&& plain_at(links.last(), links.last().len() - 1) == plain_at(to, to.len() - 1)
}

/// What a derivation shows to be equal is equal under the rules.
pub proof fn law_what_is_shown_is_equal(
    rules: Seq<RuleView>,
    from: Seq<NodeView>,
    to: Seq<NodeView>,
    links: Seq<Seq<NodeView>>,
)
    requires
        showing(rules, from, to, links),
    ensures
        equal_under(equations(rules), tree_at(from, from.len() - 1), tree_at(to, to.len() - 1)),
{
    let eqs = equations(rules);
    let trees = link_trees(links);
    lemma_plain_is_tree(from, from.len() - 1);
    lemma_plain_is_tree(to, to.len() - 1);
    assert forall|i: int| 0 <= i < trees.len() - 1 implies step(
        eqs,
        #[trigger] trees[i],
        trees[i + 1],
    ) by {
        lemma_linked_steps(
            rules,
            links[i],
            links[i].len() - 1,
            links[i + 1],
            links[i + 1].len() - 1,
        );
    }
    assert(chained(eqs, trees));
}

/// The first rule of this name, if there is one.
fn rule_named(rules: &Vec<Rule>, name: &String) -> (r: Option<usize>)
    ensures
        match r {
            Some(k) => named(rule_views(rules@), name@) == Some(k as int) && k < rules@.len(),
            None => named(rule_views(rules@), name@) is None,
        },
{
    let ghost views = rule_views(rules@);
    let mut k: usize = 0;
    while k < rules.len()
        invariant
            k <= rules@.len(),
            views == rule_views(rules@),
            named(views.take(k as int), name@) is None,
        decreases rules@.len() - k,
    {
        proof {
            assert(views.take(k + 1).drop_last() =~= views.take(k as int));
        }
        if *rules[k].name() == *name {
            proof {
                lemma_named_prefix(views, k + 1, name@);
            }
            return Some(k);
        }
        k += 1;
    }
    proof {
        assert(views.take(k as int) =~= views);
    }
    None
}

/// Whether one link arises from the link before: see `linked`.
fn links(
    rules: &Vec<Rule>,
    prev: &Vec<Node>,
    pi: usize,
    next: &Vec<Node>,
    ni: usize,
    marks: &Marks,
) -> (r: bool)
    requires
        ordered(shapes(prev@)),
        ordered(shapes(next@)),
        pi < prev@.len(),
        ni < next@.len(),
    ensures
        r == linked(rule_views(rules@), shapes(prev@), pi as int, shapes(next@), ni as int),
    decreases ni,
{
    let ghost sp = shapes(prev@);
    let ghost sn = shapes(next@);
    let node = &next[ni];
    assert(sn[ni as int] == node@);
    if marks.marks(node) {
        assert(sn[ni as int].children[1] < ni);
        let name = &next[node.children[0]].op;
        let inner = node.children[1];
        let k = match rule_named(rules, name) {
            Some(k) => k,
            None => {
                return false;
            },
        };
        let rule = &rules[k];
        if marks.leads_forth(node) {
            applies(rule.left(), rule.right(), prev, pi, next, inner, marks)
        } else {
            applies(rule.left(), rule.right(), next, inner, prev, pi, marks)
        }
    } else {
        let x = skip_marks(prev, pi, marks);
        let old = &prev[x];
        if old.op != node.op || old.children.len() != node.children.len() {
            return false;
        }
        let n = node.children.len();
        let mut k: usize = 0;
        while k < n && same(prev, old.children[k], next, node.children[k], marks)
            invariant
                sp == shapes(prev@),
                sn == shapes(next@),
                ordered(sp),
                ordered(sn),
                x < prev@.len(),
                ni < next@.len(),
                old == prev@[x as int],
                node == next@[ni as int],
                n == node.children@.len(),
                n == old.children@.len(),
                k <= n,
                forall|h: int|
                    0 <= h < n ==> (#[trigger] old.children@[h]) < x && node.children@[h] < ni,
                first_change(sp, x as int, sn, ni as int, k as int) == first_change(
                    sp,
                    x as int,
                    sn,
                    ni as int,
                    0,
                ),
            decreases n - k,
        {
            k += 1;
        }
        if k >= n {
            return false;
        }
        let at = k;
        if !links(rules, prev, old.children[at], next, node.children[at], marks) {
            return false;
        }
        k += 1;
        while k < n
            invariant
                sp == shapes(prev@),
                sn == shapes(next@),
                ordered(sp),
                ordered(sn),
                x < prev@.len(),
                ni < next@.len(),
                old == prev@[x as int],
                node == next@[ni as int],
                n == node.children@.len(),
                n == old.children@.len(),
                at < k <= n,
                x == unmark(sp, pi as int),
                pi < prev@.len(),
                !is_mark(sn[ni as int]),
                at == first_change(sp, x as int, sn, ni as int, 0),
                forall|h: int|
                    0 <= h < n ==> (#[trigger] old.children@[h]) < x && node.children@[h] < ni,
                forall|h: int|
                    at < h < k ==> plain_at(sp, #[trigger] old.children@[h] as int) == plain_at(
                        sn,
                        node.children@[h] as int,
                    ),
            decreases n - k,
        {
            if !same(prev, old.children[k], next, node.children[k], marks) {
                return false;
            }
            k += 1;
        }
        true
    }
}

/// Whether a derivation holds: see `holding`.
pub fn holds(rules: &Vec<Rule>, derivation: &Vec<Vec<Node>>, marks: &Marks) -> (r: bool)
    ensures
        r == holding(rule_views(rules@), link_shapes(derivation@)),
{
    let ghost views = rule_views(rules@);
    let ghost all = link_shapes(derivation@);
    if derivation.len() == 0 {
        return false;
    }
    if derivation[0].len() == 0 || !is_ordered(&derivation[0]) {
        assert(all[0] == shapes(derivation@[0]@));
        return false;
    }
    let mut i: usize = 1;
    while i < derivation.len()
        invariant
            1 <= i <= derivation@.len(),
            views == rule_views(rules@),
            all == link_shapes(derivation@),
            forall|h: int| 0 <= h < i ==> (#[trigger] all[h]).len() > 0 && ordered(all[h]),
            forall|h: int|
                0 <= h < i - 1 ==> linked(
                    views,
                    #[trigger] all[h],
                    all[h].len() - 1,
                    all[h + 1],
                    all[h + 1].len() - 1,
                ),
        decreases derivation@.len() - i,
    {
        let prev = &derivation[i - 1];
        let next = &derivation[i];
        assert(all[i - 1] == shapes(prev@) && all[i as int] == shapes(next@));
        if next.len() == 0 || !is_ordered(next) {
            return false;
        }
        if !links(rules, prev, prev.len() - 1, next, next.len() - 1, marks) {
            return false;
        }
        i += 1;
    }
    true
}

/// Whether a derivation shows that `to` is equal to `from` under the
/// rules: see `showing`. What it shows is proved.
pub fn shows(
    rules: &Vec<Rule>,
    from: &Vec<Node>,
    to: &Vec<Node>,
    derivation: &Vec<Vec<Node>>,
) -> (r: bool)
    ensures
        r == showing(
            rule_views(rules@),
            shapes(from@),
            shapes(to@),
            link_shapes(derivation@),
        ),
        r ==> equal_under(
            equations(rule_views(rules@)),
            tree_at(shapes(from@), from@.len() - 1),
            tree_at(shapes(to@), to@.len() - 1),
        ),
{
    let marks = Marks::new();
    let ghost all = link_shapes(derivation@);
    if from.len() == 0 || to.len() == 0 || !is_ordered(from) || !is_ordered(to) {
        return false;
    }
    if !is_unmarked(from, &marks) || !is_unmarked(to, &marks) {
        return false;
    }
    if !holds(rules, derivation, &marks) {
        return false;
    }
    let first = &derivation[0];
    let last = &derivation[derivation.len() - 1];
    assert(all[0] == shapes(first@) && all.last() == shapes(last@));
    let met = same(first, first.len() - 1, from, from.len() - 1, &marks) && same(
        last,
        last.len() - 1,
        to,
        to.len() - 1,
        &marks,
    );
    proof {
        if met {
            law_what_is_shown_is_equal(rule_views(rules@), shapes(from@), shapes(to@), all);
        }
    }
    met
}

/// Every text is one that the engine reads as an expression.
pub open spec fn readable(written: Seq<Seq<char>>) -> bool {
    forall|i: int| 0 <= i < written.len() ==> parsed_expression(#[trigger] written[i]) is Ok
}

/// The expressions that the engine reads from the texts.
pub open spec fn read(written: Seq<Seq<char>>) -> Seq<Seq<NodeView>> {
    Seq::new(written.len(), |i: int| parsed_expression(written[i])->Ok_0)
}

/// A derivation in writing, each link as text, confirms that `to` is
/// equal to `from` under the rules: every link can be read, and the
/// links that are read show it.
pub open spec fn confirming(
    rules: Seq<RuleView>,
    from: Seq<NodeView>,
    to: Seq<NodeView>,
    written: Seq<Seq<char>>,
) -> bool {
    readable(written) && showing(rules, from, to, read(written))
}

/// Whether a derivation in writing confirms that `to` is equal to `from`
/// under the rules: see `confirming`. What it confirms is proved.
pub fn confirms(rules: &Vec<Rule>, from: &Vec<Node>, to: &Vec<Node>, written: &Vec<String>) -> (r:
    bool)
    ensures
        r == confirming(rule_views(rules@), shapes(from@), shapes(to@), texts(written@)),
        r ==> equal_under(
            equations(rule_views(rules@)),
            tree_at(shapes(from@), from@.len() - 1),
            tree_at(shapes(to@), to@.len() - 1),
        ),
{
    let ghost all = texts(written@);
    let mut links: Vec<Vec<Node>> = Vec::new();
    let mut i: usize = 0;
    while i < written.len()
        invariant
            i <= written@.len(),
            all == texts(written@),
            links@.len() == i,
            forall|k: int|
                0 <= k < i ==> parsed_expression(#[trigger] all[k]) == Ok::<
                    Seq<NodeView>,
                    Seq<char>,
                >(shapes(links@[k]@)),
        decreases written@.len() - i,
    {
        match parse_expression(written[i].as_str()) {
            Ok(nodes) => {
                links.push(nodes);
            },
            Err(_) => {
                assert(parsed_expression(all[i as int]) is Err);
                return false;
            },
        }
        i += 1;
    }
    proof {
        assert(link_shapes(links@) =~= read(all));
    }
    shows(rules, from, to, &links)
}

} // verus!
