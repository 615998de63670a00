//! `SolverGraph`: a directed graph over string node ids, stored in a petgraph
//! `DiGraph`, with deterministic traversals ordered by node id.
//!
//! Node ids are unique; `add_node` is idempotent. Every traversal that returns
//! a sequence orders ties by the lexicographic order of the node ids.

use petgraph::graph::{Graph, NodeIndex};
use petgraph::visit::EdgeRef;
use petgraph::Directed;
use vstd::prelude::*;

use crate::error::SolverError;
use crate::text::{chars_of, lemma_lex_total, lemma_lex_transitive, lex_le, lex_less, lex_lt};

verus! {

// ── petgraph, as the graph logic sees it ──────────────────────────────────────

#[verifier::external_type_specification]
#[verifier::external_body]
#[verifier::reject_recursive_types(N)]
#[verifier::reject_recursive_types(E)]
#[verifier::reject_recursive_types(Ty)]
#[verifier::reject_recursive_types(Ix)]
pub struct ExPetGraph<N, E, Ty, Ix>(Graph<N, E, Ty, Ix>);

#[verifier::external_type_specification]
#[verifier::external_body]
pub struct ExPetDirected(Directed);

/// What a petgraph `DiGraph<String, usize, u32>` holds: for each node, in
/// index order, its name and its outgoing edges as `(target, payload)` in the
/// order petgraph yields them (most recently added first).
pub uninterp spec fn digraph_contents(g: Graph<String, usize, Directed, u32>) -> Seq<
    (Seq<char>, Seq<(usize, usize)>),
>;

/// Number of edges held in graph contents: the sum of the out-list lengths.
pub open spec fn edge_total(c: Seq<(Seq<char>, Seq<(usize, usize)>)>) -> nat
    decreases c.len(),
{
    if c.len() == 0 {
        0
    } else {
        edge_total(c.drop_last()) + c.last().1.len()
    }
}

/// petgraph `Graph::new`: an empty directed graph.
#[verifier::external_body]
fn digraph_new() -> (g: Graph<String, usize, Directed, u32>)
    ensures
        digraph_contents(g) == Seq::<(Seq<char>, Seq<(usize, usize)>)>::empty(),
{
    Graph::new()
}

/// petgraph `Graph::node_count`: the number of nodes.
#[verifier::external_body]
fn digraph_node_count(g: &Graph<String, usize, Directed, u32>) -> (n: usize)
    ensures
        n == digraph_contents(*g).len(),
{
    g.node_count()
}

/// petgraph `Graph::add_node`: appends a node with no edges and returns its
/// index. petgraph panics when the node count reaches `u32::MAX`.
#[verifier::external_body]
fn digraph_add_node(g: &mut Graph<String, usize, Directed, u32>, name: String) -> (i: usize)
    requires
        digraph_contents(*old(g)).len() < u32::MAX,
    ensures
        digraph_contents(*final(g)) == digraph_contents(*old(g)).push(
            (name@, Seq::<(usize, usize)>::empty()),
        ),
        i == digraph_contents(*old(g)).len(),
{
    g.add_node(name).index()
}

/// petgraph `Graph::add_edge`: adds the edge `a -> b`; in a directed graph the
/// new edge comes first among the outgoing edges of `a`. petgraph panics on an
/// unknown node and when the edge count reaches `u32::MAX`.
#[verifier::external_body]
fn digraph_add_edge(g: &mut Graph<String, usize, Directed, u32>, a: usize, b: usize, w: usize)
    requires
        a < digraph_contents(*old(g)).len(),
        b < digraph_contents(*old(g)).len(),
        edge_total(digraph_contents(*old(g))) < u32::MAX,
    ensures
        digraph_contents(*final(g)) == digraph_contents(*old(g)).update(
            a as int,
            (
                digraph_contents(*old(g))[a as int].0,
                seq![(b, w)] + digraph_contents(*old(g))[a as int].1,
            ),
        ),
{
    g.add_edge(NodeIndex::new(a), NodeIndex::new(b), w);
}

/// petgraph `Index<NodeIndex>`: the name stored at node `i`.
#[verifier::external_body]
fn digraph_node_name(g: &Graph<String, usize, Directed, u32>, i: usize) -> (s: &String)
    requires
        i < digraph_contents(*g).len(),
    ensures
        s@ == digraph_contents(*g)[i as int].0,
{
    &g[NodeIndex::new(i)]
}

/// petgraph `Graph::edges`: the outgoing edges of node `i` as
/// `(target, payload)`, in petgraph's order.
#[verifier::external_body]
fn digraph_out_edges(g: &Graph<String, usize, Directed, u32>, i: usize) -> (v: Vec<(usize, usize)>)
    requires
        i < digraph_contents(*g).len(),
    ensures
        v@ == digraph_contents(*g)[i as int].1,
{
    g.edges(NodeIndex::new(i)).map(|e| (e.target().index(), *e.weight())).collect()
}

// ── Names ─────────────────────────────────────────────────────────────────────

/// The name list after adding `s`: unchanged when `s` is already there,
/// otherwise `s` appended.
pub open spec fn add_name(names: Seq<Seq<char>>, s: Seq<char>) -> Seq<Seq<char>> {
    if names.contains(s) {
        names
    } else {
        names.push(s)
    }
}

/// The position of `s` in a list of distinct names.
pub open spec fn name_pos(names: Seq<Seq<char>>, s: Seq<char>) -> int {
    choose|i: int| 0 <= i < names.len() && names[i] == s
}

proof fn lemma_edge_total_update(c: Seq<(Seq<char>, Seq<(usize, usize)>)>, a: int, e: (usize, usize))
    requires
        0 <= a < c.len(),
    ensures
        edge_total(c.update(a, (c[a].0, seq![e] + c[a].1))) == edge_total(c) + 1,
    decreases c.len(),
{
    let c2 = c.update(a, (c[a].0, seq![e] + c[a].1));
    if a == c.len() - 1 {
        assert(c2.drop_last() =~= c.drop_last());
    } else {
        assert(c2.drop_last() =~= c.drop_last().update(a, (c[a].0, seq![e] + c[a].1)));
        lemma_edge_total_update(c.drop_last(), a, e);
    }
}

proof fn lemma_edge_total_push(c: Seq<(Seq<char>, Seq<(usize, usize)>)>, name: Seq<char>)
    ensures
        edge_total(c.push((name, Seq::<(usize, usize)>::empty()))) == edge_total(c),
{
    assert(c.push((name, Seq::<(usize, usize)>::empty())).drop_last() =~= c);
}

/// Number of entries of `s` whose target is `v`.
pub open spec fn count_to<W>(s: Seq<(usize, W)>, v: int) -> nat
    decreases s.len(),
{
    if s.len() == 0 {
        0
    } else {
        count_to(s.drop_last(), v) + if s.last().0 == v {
            1nat
        } else {
            0nat
        }
    }
}

proof fn lemma_count_to_zero<W>(s: Seq<(usize, W)>, v: int)
    ensures
        count_to(s, v) == 0 <==> forall|k: int| 0 <= k < s.len() ==> (#[trigger] s[k]).0 != v,
    decreases s.len(),
{
    if s.len() > 0 {
        lemma_count_to_zero(s.drop_last(), v);
        if count_to(s, v) == 0 {
            assert forall|k: int| 0 <= k < s.len() implies (#[trigger] s[k]).0 != v by {
                if k < s.len() - 1 {
                    assert(s[k] == s.drop_last()[k]);
                }
            }
        }
        if forall|k: int| 0 <= k < s.len() ==> (#[trigger] s[k]).0 != v {
            assert forall|k: int| 0 <= k < s.drop_last().len() implies (
            #[trigger] s.drop_last()[k]).0 != v by {
                assert(s.drop_last()[k] == s[k]);
            }
        }
    }
}

proof fn lemma_count_to_take_step<W>(s: Seq<(usize, W)>, k: int, v: int)
    requires
        0 <= k < s.len(),
    ensures
        count_to(s.take(k + 1), v) == count_to(s.take(k), v) + if s[k].0 == v {
            1nat
        } else {
            0nat
        },
{
    assert(s.take(k + 1).drop_last() =~= s.take(k));
}

proof fn lemma_count_to_take_le<W>(s: Seq<(usize, W)>, k: int, v: int)
    requires
        0 <= k <= s.len(),
    ensures
        count_to(s.take(k), v) <= count_to(s, v),
    decreases s.len() - k,
{
    if k < s.len() {
        lemma_count_to_take_step(s, k, v);
        lemma_count_to_take_le(s, k + 1, v);
    } else {
        assert(s.take(k) =~= s);
    }
}

proof fn lemma_edge_total_take(c: Seq<(Seq<char>, Seq<(usize, usize)>)>, m: int)
    requires
        0 <= m <= c.len(),
    ensures
        edge_total(c.take(m)) <= edge_total(c),
        m < c.len() ==> edge_total(c.take(m + 1)) == edge_total(c.take(m)) + c[m].1.len(),
    decreases c.len() - m,
{
    if m < c.len() {
        assert(c.take(m + 1).drop_last() =~= c.take(m));
        lemma_edge_total_take(c, m + 1);
    } else {
        assert(c.take(m) =~= c);
    }
}

/// A list of distinct indices below `n` has at most `n` entries.
/// Holds of the edges whose target is `t`.
pub open spec fn to_target<W>(t: usize) -> spec_fn((usize, W)) -> bool {
    |x: (usize, W)| x.0 == t
}

/// Inserting `e` after every edge whose key is not above `e`'s key (and
/// before the others) adds `e` at the end of the edges with its target and
/// leaves the edges of every other target as they were.
proof fn lemma_insert_filter_stable<W>(
    names: Seq<Seq<char>>,
    out: Seq<(usize, W)>,
    keys: Seq<Vec<char>>,
    j: int,
    e: (usize, W),
    key: Seq<char>,
    done: Seq<(usize, W)>,
)
    requires
        names.no_duplicates(),
        0 <= j <= out.len(),
        keys.len() == out.len(),
        e.0 < names.len(),
        key == names[e.0 as int],
        forall|k: int| 0 <= k < out.len() ==> (#[trigger] out[k]).0 < names.len(),
        forall|k: int| 0 <= k < out.len() ==> (#[trigger] keys[k])@ == names[out[k].0 as int],
        forall|k: int| j <= k < out.len() ==> lex_lt(key, (#[trigger] keys[k])@),
        forall|t: usize| #[trigger] out.filter(to_target::<W>(t)) == done.filter(to_target::<W>(t)),
    ensures
        forall|t: usize|
            #[trigger] out.insert(j, e).filter(to_target::<W>(t)) == done.push(e).filter(to_target::<W>(t)),
{
    let a = out.take(j);
    let b = out.skip(j);
    assert(out =~= a + b);
    assert(out.insert(j, e) =~= a + seq![e] + b);
    assert forall|t: usize| #[trigger] out.insert(j, e).filter(to_target::<W>(t)) == done.push(e).filter(to_target::<W>(t)) by {
        reveal(Seq::filter);
        let f = to_target::<W>(t);
        assert(done.push(e).drop_last() =~= done);
        assert(seq![e].drop_last() =~= Seq::<(usize, W)>::empty());
        assert(Seq::<(usize, W)>::empty().filter(f) == Seq::<(usize, W)>::empty());
        assert((a + seq![e]) + b == a + seq![e] + b);
        Seq::filter_distributes_over_add(a, seq![e], f);
        Seq::filter_distributes_over_add(a + seq![e], b, f);
        Seq::filter_distributes_over_add(a, b, f);
        if e.0 == t {
            assert(b.filter(f) =~= Seq::<(usize, W)>::empty()) by {
                assert forall|k: int| 0 <= k < b.len() implies !f(#[trigger] b[k]) by {
                    assert(b[k] == out[j + k]);
                    assert(lex_lt(key, keys[j + k]@));
                    if b[k].0 == t {
                        assert(keys[j + k]@ == names[t as int]);
                        crate::text::lemma_lex_irreflexive(key);
                    }
                }
                assert(b.all(|x: (usize, W)| !f(x)));
                b.lemma_all_neg_filter_empty(f);
            }
            assert(seq![e].filter(f) =~= seq![e]);
            assert(a.filter(f) + seq![e] + Seq::<(usize, W)>::empty() =~= (a.filter(f) + Seq::<(usize, W)>::empty()).push(e));
        } else {
            assert(seq![e].filter(f) =~= Seq::<(usize, W)>::empty());
            assert(a.filter(f) + Seq::<(usize, W)>::empty() =~= a.filter(f));
        }
    }
}

/// Inserting `e` into `s` at `j` adds `e` at the end of what a filter keeps
/// when no element from `j` on passes the filter, and changes nothing when
/// `e` does not pass it.
pub(crate) proof fn lemma_filter_insert<A>(s: Seq<A>, j: int, e: A, f: spec_fn(A) -> bool)
    requires
        0 <= j <= s.len(),
        f(e) ==> forall|k: int| j <= k < s.len() ==> !f(#[trigger] s[k]),
    ensures
        s.insert(j, e).filter(f) == if f(e) {
            s.filter(f).push(e)
        } else {
            s.filter(f)
        },
{
    let a = s.take(j);
    let b = s.skip(j);
    let x = seq![e];
    assert(s =~= a + b);
    assert(s.insert(j, e) =~= a + x + b);
    Seq::filter_distributes_over_add(a, b, f);
    Seq::filter_distributes_over_add(a, x, f);
    Seq::filter_distributes_over_add(a + x, b, f);
    reveal(Seq::filter);
    assert(x.drop_last() =~= Seq::<A>::empty());
    assert(Seq::<A>::empty().filter(f) == Seq::<A>::empty());
    if f(e) {
        assert forall|k: int| 0 <= k < b.len() implies !f(#[trigger] b[k]) by {
            assert(b[k] == s[j + k]);
        }
        assert(b.all(|y: A| !f(y)));
        b.lemma_all_neg_filter_empty(f);
        assert(b.filter(f) =~= Seq::<A>::empty());
        assert(x.filter(f) =~= x);
        assert(a.filter(f) + x + Seq::<A>::empty() =~= (a.filter(f) + Seq::<A>::empty()).push(e));
    } else {
        assert(x.filter(f) =~= Seq::<A>::empty());
        assert(a.filter(f) + Seq::<A>::empty() =~= a.filter(f));
    }
}

/// The first element kept by a filter is the first element that passes it.
proof fn lemma_first_of_filter<A>(s: Seq<A>, i: int, f: spec_fn(A) -> bool)
    requires
        0 <= i < s.len(),
        f(s[i]),
        forall|p: int| 0 <= p < i ==> !f(#[trigger] s[p]),
    ensures
        s.filter(f).len() > 0,
        s.filter(f)[0] == s[i],
{
    let a = s.take(i);
    let x = seq![s[i]];
    let b = s.skip(i + 1);
    assert(s =~= a + x + b);
    assert forall|p: int| 0 <= p < a.len() implies !f(#[trigger] a[p]) by {
        assert(a[p] == s[p]);
    }
    assert(a.all(|y: A| !f(y)));
    a.lemma_all_neg_filter_empty(f);
    Seq::filter_distributes_over_add(a, x, f);
    Seq::filter_distributes_over_add(a + x, b, f);
    reveal(Seq::filter);
    assert(x.drop_last() =~= Seq::<A>::empty());
    assert(Seq::<A>::empty().filter(f) == Seq::<A>::empty());
    assert(x.filter(f) =~= x);
    assert(a.filter(f) =~= Seq::<A>::empty());
    assert((a + x).filter(f) =~= x);
}

pub proof fn lemma_distinct_bounded_len(s: Seq<usize>, n: nat)
    requires
        s.no_duplicates(),
        forall|i: int| 0 <= i < s.len() ==> s[i] < n,
    ensures
        s.len() <= n,
{
    let t = s.map_values(|x: usize| x as int);
    assert(t.no_duplicates()) by {
        assert forall|i: int, j: int| 0 <= i < t.len() && 0 <= j < t.len() && i != j implies t[i]
            != t[j] by {
            assert(s[i] != s[j]);
        }
    }
    t.unique_seq_to_set();
    vstd::set_lib::lemma_int_range(0, n as int);
    assert(t.to_set().subset_of(vstd::set_lib::set_int_range(0, n as int)));
    vstd::set_lib::lemma_len_subset(t.to_set(), vstd::set_lib::set_int_range(0, n as int));
}

/// The name list after adding the endpoints of `edges` in order (each edge's
/// source before its target) to `start`.
pub open spec fn names_after<W>(start: Seq<Seq<char>>, edges: Seq<(Seq<char>, Seq<char>, W)>) -> Seq<
    Seq<char>,
>
    decreases edges.len(),
{
    if edges.len() == 0 {
        start
    } else {
        add_name(add_name(names_after(start, edges.drop_last()), edges.last().0), edges.last().1)
    }
}

/// Adding a list of edges is adding a prefix of it, then the rest.
pub proof fn lemma_names_after_split<W>(start: Seq<Seq<char>>, edges: Seq<(Seq<char>, Seq<char>, W)>, k: int)
    requires
        0 <= k <= edges.len(),
    ensures
        names_after(start, edges) == names_after(names_after(start, edges.take(k)), edges.skip(k)),
    decreases edges.len(),
{
    if k == edges.len() {
        assert(edges.take(k) =~= edges);
        assert(edges.skip(k) =~= Seq::<(Seq<char>, Seq<char>, W)>::empty());
    } else {
        lemma_names_after_split(start, edges.drop_last(), k);
        assert(edges.drop_last().take(k) =~= edges.take(k));
        assert(edges.skip(k).drop_last() =~= edges.drop_last().skip(k));
        assert(edges.skip(k).last() == edges.last());
    }
}

/// The edges of `edges` that leave `from`, as `(target name, weight)`, the
/// last one first.
pub open spec fn out_named<W>(edges: Seq<(Seq<char>, Seq<char>, W)>, from: Seq<char>) -> Seq<
    (Seq<char>, W),
>
    decreases edges.len(),
{
    if edges.len() == 0 {
        Seq::empty()
    } else if edges.last().0 == from {
        seq![(edges.last().1, edges.last().2)] + out_named(edges.drop_last(), from)
    } else {
        out_named(edges.drop_last(), from)
    }
}

/// The view of an edge list.
pub open spec fn edge_list_view<W>(edges: Seq<(String, String, W)>) -> Seq<(Seq<char>, Seq<char>, W)> {
    edges.map_values(|e: (String, String, W)| (e.0@, e.1@, e.2))
}

/// Adding edges keeps the names already there, in place, and adds at most
/// two names per edge.
pub proof fn lemma_names_after_prefix<W>(start: Seq<Seq<char>>, edges: Seq<(Seq<char>, Seq<char>, W)>)
    ensures
        names_after(start, edges).len() >= start.len(),
        forall|i: int| 0 <= i < start.len() ==> #[trigger] names_after(start, edges)[i] == start[i],
        forall|x: Seq<char>| start.contains(x) ==> #[trigger] names_after(start, edges).contains(x),
        names_after(start, edges).len() <= start.len() + 2 * edges.len(),
    decreases edges.len(),
{
    if edges.len() > 0 {
        lemma_names_after_prefix(start, edges.drop_last());
        let m = names_after(start, edges.drop_last());
        let m1 = add_name(m, edges.last().0);
        assert forall|x: Seq<char>| start.contains(x) implies #[trigger] names_after(start, edges).contains(x) by {
            assert(m.contains(x));
            let k = m.index_of(x);
            assert(m1[k] == x);
            assert(add_name(m1, edges.last().1)[k] == x);
        }
    }
}

proof fn lemma_out_named_absent<W>(start: Seq<Seq<char>>, edges: Seq<(Seq<char>, Seq<char>, W)>, x: Seq<char>)
    requires
        !names_after(start, edges).contains(x),
    ensures
        out_named(edges, x) == Seq::<(Seq<char>, W)>::empty(),
    decreases edges.len(),
{
    if edges.len() > 0 {
        let m = names_after(start, edges.drop_last());
        let m1 = add_name(m, edges.last().0);
        let m2 = add_name(m1, edges.last().1);
        if m.contains(x) {
            let k = m.index_of(x);
            assert(m1[k] == x);
            assert(m2[k] == x);
        }
        if edges.last().0 == x {
            assert(m1.contains(x)) by {
                if !m.contains(x) {
                    assert(m1[m.len() as int] == x);
                }
            }
            let k = m1.index_of(x);
            assert(m2[k] == x);
        }
        lemma_out_named_absent(start, edges.drop_last(), x);
    }
}

// ── SolverGraph ───────────────────────────────────────────────────────────────

/// Directed graph over unique string node ids, with a weight of type `W` on
/// each edge. Node `i` is the `i`-th node added.
pub struct SolverGraph<W> {
    graph: Graph<String, usize, Directed, u32>,
    weights: Vec<W>,
}

impl<W> SolverGraph<W> {
    closed spec fn contents(&self) -> Seq<(Seq<char>, Seq<(usize, usize)>)> {
        digraph_contents(self.graph)
    }

    /// Node names, by node index.
    pub closed spec fn names(&self) -> Seq<Seq<char>> {
        self.contents().map_values(|c: (Seq<char>, Seq<(usize, usize)>)| c.0)
    }

    /// Number of nodes.
    pub open spec fn n(&self) -> nat {
        self.names().len()
    }

    /// Outgoing edges of node `i` as `(target, weight)`, most recent first.
    pub closed spec fn out_edges(&self, i: int) -> Seq<(usize, W)> {
        self.contents()[i].1.map_values(|e: (usize, usize)| (e.0, self.weights@[e.1 as int]))
    }

    /// Outgoing edges of `i`, or none when `i` is not a node.
    pub open spec fn edges_or_empty(&self, i: int) -> Seq<(usize, W)> {
        if 0 <= i < self.n() {
            self.out_edges(i)
        } else {
            Seq::empty()
        }
    }

    /// Number of edges.
    pub closed spec fn edge_count_spec(&self) -> nat {
        self.weights@.len()
    }

    /// There is an edge `u -> v`.
    pub open spec fn has_edge(&self, u: int, v: int) -> bool {
        0 <= u < self.n() && exists|k: int|
            0 <= k < self.out_edges(u).len() && #[trigger] self.out_edges(u)[k].0 == v
    }

    /// Well-formedness: unique names, edge targets are nodes, the weight list
    /// has one entry per edge.
    pub closed spec fn wf(&self) -> bool {
        &&& self.names().no_duplicates()
        &&& forall|i: int, k: int|
            0 <= i < self.contents().len() && 0 <= k < self.contents()[i].1.len() ==> {
                &&& (#[trigger] self.contents()[i].1[k]).0 < self.contents().len()
                &&& self.contents()[i].1[k].1 < self.weights@.len()
            }
        &&& edge_total(self.contents()) == self.weights@.len()
        &&& self.contents().len() < u32::MAX
    }

    /// Every edge leaving a node ends at a node.
    pub proof fn lemma_out_edges_targets(&self, i: int)
        requires
            self.wf(),
            0 <= i < self.n(),
        ensures
            forall|k: int|
                0 <= k < self.out_edges(i).len() ==> (#[trigger] self.out_edges(i)[k]).0
                    < self.n(),
    {
        assert forall|k: int| 0 <= k < self.out_edges(i).len() implies (
        #[trigger] self.out_edges(i)[k]).0 < self.n() by {
            assert(self.contents()[i].1[k].0 < self.contents().len());
        }
    }

    /// Creates an empty graph.
    pub fn new() -> (g: Self)
        ensures
            g.wf(),
            g.n() == 0,
            g.edge_count_spec() == 0,
    {
        let g = SolverGraph { graph: digraph_new(), weights: Vec::new() };
        assert(g.names() =~= Seq::<Seq<char>>::empty());
        g
    }

    /// Number of nodes.
    pub fn node_count(&self) -> (n: usize)
        ensures
            n == self.n(),
    {
        digraph_node_count(&self.graph)
    }

    /// Number of edges.
    pub fn edge_count(&self) -> (n: usize)
        ensures
            n == self.edge_count_spec(),
    {
        self.weights.len()
    }

    /// The index of the node named `id`, if there is one.
    pub fn node_index(&self, id: &str) -> (r: Option<usize>)
        requires
            self.wf(),
        ensures
            match r {
                Some(i) => i < self.n() && self.names()[i as int] == id@,
                None => !self.names().contains(id@),
            },
    {
        let key: String = id.to_owned();
        let n = digraph_node_count(&self.graph);
        let mut i: usize = 0;
        while i < n
            invariant
                n == self.n(),
                i <= n,
                key@ == id@,
                forall|j: int| 0 <= j < i ==> self.names()[j] != id@,
            decreases n - i,
        {
            let name = digraph_node_name(&self.graph, i);
            if *name == key {
                return Some(i);
            }
            i = i + 1;
        }
        None
    }

    /// The name of node `idx`.
    pub fn node_id(&self, idx: usize) -> (s: &str)
        requires
            idx < self.n(),
        ensures
            s@ == self.names()[idx as int],
    {
        digraph_node_name(&self.graph, idx).as_str()
    }

    /// Adds a node named `id` and returns its index; when the name is already
    /// present, returns the existing index and changes nothing.
    pub fn add_node(&mut self, id: &str) -> (idx: usize)
        requires
            old(self).wf(),
            old(self).n() + 1 < u32::MAX,
        ensures
            final(self).wf(),
            final(self).names() == add_name(old(self).names(), id@),
            idx < final(self).n(),
            final(self).names()[idx as int] == id@,
            forall|i: int| 0 <= i < final(self).n() ==> #[trigger] final(self).out_edges(i)
                == old(self).edges_or_empty(i),
            final(self).edge_count_spec() == old(self).edge_count_spec(),
    {
        match self.node_index(id) {
            Some(i) => {
                assert(old(self).names().contains(id@));
                i
            },
            None => {
                let ghost c0 = self.contents();
                let i = digraph_add_node(&mut self.graph, id.to_owned());
                proof {
                    lemma_edge_total_push(c0, id@);
                    assert(self.names() =~= old(self).names().push(id@));
                    assert forall|j: int| 0 <= j < self.n() implies #[trigger] self.out_edges(j)
                        == old(self).edges_or_empty(j) by {
                        if j < c0.len() {
                            assert(self.out_edges(j) =~= old(self).out_edges(j));
                        } else {
                            assert(self.out_edges(j) =~= Seq::<(usize, W)>::empty());
                        }
                    }
                    assert forall|a: int, b: int|
                        #![trigger self.names()[a], self.names()[b]]
                        0 <= a < self.names().len() && 0 <= b < self.names().len() && a != b
                        implies self.names()[a] != self.names()[b] by {
                        if a < c0.len() && b < c0.len() {
                            assert(old(self).names()[a] != old(self).names()[b]);
                        } else if a < c0.len() {
                            assert(old(self).names()[a] != id@);
                        } else if b < c0.len() {
                            assert(old(self).names()[b] != id@);
                        }
                    }
                }
                i
            },
        }
    }

    /// Adds the edge `from -> to` with weight `w`, adding either endpoint
    /// first if it is not yet a node (`from` before `to`).
    pub fn add_edge(&mut self, from: &str, to: &str, w: W)
        requires
            old(self).wf(),
            old(self).n() + 2 < u32::MAX,
            old(self).edge_count_spec() + 1 < u32::MAX,
        ensures
            final(self).wf(),
            final(self).names() == add_name(add_name(old(self).names(), from@), to@),
            final(self).edge_count_spec() == old(self).edge_count_spec() + 1,
            ({
                let a = name_pos(final(self).names(), from@);
                let b = name_pos(final(self).names(), to@);
                &&& 0 <= a < final(self).n()
                &&& final(self).names()[a] == from@
                &&& 0 <= b < final(self).n()
                &&& final(self).names()[b] == to@
                &&& final(self).out_edges(a) == seq![(b as usize, w)] + old(self).edges_or_empty(a)
                &&& forall|i: int|
                    0 <= i < final(self).n() && i != a ==> #[trigger] final(self).out_edges(i)
                        == old(self).edges_or_empty(i)
            }),
    {
        let ghost s0 = *self;
        let a = self.add_node(from);
        let ghost s1 = *self;
        let b = self.add_node(to);
        let ghost s2 = *self;
        let payload = self.weights.len();
        let ghost c2 = self.contents();
        proof {
            lemma_edge_total_update(c2, a as int, (b, payload));
        }
        digraph_add_edge(&mut self.graph, a, b, payload);
        self.weights.push(w);
        proof {
            let c3 = self.contents();
            assert(self.names() =~= s2.names()) by {
                assert forall|j: int| 0 <= j < self.names().len() implies self.names()[j]
                    == s2.names()[j] by {
                    if j == a {
                    } else {
                    }
                }
            }
            assert forall|i: int, k: int|
                0 <= i < c3.len() && 0 <= k < c3[i].1.len() implies {
                &&& (#[trigger] c3[i].1[k]).0 < c3.len()
                &&& c3[i].1[k].1 < self.weights@.len()
            } by {
                if i == a && k == 0 {
                } else if i == a {
                    assert(c3[i].1[k] == c2[i].1[k - 1]);
                } else {
                    assert(c3[i].1[k] == c2[i].1[k]);
                }
            }
            assert(self.names()[a as int] == from@);
            assert(self.names()[b as int] == to@);
            let pa = name_pos(self.names(), from@);
            let pb = name_pos(self.names(), to@);
            assert(pa == a as int) by {
                assert(self.names().no_duplicates());
            }
            assert(pb == b as int) by {
                assert(self.names().no_duplicates());
            }
            assert forall|i: int| 0 <= i < self.n() implies #[trigger] self.out_edges(i)
                == (if i == a { seq![(b, w)] + s0.edges_or_empty(i) } else { s0.edges_or_empty(i) })
                by {
                assert(s2.out_edges(i) == s1.edges_or_empty(i));
                if i < s1.n() {
                    assert(s1.out_edges(i) == s0.edges_or_empty(i));
                }
                if i == a {
                    assert(self.out_edges(i) =~= seq![(b, w)] + s2.out_edges(i));
                } else {
                    assert(self.out_edges(i) =~= s2.out_edges(i));
                }
            }
        }
    }

    /// The outgoing edges of `idx` as `(target, weight)`, ordered by the
    /// name of the target (ties keep petgraph's order).
    pub fn sorted_neighbors(&self, idx: usize) -> (r: Vec<(usize, W)>)
        where
            W: Copy,
        requires
            self.wf(),
            idx < self.n(),
        ensures
            r@.to_multiset() == self.out_edges(idx as int).to_multiset(),
            forall|k: int| 0 <= k < r@.len() ==> (#[trigger] r@[k]).0 < self.n(),
            forall|p: int, q: int|
                0 <= p < q < r@.len() ==> lex_le(
                    self.names()[(#[trigger] r@[p]).0 as int],
                    self.names()[(#[trigger] r@[q]).0 as int],
                ),
            forall|t: usize|
                #[trigger] r@.filter(to_target::<W>(t)) == self.out_edges(idx as int).filter(
                    to_target::<W>(t),
                ),
    {
        broadcast use vstd::seq_lib::group_to_multiset_ensures;

        let raw = digraph_out_edges(&self.graph, idx);
        proof {
            self.lemma_out_edges_targets(idx as int);
        }
        let ghost src = self.out_edges(idx as int);
        let mut out: Vec<(usize, W)> = Vec::new();
        let mut keys: Vec<Vec<char>> = Vec::new();
        let mut i: usize = 0;
        proof {
            self.lemma_names_unique();
            assert forall|t: usize| #[trigger] out@.filter(to_target::<W>(t)) == src.take(0).filter(to_target::<W>(t)) by {
                reveal(Seq::filter);
                assert(src.take(0) =~= Seq::<(usize, W)>::empty());
            }
        }
        while i < raw.len()
            invariant
                self.wf(),
                idx < self.n(),
                raw@ == self.contents()[idx as int].1,
                src == self.out_edges(idx as int),
                src.len() == raw@.len(),
                forall|k: int| 0 <= k < src.len() ==> (#[trigger] src[k]).0 < self.n(),
                i <= raw.len(),
                out@.to_multiset() == src.take(i as int).to_multiset(),
                keys@.len() == out@.len(),
                forall|k: int| 0 <= k < out@.len() ==> (#[trigger] out@[k]).0 < self.n(),
                forall|k: int|
                    0 <= k < out@.len() ==> (#[trigger] keys@[k])@ == self.names()[out@[k].0 as int],
                forall|p: int, q: int|
                    0 <= p < q < out@.len() ==> lex_le(
                        (#[trigger] keys@[p])@,
                        (#[trigger] keys@[q])@,
                    ),
                self.names().no_duplicates(),
                forall|t: usize|
                    #[trigger] out@.filter(to_target::<W>(t)) == src.take(i as int).filter(
                        to_target::<W>(t),
                    ),
            decreases raw.len() - i,
        {
            let (t, pl) = raw[i];
            proof {
                assert(self.contents()[idx as int].1[i as int] == (t, pl));
                assert(pl < self.weights@.len());
            }
            let w = self.weights[pl];
            let e = (t, w);
            assert(src[i as int] == e);
            let key = chars_of(self.node_id(t));
            let mut j: usize = 0;
            while j < out.len() && !lex_less(&key, &keys[j])
                invariant
                    j <= out@.len(),
                    keys@.len() == out@.len(),
                    forall|k: int| 0 <= k < j ==> !lex_lt(key@, (#[trigger] keys@[k])@),
                decreases out@.len() - j,
            {
                j = j + 1;
            }
            let ghost old_out = out@;
            let ghost old_keys = keys@;
            out.insert(j, e);
            keys.insert(j, key);
            proof {
                assert(out@.remove(j as int) =~= old_out);
                assert(out@[j as int] == e);
                assert(src.take(i + 1) =~= src.take(i as int).push(e));
                src.take(i as int).to_multiset_ensures();
                assert(out@.to_multiset() =~= old_out.to_multiset().insert(e)) by {
                    out@.to_multiset_ensures();
                    assert(out@.remove(j as int).to_multiset() =~= out@.to_multiset().remove(e));
                    assert(out@.contains(e));
                    assert(out@.to_multiset().count(e) > 0);
                }
                assert forall|k: int| 0 <= k < j implies lex_le((#[trigger] old_keys[k])@, key@) by {
                    lemma_lex_total(old_keys[k]@, key@);
                }
                if j < old_keys.len() {
                    assert(lex_lt(key@, old_keys[j as int]@));
                }
                assert forall|k: int| j < k < old_keys.len() implies lex_le(key@, (#[trigger] old_keys[k])@) by {
                    assert(lex_le(old_keys[j as int]@, old_keys[k]@));
                    if old_keys[j as int]@ != old_keys[k]@ {
                        lemma_lex_transitive(key@, old_keys[j as int]@, old_keys[k]@);
                    }
                }
                assert forall|p: int, q: int| 0 <= p < q < out@.len() implies lex_le(
                    (#[trigger] keys@[p])@,
                    (#[trigger] keys@[q])@,
                ) by {
                    if p < j && q < j {
                        assert(keys@[p] == old_keys[p] && keys@[q] == old_keys[q]);
                    } else if p < j && q == j {
                    } else if p < j {
                        assert(keys@[p] == old_keys[p] && keys@[q] == old_keys[q - 1]);
                        assert(lex_le(old_keys[p]@, key@));
                        if j < old_keys.len() {
                            assert(lex_le(key@, old_keys[q - 1]@));
                            crate::text::lemma_lex_le_transitive(old_keys[p]@, key@, old_keys[q - 1]@);
                        }
                    } else if p == j {
                        assert(keys@[q] == old_keys[q - 1]);
                    } else {
                        assert(keys@[p] == old_keys[p - 1] && keys@[q] == old_keys[q - 1]);
                    }
                }
                assert forall|k: int| 0 <= k < out@.len() implies (#[trigger] keys@[k])@ == self.names()[out@[k].0 as int] by {
                    if k < j {
                        assert(keys@[k] == old_keys[k] && out@[k] == old_out[k]);
                    } else if k > j {
                        assert(keys@[k] == old_keys[k - 1] && out@[k] == old_out[k - 1]);
                    }
                }
                assert forall|k: int| 0 <= k < out@.len() implies (#[trigger] out@[k]).0 < self.n() by {
                    if k < j {
                        assert(out@[k] == old_out[k]);
                    } else if k > j {
                        assert(out@[k] == old_out[k - 1]);
                    }
                }
                assert forall|k: int| j <= k < old_keys.len() implies lex_lt(key@, (#[trigger] old_keys[k])@) by {
                    if k > j {
                        assert(lex_le(old_keys[j as int]@, old_keys[k]@));
                        if old_keys[j as int]@ != old_keys[k]@ {
                            lemma_lex_transitive(key@, old_keys[j as int]@, old_keys[k]@);
                        }
                    }
                }
                lemma_insert_filter_stable(self.names(), old_out, old_keys, j as int, e, key@, src.take(i as int));
            }
            i = i + 1;
        }
        proof {
            assert(src.take(raw@.len() as int) =~= src);
            assert forall|p: int, q: int|
                0 <= p < q < out@.len() implies lex_le(
                    self.names()[(#[trigger] out@[p]).0 as int],
                    self.names()[(#[trigger] out@[q]).0 as int],
                ) by {
                assert(lex_le(keys@[p]@, keys@[q]@));
            }
        }
        out
    }

    /// Edges into `v` from nodes `0..m` that are not marked in `done`.
    pub closed spec fn pending_in(&self, done: Seq<bool>, v: int, m: int) -> nat
        decreases m,
    {
        if m <= 0 {
            0
        } else {
            self.pending_in(done, v, m - 1) + if done[m - 1] {
                0
            } else {
                count_to(self.out_edges(m - 1), v)
            }
        }
    }

    proof fn lemma_pending_zero(&self, done: Seq<bool>, v: int, m: int)
        requires
            0 <= m <= self.n(),
        ensures
            self.pending_in(done, v, m) == 0 <==> forall|u: int|
                0 <= u < m && !done[u] ==> count_to(#[trigger] self.out_edges(u), v) == 0,
        decreases m,
    {
        if m > 0 {
            self.lemma_pending_zero(done, v, m - 1);
        }
    }

    proof fn lemma_pending_flip(&self, done: Seq<bool>, x: int, v: int, m: int)
        requires
            0 <= m <= self.n(),
            done.len() == self.n(),
            0 <= x < done.len(),
            !done[x],
        ensures
            self.pending_in(done.update(x, true), v, m) + (if x < m {
                count_to(self.out_edges(x), v)
            } else {
                0
            }) == self.pending_in(done, v, m),
        decreases m,
    {
        if m > 0 {
            self.lemma_pending_flip(done, x, v, m - 1);
            let d2 = done.update(x, true);
            assert(self.pending_in(d2, v, m) == self.pending_in(d2, v, m - 1) + if d2[m - 1] {
                0
            } else {
                count_to(self.out_edges(m - 1), v)
            });
            assert(self.pending_in(done, v, m) == self.pending_in(done, v, m - 1) + if done[m - 1] {
                0
            } else {
                count_to(self.out_edges(m - 1), v)
            });
            if m - 1 != x {
                assert(d2[m - 1] == done[m - 1]);
            }
        }
    }

    proof fn lemma_pending_ge(&self, done: Seq<bool>, x: int, v: int, m: int)
        requires
            0 <= x < m <= self.n(),
            !done[x],
        ensures
            self.pending_in(done, v, m) >= count_to(self.out_edges(x), v),
        decreases m,
    {
        if m - 1 > x {
            self.lemma_pending_ge(done, x, v, m - 1);
        }
    }

    /// `v` is not yet in `prefix` and all its predecessors are.
    pub open spec fn ready(&self, prefix: Seq<usize>, v: int) -> bool {
        &&& 0 <= v < self.n()
        &&& !prefix.contains(v as usize)
        &&& forall|u: int| #[trigger] self.has_edge(u, v) ==> prefix.contains(u as usize)
    }

    /// `order` lists every node once, and every edge goes from an earlier to a
    /// later position.
    pub open spec fn is_topo_order(&self, order: Seq<usize>) -> bool {
        &&& forall|i: int| 0 <= i < order.len() ==> (#[trigger] order[i]) < self.n()
        &&& order.no_duplicates()
        &&& forall|v: usize| (v as int) < self.n() ==> #[trigger] order.contains(v)
        &&& forall|i: int, j: int|
            0 <= i < order.len() && 0 <= j < order.len() && self.has_edge(
                #[trigger] order[j] as int,
                #[trigger] order[i] as int,
            ) ==> j < i
    }

    /// The graph has no directed cycle: some topological order exists.
    pub open spec fn is_acyclic(&self) -> bool {
        exists|order: Seq<usize>| self.is_topo_order(order)
    }

    /// Each entry of `order` is, among the nodes ready after the entries
    /// before it, the one with the smallest name.
    pub open spec fn is_lex_first(&self, order: Seq<usize>) -> bool {
        forall|i: int|
            0 <= i < order.len() ==> {
                &&& self.ready(order.take(i), #[trigger] order[i] as int)
                &&& forall|v: int|
                    self.ready(order.take(i), v) ==> lex_le(
                        self.names()[order[i] as int],
                        #[trigger] self.names()[v],
                    )
            }
    }

    proof fn lemma_has_edge_count(&self, u: int, v: int)
        requires
            0 <= u < self.n(),
        ensures
            self.has_edge(u, v) <==> count_to(self.out_edges(u), v) != 0,
    {
        lemma_count_to_zero(self.out_edges(u), v);
    }

    proof fn lemma_ready_iff(&self, done: Seq<bool>, order: Seq<usize>, v: int)
        requires
            done.len() == self.n(),
            forall|u: int| 0 <= u < self.n() ==> (done[u] <==> order.contains(u as usize)),
            0 <= v < self.n(),
        ensures
            self.ready(order, v) <==> (!done[v] && self.pending_in(done, v, self.n() as int) == 0),
    {
        self.lemma_pending_zero(done, v, self.n() as int);
        if !done[v] && self.pending_in(done, v, self.n() as int) == 0 {
            assert forall|u: int| #[trigger] self.has_edge(u, v) implies order.contains(u as usize) by {
                self.lemma_has_edge_count(u, v);
                if !done[u] {
                    assert(count_to(self.out_edges(u), v) == 0);
                }
            }
        }
        if self.ready(order, v) {
            assert forall|u: int| 0 <= u < self.n() && !done[u] implies count_to(
                #[trigger] self.out_edges(u),
                v,
            ) == 0 by {
                self.lemma_has_edge_count(u, v);
            }
        }
    }

    proof fn lemma_stuck_prefix(&self, done: Seq<usize>, p: Seq<usize>, m: int)
        requires
            self.wf(),
            self.is_topo_order(p),
            0 <= m <= p.len(),
            forall|v: int| 0 <= v < self.n() && !done.contains(v as usize) ==> !self.ready(done, v),
        ensures
            forall|k: int| 0 <= k < m ==> done.contains(#[trigger] p[k]),
        decreases m,
    {
        if m > 0 {
            self.lemma_stuck_prefix(done, p, m - 1);
            let w = p[m - 1] as int;
            if !done.contains(w as usize) {
                assert(!self.ready(done, w));
                let u = choose|u: int| #[trigger] self.has_edge(u, w) && !done.contains(u as usize);
                assert(0 <= u < self.n());
                let j = p.index_of(u as usize);
                assert(p.contains(u as usize));
                assert(p[j] == u as usize);
                assert(self.has_edge(p[j] as int, p[m - 1] as int));
                assert(j < m - 1);
            }
        }
    }

    proof fn lemma_stuck_not_acyclic(&self, done: Seq<usize>, w: int)
        requires
            self.wf(),
            0 <= w < self.n(),
            !done.contains(w as usize),
            forall|v: int| 0 <= v < self.n() && !done.contains(v as usize) ==> !self.ready(done, v),
        ensures
            !self.is_acyclic(),
    {
        if self.is_acyclic() {
            let p = choose|p: Seq<usize>| self.is_topo_order(p);
            self.lemma_stuck_prefix(done, p, p.len() as int);
            assert(p.contains(w as usize));
            let k = p.index_of(w as usize);
            assert(done.contains(p[k]));
        }
    }

    /// Kahn's topological sort; among the nodes that are ready at each step
    /// the one with the smallest name comes first. Fails with `BuildFailed`
    /// when the graph has a cycle.
    pub fn sorted_kahn_topo_sort(&self) -> (r: Result<Vec<usize>, SolverError>)
        requires
            self.wf(),
        ensures
            r is Ok <==> self.is_acyclic(),
            r matches Ok(order) ==> self.is_topo_order(order@) && self.is_lex_first(order@),
            r matches Err(e) ==> e is BuildFailed,
    {
        let n = self.node_count();
        let ghost c = self.contents();
        // names, as character vectors
        let mut names: Vec<Vec<char>> = Vec::new();
        let mut i: usize = 0;
        while i < n
            invariant
                n == self.n(),
                i <= n,
                names@.len() == i,
                forall|k: int| 0 <= k < i ==> (#[trigger] names@[k])@ == self.names()[k],
            decreases n - i,
        {
            names.push(chars_of(self.node_id(i)));
            i = i + 1;
        }
        // in-degrees
        let ghost none_done = Seq::new(n as nat, |k: int| false);
        let mut indeg: Vec<usize> = Vec::new();
        let mut done: Vec<bool> = Vec::new();
        let mut i: usize = 0;
        while i < n
            invariant
                n == self.n(),
                i <= n,
                indeg@.len() == i,
                done@.len() == i,
                forall|k: int| 0 <= k < i ==> indeg@[k] == 0 && !done@[k],
            decreases n - i,
        {
            indeg.push(0);
            done.push(false);
            i = i + 1;
        }
        assert(done@ =~= none_done);
        let ghost mut seen: nat = 0;
        let wlen = self.weights.len();
        let mut u: usize = 0;
        while u < n
            invariant
                self.wf(),
                c == self.contents(),
                n == self.n(),
                u <= n,
                indeg@.len() == n,
                forall|v: int| 0 <= v < n ==> #[trigger] indeg@[v] == self.pending_in(none_done, v, u as int),
                forall|v: int| 0 <= v < n ==> #[trigger] indeg@[v] <= seen,
                seen == edge_total(c.take(u as int)),
                wlen == self.weights@.len(),
                none_done == Seq::new(n as nat, |k: int| false),
            decreases n - u,
        {
            let raw = digraph_out_edges(&self.graph, u);
            proof {
                lemma_edge_total_take(c, u as int);
                lemma_edge_total_take(c, u + 1);
                self.lemma_out_edges_targets(u as int);
            }
            let ghost out_u = self.out_edges(u as int);
            let mut k: usize = 0;
            while k < raw.len()
                invariant
                    self.wf(),
                    c == self.contents(),
                    n == self.n(),
                    u < n,
                    raw@ == c[u as int].1,
                    out_u == self.out_edges(u as int),
                    forall|q: int| 0 <= q < out_u.len() ==> (#[trigger] out_u[q]).0 < n,
                    k <= raw.len(),
                    indeg@.len() == n,
                    forall|v: int| 0 <= v < n ==> #[trigger] indeg@[v] == self.pending_in(none_done, v, u as int) + count_to(out_u.take(k as int), v),
                    forall|v: int| 0 <= v < n ==> #[trigger] indeg@[v] <= seen,
                    seen == edge_total(c.take(u as int)) + k,
                    edge_total(c.take(u as int)) + raw.len() <= edge_total(c),
                    edge_total(c) == self.weights@.len(),
                    wlen == self.weights@.len(),
                decreases raw.len() - k,
            {
                let t = raw[k].0;
                assert(out_u[k as int].0 == t);
                proof {
                    assert forall|v: int| 0 <= v < n implies count_to(out_u.take(k + 1), v) == count_to(out_u.take(k as int), v) + (if out_u[k as int].0 == v { 1nat } else { 0nat }) by {
                        lemma_count_to_take_step(out_u, k as int, v);
                    }
                }
                indeg.set(t, indeg[t] + 1);
                proof {
                    seen = seen + 1;
                }
                k = k + 1;
            }
            proof {
                assert(out_u.take(raw@.len() as int) =~= out_u);
                assert forall|v: int| 0 <= v < n implies self.pending_in(none_done, v, u + 1)
                    == self.pending_in(none_done, v, u as int) + count_to(out_u, v) by {
                    assert(!none_done[u as int]);
                }
            }
            u = u + 1;
        }
        let mut order: Vec<usize> = Vec::new();
        loop
            invariant
                self.wf(),
                n == self.n(),
                names@.len() == n,
                forall|k: int| 0 <= k < n ==> (#[trigger] names@[k])@ == self.names()[k],
                indeg@.len() == n,
                done@.len() == n,
                forall|v: int| 0 <= v < n ==> #[trigger] indeg@[v] == self.pending_in(done@, v, n as int),
                forall|v: int| 0 <= v < n ==> (done@[v] <==> order@.contains(v as usize)),
                order@.no_duplicates(),
                forall|q: int| 0 <= q < order@.len() ==> (#[trigger] order@[q]) < n,
                self.is_lex_first(order@),
            ensures
                self.wf(),
                n == self.n(),
                done@.len() == n,
                indeg@.len() == n,
                forall|v: int| 0 <= v < n ==> #[trigger] indeg@[v] == self.pending_in(done@, v, n as int),
                forall|v: int| 0 <= v < n ==> (done@[v] <==> order@.contains(v as usize)),
                order@.no_duplicates(),
                forall|q: int| 0 <= q < order@.len() ==> (#[trigger] order@[q]) < n,
                self.is_lex_first(order@),
                forall|k: int| 0 <= k < n ==> !(!(#[trigger] done@[k]) && indeg@[k] == 0),
            decreases n - order@.len(),
        {
            proof {
                lemma_distinct_bounded_len(order@, n as nat);
            }
            let mut best: Option<usize> = None;
            let mut v: usize = 0;
            while v < n
                invariant
                    self.wf(),
                    n == self.n(),
                    v <= n,
                    names@.len() == n,
                    indeg@.len() == n,
                    done@.len() == n,
                    forall|k: int| 0 <= k < n ==> (#[trigger] names@[k])@ == self.names()[k],
                    match best {
                        Some(b) => b < v && !done@[b as int] && indeg@[b as int] == 0
                            && forall|q: int| 0 <= q < v && !done@[q] && indeg@[q] == 0 ==> lex_le(names@[b as int]@, (#[trigger] names@[q])@),
                        None => forall|q: int| 0 <= q < v ==> !(!(#[trigger] done@[q]) && indeg@[q] == 0),
                    },
                decreases n - v,
            {
                if !done[v] && indeg[v] == 0 {
                    match best {
                        None => {
                            best = Some(v);
                        },
                        Some(b) => {
                            if lex_less(&names[v], &names[b]) {
                                proof {
                                    assert forall|q: int| 0 <= q < v && !done@[q] && indeg@[q] == 0 implies lex_le(names@[v as int]@, (#[trigger] names@[q])@) by {
                                        assert(lex_le(names@[b as int]@, names@[q]@));
                                        if names@[b as int]@ != names@[q]@ {
                                            lemma_lex_transitive(names@[v as int]@, names@[b as int]@, names@[q]@);
                                        }
                                    }
                                }
                                best = Some(v);
                            } else {
                                proof {
                                    lemma_lex_total(names@[b as int]@, names@[v as int]@);
                                }
                            }
                        },
                    }
                }
                v = v + 1;
            }
            match best {
                None => {
                    break;
                },
                Some(x) => {
                    let ghost done0 = done@;
                    let ghost order0 = order@;
                    proof {
                        assert forall|q: int| 0 <= q < n implies (self.ready(order0, q) <==> (!done0[q] && indeg@[q] == 0)) by {
                            self.lemma_ready_iff(done0, order0, q);
                        }
                        assert(self.ready(order0, x as int));
                        assert forall|q: int| self.ready(order0, q) implies lex_le(self.names()[x as int], #[trigger] self.names()[q]) by {
                            assert(lex_le(names@[x as int]@, names@[q]@));
                        }
                    }
                    done.set(x, true);
                    order.push(x);
                    proof {
                        assert forall|q: int| 0 <= q < order@.len() - 1 implies order@.take(q) == #[trigger] order0.take(q) by {
                            assert(order@.take(q) =~= order0.take(q));
                        }
                        assert(order@.take(order0.len() as int) =~= order0);
                        assert forall|q: int| 0 <= q < n implies (done@[q] <==> order@.contains(q as usize)) by {
                            if q == x as int {
                                assert(order@[order0.len() as int] == x);
                            } else {
                                if order@.contains(q as usize) {
                                    let k = order@.index_of(q as usize);
                                    assert(k < order0.len());
                                    assert(order0[k] == q as usize);
                                }
                                if order0.contains(q as usize) {
                                    let k = order0.index_of(q as usize);
                                    assert(order@[k] == q as usize);
                                }
                            }
                        }
                        assert forall|a: int, b: int| 0 <= a < order@.len() && 0 <= b < order@.len() && a != b implies order@[a] != order@[b] by {
                            if a < order0.len() && b < order0.len() {
                            } else if a < order0.len() {
                                assert(order0.contains(order@[a]));
                            } else if b < order0.len() {
                                assert(order0.contains(order@[b]));
                            }
                        }
                        assert(self.is_lex_first(order@)) by {
                            assert forall|i: int| 0 <= i < order@.len() implies {
                                &&& self.ready(order@.take(i), #[trigger] order@[i] as int)
                                &&& forall|v: int| self.ready(order@.take(i), v) ==> lex_le(self.names()[order@[i] as int], #[trigger] self.names()[v])
                            } by {
                                if i < order0.len() {
                                    assert(order@.take(i) == order0.take(i));
                                    assert(order@[i] == order0[i]);
                                }
                            }
                        }
                    }
                    let raw = digraph_out_edges(&self.graph, x);
                    proof {
                        self.lemma_out_edges_targets(x as int);
                    }
                    let ghost out_x = self.out_edges(x as int);
                    let mut k: usize = 0;
                    while k < raw.len()
                        invariant
                            self.wf(),
                            n == self.n(),
                            x < n,
                            !done0[x as int],
                            done0.len() == n,
                            raw@ == self.contents()[x as int].1,
                            out_x == self.out_edges(x as int),
                            forall|q: int| 0 <= q < out_x.len() ==> (#[trigger] out_x[q]).0 < n,
                            k <= raw.len(),
                            indeg@.len() == n,
                            forall|v: int| 0 <= v < n ==> #[trigger] indeg@[v] + count_to(out_x.take(k as int), v) == self.pending_in(done0, v, n as int),
                        decreases raw.len() - k,
                    {
                        let t = raw[k].0;
                        assert(out_x[k as int].0 == t);
                        proof {
                            assert forall|v: int| 0 <= v < n implies count_to(out_x.take(k + 1), v) == count_to(out_x.take(k as int), v) + (if out_x[k as int].0 == v { 1nat } else { 0nat }) by {
                                lemma_count_to_take_step(out_x, k as int, v);
                            }
                            lemma_count_to_take_le(out_x, k + 1, t as int);
                            self.lemma_pending_ge(done0, x as int, t as int, n as int);
                        }
                        indeg.set(t, indeg[t] - 1);
                        k = k + 1;
                    }
                    proof {
                        assert(out_x.take(raw@.len() as int) =~= out_x);
                        assert(done@ =~= done0.update(x as int, true));
                        assert forall|v: int| 0 <= v < n implies #[trigger] indeg@[v] == self.pending_in(done@, v, n as int) by {
                            self.lemma_pending_flip(done0, x as int, v, n as int);
                        }
                        lemma_distinct_bounded_len(order@, n as nat);
                    }
                },
            }
        }
        // every node must have been output
        let mut v: usize = 0;
        while v < n
            invariant
                self.wf(),
                n == self.n(),
                v <= n,
                done@.len() == n,
                indeg@.len() == n,
                forall|k: int| 0 <= k < n ==> #[trigger] indeg@[k] == self.pending_in(done@, k, n as int),
                forall|k: int| 0 <= k < n ==> (done@[k] <==> order@.contains(k as usize)),
                forall|k: int| 0 <= k < n ==> !(!(#[trigger] done@[k]) && indeg@[k] == 0),
                forall|k: int| 0 <= k < v ==> #[trigger] done@[k],
            decreases n - v,
        {
            if !done[v] {
                proof {
                    assert forall|q: int| 0 <= q < n && !order@.contains(q as usize) implies !self.ready(order@, q) by {
                        self.lemma_ready_iff(done@, order@, q);
                    }
                    self.lemma_stuck_not_acyclic(order@, v as int);
                }
                return Err(SolverError::BuildFailed("cycle detected in solver graph".to_owned()));
            }
            v = v + 1;
        }
        proof {
            assert forall|i: int, j: int|
                0 <= i < order@.len() && 0 <= j < order@.len() && self.has_edge(
                    #[trigger] order@[j] as int,
                    #[trigger] order@[i] as int,
                ) implies j < i by {
                assert(self.ready(order@.take(i), order@[i] as int));
                assert(order@.take(i).contains(order@[j]));
                let k = order@.take(i).index_of(order@[j]);
                assert(order@[k] == order@[j]);
            }
            assert forall|v: usize| (v as int) < self.n() implies #[trigger] order@.contains(v) by {
                assert(done@[v as int]);
            }
            assert(self.is_topo_order(order@));
        }
        Ok(order)
    }

    /// `res[j]` is the first entry of `res` with an edge to `res[k]`.
    pub open spec fn is_first_parent(&self, res: Seq<usize>, j: int, k: int) -> bool {
        &&& 0 <= j < k < res.len()
        &&& self.has_edge(res[j] as int, res[k] as int)
        &&& forall|i: int| 0 <= i < j ==> !self.has_edge(#[trigger] res[i] as int, res[k] as int)
    }

    /// Some earlier entry of `res` has an edge to `res[k]`.
    pub open spec fn has_first_parent(&self, res: Seq<usize>, k: int, bound: int) -> bool {
        exists|j: int| j < bound && #[trigger] self.is_first_parent(res, j, k)
    }

    /// `res` is the breadth-first visit order from `root` in which the
    /// successors of each node are taken in the order of their names: it
    /// starts at `root`, lists every node reachable from `root` once, and is
    /// sorted by (position of the first predecessor, name).
    pub open spec fn is_bfs_order(&self, root: usize, res: Seq<usize>) -> bool {
        &&& res.len() > 0
        &&& res[0] == root
        &&& res.no_duplicates()
        &&& forall|k: int| 0 <= k < res.len() ==> (#[trigger] res[k]) < self.n()
        &&& forall|j: int, t: int|
            0 <= j < res.len() && #[trigger] self.has_edge(res[j] as int, t) ==> res.contains(
                t as usize,
            )
        &&& forall|k: int| 1 <= k < res.len() ==> #[trigger] self.has_first_parent(res, k, k)
        &&& forall|k1: int, k2: int, j1: int, j2: int|
            1 <= k1 < k2 < res.len() && #[trigger] self.is_first_parent(res, j1, k1)
                && #[trigger] self.is_first_parent(res, j2, k2) ==> j1 < j2 || (j1 == j2
                && lex_lt(self.names()[res[k1] as int], self.names()[res[k2] as int]))
    }

    proof fn lemma_first_parent_unique(&self, res: Seq<usize>, j1: int, j2: int, k: int)
        requires
            self.is_first_parent(res, j1, k),
            self.is_first_parent(res, j2, k),
        ensures
            j1 == j2,
    {
        if j1 < j2 {
            assert(!self.has_edge(res[j1] as int, res[k] as int));
        } else if j2 < j1 {
            assert(!self.has_edge(res[j2] as int, res[k] as int));
        }
    }

    proof fn lemma_first_parent_push(&self, res: Seq<usize>, x: usize, j: int, k: int)
        requires
            0 <= k < res.len(),
        ensures
            self.is_first_parent(res.push(x), j, k) == self.is_first_parent(res, j, k),
    {
        let r2 = res.push(x);
        if 0 <= j < k {
            assert(r2[j] == res[j]);
            assert(r2[k] == res[k]);
            assert forall|i: int| 0 <= i < j implies r2[i] == res[i] by {}
            if self.is_first_parent(res, j, k) {
                assert forall|i: int| 0 <= i < j implies !self.has_edge(#[trigger] r2[i] as int, r2[k] as int) by {
                    assert(r2[i] == res[i]);
                }
            }
            if self.is_first_parent(r2, j, k) {
                assert forall|i: int| 0 <= i < j implies !self.has_edge(#[trigger] res[i] as int, res[k] as int) by {
                    assert(r2[i] == res[i]);
                }
            }
        }
    }

    /// `e = (p, c, w)` is the edge by which the breadth-first search `res`
    /// reached its `k`-th node `c`: `p` is that node's first parent in `res`
    /// and `(c, w)` is the first of `p`'s outgoing edges to `c`, in the order
    /// in which the graph lists them (most recent first).
    pub open spec fn is_tree_edge(&self, res: Seq<usize>, e: (usize, usize, W), k: int) -> bool {
        &&& e.1 == res[k]
        &&& self.out_edges(e.0 as int).contains((e.1, e.2))
        &&& self.out_edges(e.0 as int).filter(to_target::<W>(e.1)).len() > 0
        &&& (e.1, e.2) == self.out_edges(e.0 as int).filter(to_target::<W>(e.1))[0]
        &&& exists|j: int| #[trigger] self.is_first_parent(res, j, k) && res[j] == e.0
    }

    /// `res` is the breadth-first visit order from `root` and `tree[k]` is
    /// the edge by which `res[k + 1]` was reached.
    pub open spec fn is_bfs_tree(&self, root: usize, res: Seq<usize>, tree: Seq<(usize, usize, W)>) -> bool {
        &&& self.is_bfs_order(root, res)
        &&& tree.len() + 1 == res.len()
        &&& forall|k: int| 0 <= k < tree.len() ==> self.is_tree_edge(res, #[trigger] tree[k], k + 1)
    }

    /// Breadth-first visit order from `root` over outgoing edges, visiting the
    /// successors of each node in the order of their names.
    pub fn bfs_oriented(&self, root: usize) -> (res: Vec<usize>)
        where
            W: Copy,
        requires
            self.wf(),
            root < self.n(),
        ensures
            self.is_bfs_order(root, res@),
    {
        let (res, _tree) = self.bfs_tree(root);
        res
    }

    /// The breadth-first visit order from `root` together with the edge by
    /// which each node after the first was reached.
    pub(crate) fn bfs_tree(&self, root: usize) -> (r: (Vec<usize>, Vec<(usize, usize, W)>))
        where
            W: Copy,
        requires
            self.wf(),
            root < self.n(),
        ensures
            self.is_bfs_tree(root, r.0@, r.1@),
    {
        let n = self.node_count();
        let mut visited: Vec<bool> = Vec::new();
        let mut i: usize = 0;
        while i < n
            invariant
                i <= n,
                visited@.len() == i,
                forall|k: int| 0 <= k < i ==> !visited@[k],
            decreases n - i,
        {
            visited.push(false);
            i = i + 1;
        }
        visited.set(root, true);
        let mut res: Vec<usize> = Vec::new();
        let mut tree: Vec<(usize, usize, W)> = Vec::new();
        res.push(root);
        proof {
            assert forall|v: int| 0 <= v < n implies (visited@[v] <==> res@.contains(v as usize)) by {
                if v == root as int {
                    assert(res@[0] == root);
                }
            }
        }
        let mut head: usize = 0;
        while head < res.len()
            invariant
                self.wf(),
                n == self.n(),
                root < n,
                visited@.len() == n,
                forall|v: int| 0 <= v < n ==> (visited@[v] <==> res@.contains(v as usize)),
                res@.len() > 0,
                res@[0] == root,
                res@.no_duplicates(),
                forall|k: int| 0 <= k < res@.len() ==> (#[trigger] res@[k]) < n,
                head <= res@.len(),
                tree@.len() + 1 == res@.len(),
                forall|k: int| 0 <= k < tree@.len() ==> self.is_tree_edge(res@, #[trigger] tree@[k], k + 1),
                forall|j: int, t: int|
                    0 <= j < head && #[trigger] self.has_edge(res@[j] as int, t) ==> res@.contains(t as usize),
                forall|k: int| 1 <= k < res@.len() ==> #[trigger] self.has_first_parent(res@, k, head as int),
                forall|k1: int, k2: int, j1: int, j2: int|
                    1 <= k1 < k2 < res@.len() && #[trigger] self.is_first_parent(res@, j1, k1)
                        && #[trigger] self.is_first_parent(res@, j2, k2) ==> j1 < j2 || (j1 == j2
                        && lex_lt(self.names()[res@[k1] as int], self.names()[res@[k2] as int])),
            decreases n - head,
        {
            proof {
                lemma_distinct_bounded_len(res@, n as nat);
            }
            let cur = res[head];
            let nbrs = self.sorted_neighbors(cur);
            let ghost start = res@.len();
            let ghost res0 = res@;
            let mut i: usize = 0;
            while i < nbrs.len()
                invariant
                    self.wf(),
                    n == self.n(),
                    root < n,
                    head < start,
                    cur == res0[head as int],
                    start == res0.len(),
                    visited@.len() == n,
                    forall|v: int| 0 <= v < n ==> (visited@[v] <==> res@.contains(v as usize)),
                    res@.len() >= start,
                    tree@.len() + 1 == res@.len(),
                    forall|k: int| 0 <= k < tree@.len() ==> self.is_tree_edge(res@, #[trigger] tree@[k], k + 1),
                    forall|k: int| 0 <= k < start ==> res@[k] == res0[k],
                    res@[0] == root,
                    res@.no_duplicates(),
                    forall|k: int| 0 <= k < res@.len() ==> (#[trigger] res@[k]) < n,
                    nbrs@.to_multiset() == self.out_edges(cur as int).to_multiset(),
                    forall|k: int| 0 <= k < nbrs@.len() ==> (#[trigger] nbrs@[k]).0 < n,
                    forall|t: usize|
                        #[trigger] nbrs@.filter(to_target::<W>(t)) == self.out_edges(cur as int).filter(
                            to_target::<W>(t),
                        ),
                    forall|p: int, q: int|
                        0 <= p < q < nbrs@.len() ==> lex_le(
                            self.names()[(#[trigger] nbrs@[p]).0 as int],
                            self.names()[(#[trigger] nbrs@[q]).0 as int],
                        ),
                    i <= nbrs@.len(),
                    forall|p: int| 0 <= p < i ==> res@.contains((#[trigger] nbrs@[p]).0),
                    forall|k: int| #![trigger res@[k]] start <= k < res@.len() ==> exists|p: int| 0 <= p < i && (#[trigger] nbrs@[p]).0 == res@[k],
                    forall|j: int, t: int|
                        0 <= j < head && #[trigger] self.has_edge(res0[j] as int, t) ==> res0.contains(t as usize),
                    forall|k: int| 1 <= k < start ==> #[trigger] self.has_first_parent(res0, k, head as int),
                    forall|k: int| start <= k < res@.len() ==> #[trigger] self.is_first_parent(res@, head as int, k),
                    forall|k: int, j: int|
                        #![trigger self.is_first_parent(res@, j, k)]
                        #![trigger self.is_first_parent(res0, j, k)]
                        1 <= k < start ==> (self.is_first_parent(res@, j, k) <==> self.is_first_parent(res0, j, k)),
                    forall|k1: int, k2: int, j1: int, j2: int|
                        1 <= k1 < k2 < res@.len() && #[trigger] self.is_first_parent(res@, j1, k1)
                            && #[trigger] self.is_first_parent(res@, j2, k2) ==> j1 < j2 || (j1 == j2
                            && lex_lt(self.names()[res@[k1] as int], self.names()[res@[k2] as int])),
                decreases nbrs@.len() - i,
            {
                let nb = nbrs[i].0;
                if !visited[nb] {
                    let ghost r1 = res@;
                    let ghost t1 = tree@;
                    visited.set(nb, true);
                    res.push(nb);
                    tree.push((cur, nb, nbrs[i].1));
                    proof {
                        let k2 = r1.len() as int;
                        assert(res@ == r1.push(nb));
                        // the new node's first parent is `head`
                        broadcast use vstd::seq_lib::group_to_multiset_ensures;
                        assert(nbrs@.contains(nbrs@[i as int]));
                        assert(nbrs@.to_multiset().count(nbrs@[i as int]) > 0);
                        assert(self.out_edges(cur as int).to_multiset().count(nbrs@[i as int]) > 0);
                        assert(self.out_edges(cur as int).contains(nbrs@[i as int]));
                        let kk = self.out_edges(cur as int).index_of(nbrs@[i as int]);
                        assert(self.out_edges(cur as int)[kk].0 == nb);
                        assert(res@[head as int] == cur);
                        assert(self.has_edge(res@[head as int] as int, res@[k2] as int));
                        assert forall|i2: int| 0 <= i2 < head implies !self.has_edge(#[trigger] res@[i2] as int, res@[k2] as int) by {
                            assert(res@[i2] == res0[i2]);
                            if self.has_edge(res0[i2] as int, nb as int) {
                                assert(res0.contains(nb));
                                let q = res0.index_of(nb);
                                assert(r1[q] == nb);
                                assert(r1.contains(nb));
                            }
                        }
                        assert(self.is_first_parent(res@, head as int, k2));
                        assert forall|k: int| 0 <= k < tree@.len() implies self.is_tree_edge(res@, #[trigger] tree@[k], k + 1) by {
                            if k + 1 < k2 {
                                assert(tree@[k] == t1[k]);
                                assert(self.is_tree_edge(r1, t1[k], k + 1));
                                let j = choose|j: int| #[trigger] self.is_first_parent(r1, j, k + 1) && r1[j] == t1[k].0;
                                self.lemma_first_parent_push(r1, nb, j, k + 1);
                                assert(self.is_first_parent(res@, j, k + 1));
                            } else {
                                assert(tree@[k] == (cur, nb, nbrs@[i as int].1));
                                assert(nbrs@[i as int] == (nb, nbrs@[i as int].1));
                                assert(res@[head as int] == cur);
                                assert(self.is_first_parent(res@, head as int, k + 1));
                                assert forall|p: int| 0 <= p < i implies !(to_target::<W>(nb))(#[trigger] nbrs@[p]) by {
                                    assert(r1.contains(nbrs@[p].0));
                                }
                                lemma_first_of_filter(nbrs@, i as int, to_target::<W>(nb));
                                assert(nbrs@.filter(to_target::<W>(nb)) == self.out_edges(cur as int).filter(to_target::<W>(nb)));
                            }
                        }
                        assert forall|k: int, j: int|
                            #![trigger self.is_first_parent(res@, j, k)]
                            #![trigger self.is_first_parent(res0, j, k)]
                            1 <= k < start implies (self.is_first_parent(res@, j, k) <==> self.is_first_parent(res0, j, k)) by {
                            self.lemma_first_parent_push(r1, nb, j, k);
                            assert(self.is_first_parent(r1, j, k) <==> self.is_first_parent(res0, j, k));
                        }
                        assert forall|k: int| start <= k < res@.len() implies #[trigger] self.is_first_parent(res@, head as int, k) by {
                            if k < k2 {
                                self.lemma_first_parent_push(r1, nb, head as int, k);
                            }
                        }
                        assert forall|k1: int, k2b: int, j1: int, j2: int|
                            1 <= k1 < k2b < res@.len() && #[trigger] self.is_first_parent(res@, j1, k1)
                                && #[trigger] self.is_first_parent(res@, j2, k2b) implies j1 < j2 || (j1 == j2
                                && lex_lt(self.names()[res@[k1] as int], self.names()[res@[k2b] as int])) by {
                            self.lemma_first_parent_push(r1, nb, j1, k1);
                            if k2b < k2 {
                                self.lemma_first_parent_push(r1, nb, j2, k2b);
                            } else {
                                self.lemma_first_parent_unique(res@, j2, head as int, k2b);
                                if k1 < start {
                                    assert(self.has_first_parent(res0, k1, head as int));
                                    let jj = choose|j: int| j < head && #[trigger] self.is_first_parent(res0, j, k1);
                                    assert(self.is_first_parent(res@, jj, k1));
                                    self.lemma_first_parent_unique(res@, j1, jj, k1);
                                } else {
                                    self.lemma_first_parent_unique(res@, j1, head as int, k1);
                                    let p1 = choose|p: int| 0 <= p < i && (#[trigger] nbrs@[p]).0 == r1[k1];
                                    assert(res@[k1] == r1[k1]);
                                    assert(lex_le(self.names()[nbrs@[p1].0 as int], self.names()[nbrs@[i as int].0 as int]));
                                    assert(res@[k1] != nb) by {
                                        assert(res@.no_duplicates());
                                    }
                                    assert(self.names()[res@[k1] as int] != self.names()[nb as int]) by {
                                        assert(self.names().no_duplicates());
                                    }
                                }
                            }
                        }
                        assert forall|v: int| 0 <= v < n implies (visited@[v] <==> res@.contains(v as usize)) by {
                            if v == nb as int {
                                assert(res@[k2] == nb);
                            } else if r1.contains(v as usize) {
                                let q = r1.index_of(v as usize);
                                assert(res@[q] == v as usize);
                            } else if res@.contains(v as usize) {
                                let q = res@.index_of(v as usize);
                                assert(q < k2);
                                assert(r1[q] == v as usize);
                            }
                        }
                        assert(res@.no_duplicates()) by {
                            assert forall|a: int, b: int| 0 <= a < res@.len() && 0 <= b < res@.len() && a != b implies res@[a] != res@[b] by {
                                if a == k2 && b < k2 {
                                    assert(r1.contains(res@[b]));
                                } else if b == k2 && a < k2 {
                                    assert(r1.contains(res@[a]));
                                }
                            }
                        }
                        assert forall|p: int| 0 <= p < i + 1 implies res@.contains((#[trigger] nbrs@[p]).0) by {
                            if p < i {
                                let q = r1.index_of(nbrs@[p].0);
                                assert(res@[q] == nbrs@[p].0);
                            } else {
                                assert(res@[k2] == nb);
                            }
                        }
                        assert forall|k: int| #![trigger res@[k]] start <= k < res@.len() implies exists|p: int| 0 <= p < i + 1 && (#[trigger] nbrs@[p]).0 == res@[k] by {
                            if k == k2 {
                                assert(nbrs@[i as int].0 == res@[k]);
                            } else {
                                let p = choose|p: int| 0 <= p < i && (#[trigger] nbrs@[p]).0 == r1[k];
                                assert(nbrs@[p].0 == res@[k]);
                            }
                        }
                    }
                } else {
                    proof {
                        assert(res@.contains(nb));
                    }
                }
                i = i + 1;
            }
            proof {
                broadcast use vstd::seq_lib::group_to_multiset_ensures;
                assert forall|j: int, t: int|
                    0 <= j < head + 1 && #[trigger] self.has_edge(res@[j] as int, t) implies res@.contains(t as usize) by {
                    if j < head {
                        assert(res@[j] == res0[j]);
                        assert(res0.contains(t as usize));
                        let q = res0.index_of(t as usize);
                        assert(res@[q] == t as usize);
                    } else {
                        assert(res@[j] == cur);
                        let k = choose|k: int| 0 <= k < self.out_edges(cur as int).len() && #[trigger] self.out_edges(cur as int)[k].0 == t;
                        let e = self.out_edges(cur as int)[k];
                        assert(self.out_edges(cur as int).contains(e));
                        assert(self.out_edges(cur as int).to_multiset().count(e) > 0);
                        assert(nbrs@.to_multiset().count(e) > 0);
                        assert(nbrs@.contains(e));
                        let p = nbrs@.index_of(e);
                        assert(nbrs@[p].0 == t as usize);
                    }
                }
                assert forall|k: int| 1 <= k < res@.len() implies #[trigger] self.has_first_parent(res@, k, head + 1) by {
                    if k < start {
                        assert(self.has_first_parent(res0, k, head as int));
                        let j = choose|j: int| j < head && #[trigger] self.is_first_parent(res0, j, k);
                        assert(self.is_first_parent(res@, j, k));
                    } else {
                        assert(self.is_first_parent(res@, head as int, k));
                    }
                }
            }
            head = head + 1;
        }
        proof {
            assert forall|k: int| 1 <= k < res@.len() implies #[trigger] self.has_first_parent(res@, k, k) by {
                assert(self.has_first_parent(res@, k, head as int));
                let j = choose|j: int| j < head && #[trigger] self.is_first_parent(res@, j, k);
            }
        }
        (res, tree)
    }

    /// Outgoing edges of node `i` with targets given by name.
    pub open spec fn named_out(&self, i: int) -> Seq<(Seq<char>, W)> {
        self.out_edges(i).map_values(|e: (usize, W)| (self.names()[e.0 as int], e.1))
    }

    /// Outgoing edges, by target name, of the node named `x`, or none when
    /// there is no such node.
    pub open spec fn named_out_of(&self, x: Seq<char>) -> Seq<(Seq<char>, W)> {
        if self.names().contains(x) {
            self.named_out(self.names().index_of(x))
        } else {
            Seq::empty()
        }
    }

    /// Looking a node's name up gives the node back: no other node has its
    /// name, so `node_index(node_id(i))` is `Some(i)`.
    pub proof fn law_node_index_round_trip(&self, i: int, j: int)
        requires
            self.wf(),
            0 <= i < self.n(),
            0 <= j < self.n(),
            self.names()[j] == self.names()[i],
        ensures
            j == i,
    {
    }

    /// Node names are unique, and there are fewer than `u32::MAX` nodes.
    pub proof fn lemma_names_unique(&self)
        requires
            self.wf(),
        ensures
            self.names().no_duplicates(),
            self.n() < u32::MAX,
    {
    }

    /// Adds the edges of `edges` in order, as `add_edge` does one by one.
    pub fn add_edges(&mut self, edges: &Vec<(String, String, W)>)
        where
            W: Copy,
        requires
            old(self).wf(),
            names_after(old(self).names(), edge_list_view(edges@)).len() + 2 < u32::MAX,
            old(self).edge_count_spec() + edges@.len() + 1 < u32::MAX,
        ensures
            final(self).wf(),
            final(self).names() == names_after(old(self).names(), edge_list_view(edges@)),
            final(self).edge_count_spec() == old(self).edge_count_spec() + edges@.len(),
            forall|i: int|
                0 <= i < final(self).n() ==> #[trigger] final(self).named_out(i) == out_named(
                    edge_list_view(edges@),
                    final(self).names()[i],
                ) + old(self).named_out_of(final(self).names()[i]),
    {
        let ghost s0 = *self;
        let ghost ev = edge_list_view(edges@);
        let mut k: usize = 0;
        while k < edges.len()
            invariant
                self.wf(),
                s0.wf(),
                ev == edge_list_view(edges@),
                k <= edges@.len(),
                names_after(s0.names(), ev).len() + 2 < u32::MAX,
                s0.edge_count_spec() + edges@.len() + 1 < u32::MAX,
                self.names() == names_after(s0.names(), ev.take(k as int)),
                self.edge_count_spec() == s0.edge_count_spec() + k,
                forall|i: int|
                    0 <= i < self.n() ==> #[trigger] self.named_out(i) == out_named(
                        ev.take(k as int),
                        self.names()[i],
                    ) + s0.named_out_of(self.names()[i]),
            decreases edges@.len() - k,
        {
            proof {
                lemma_names_after_prefix(s0.names(), ev.take(k as int));
                lemma_names_after_split(s0.names(), ev, k as int);
                lemma_names_after_prefix(names_after(s0.names(), ev.take(k as int)), ev.skip(k as int));
            }
            let ghost s1 = *self;
            let e = &edges[k];
            let ghost from = e.0@;
            let ghost to = e.1@;
            let ghost w = e.2;
            self.add_edge(e.0.as_str(), e.1.as_str(), e.2);
            proof {
                let tk = ev.take(k as int);
                let tk1 = ev.take(k + 1);
                assert(tk1.drop_last() =~= tk);
                assert(tk1.last() == (from, to, w));
                assert(self.names() == names_after(s0.names(), tk1));
                let a = name_pos(self.names(), from);
                let b = name_pos(self.names(), to);
                assert forall|i: int|
                    0 <= i < self.n() implies #[trigger] self.named_out(i) == out_named(tk1, self.names()[i])
                    + s0.named_out_of(self.names()[i]) by {
                    let x = self.names()[i];
                    if i < s1.n() {
                        assert(s1.names()[i] == x);
                        assert(s1.named_out(i) == out_named(tk, x) + s0.named_out_of(x));
                        assert(s1.edges_or_empty(i) == s1.out_edges(i));
                        assert forall|q: int| 0 <= q < s1.out_edges(i).len() implies (#[trigger] s1.out_edges(i)[q]).0 < s1.n() by {
                            s1.lemma_out_edges_targets(i);
                        }
                    } else {
                        assert(s1.edges_or_empty(i) =~= Seq::<(usize, W)>::empty());
                        assert(!s1.names().contains(x)) by {
                            if s1.names().contains(x) {
                                let j = s1.names().index_of(x);
                                assert(self.names()[j] == x);
                                assert(self.names().no_duplicates());
                            }
                        }
                        lemma_out_named_absent(s0.names(), tk, x);
                        assert(!s0.names().contains(x)) by {
                            if s0.names().contains(x) {
                                assert(names_after(s0.names(), tk).contains(x));
                            }
                        }
                    }
                    if i == a {
                        assert(self.out_edges(i) == seq![(b as usize, w)] + s1.edges_or_empty(i));
                        assert(self.named_out(i) =~= seq![(to, w)] + s1.edges_or_empty(i).map_values(|e: (usize, W)| (self.names()[e.0 as int], e.1)));
                    } else {
                        assert(self.out_edges(i) == s1.edges_or_empty(i));
                        assert(x != from);
                    }
                    if i < s1.n() {
                        assert(s1.edges_or_empty(i).map_values(|e: (usize, W)| (self.names()[e.0 as int], e.1)) =~= s1.named_out(i));
                    } else {
                        assert(s1.edges_or_empty(i).map_values(|e: (usize, W)| (self.names()[e.0 as int], e.1)) =~= Seq::<(Seq<char>, W)>::empty());
                    }
                    assert(self.named_out(i) =~= out_named(tk1, x) + s0.named_out_of(x));
                }
            }
            k = k + 1;
        }
        proof {
            assert(ev.take(edges@.len() as int) =~= ev);
        }
    }

    /// The graph of the edges of `edges`, added in order.
    pub fn from_edges(edges: &Vec<(String, String, W)>) -> (g: Self)
        where
            W: Copy,
        requires
            names_after(Seq::<Seq<char>>::empty(), edge_list_view(edges@)).len() + 2 < u32::MAX,
            edges@.len() + 1 < u32::MAX,
        ensures
            g.wf(),
            g.names() == names_after(Seq::<Seq<char>>::empty(), edge_list_view(edges@)),
            g.edge_count_spec() == edges@.len(),
            forall|i: int|
                0 <= i < g.n() ==> #[trigger] g.named_out(i) == out_named(
                    edge_list_view(edges@),
                    g.names()[i],
                ),
    {
        let mut g = SolverGraph::new();
        let ghost g0 = g;
        assert(g0.names() =~= Seq::<Seq<char>>::empty());
        g.add_edges(edges);
        proof {
            assert forall|i: int| 0 <= i < g.n() implies #[trigger] g.named_out(i) == out_named(edge_list_view(edges@), g.names()[i]) by {
                assert(g0.named_out_of(g.names()[i]) =~= Seq::<(Seq<char>, W)>::empty());
                assert(out_named(edge_list_view(edges@), g.names()[i]) + Seq::<(Seq<char>, W)>::empty() =~= out_named(edge_list_view(edges@), g.names()[i]));
            }
        }
        g
    }
}

} // verus!
