//! Turning undirected trees and spanning-tree adjacency lists into
//! `SolverGraph`s, and orienting a tree towards its outlet.

use vstd::prelude::*;

use crate::graph::{add_name, edge_list_view, names_after, out_named, SolverGraph};
use crate::steiner::SteinerTree;
use crate::text::str_views;
use crate::text::{chars_of, lemma_lex_asymmetric, lemma_lex_total, lex_le, lex_less, lex_lt};

verus! {

/// The two names in lexicographic order.
pub open spec fn ordered_pair(a: Seq<char>, b: Seq<char>) -> (Seq<char>, Seq<char>) {
    if lex_le(a, b) {
        (a, b)
    } else {
        (b, a)
    }
}

/// Whether `a <= b` in the order of `String`.
pub(crate) fn str_le(a: &str, b: &str) -> (r: bool)
    ensures
        r == lex_le(a@, b@),
{
    let ca = chars_of(a);
    let cb = chars_of(b);
    let gt = lex_less(&cb, &ca);
    proof {
        lemma_lex_total(a@, b@);
        lemma_lex_asymmetric(a@, b@);
        if a@ == b@ {
            crate::text::lemma_lex_irreflexive(a@);
        }
    }
    !gt
}

/// Sorts a pair of names into `(min, max)` order.
pub fn sorted_pair(a: &str, b: &str) -> (r: (String, String))
    ensures
        (r.0@, r.1@) == ordered_pair(a@, b@),
{
    if str_le(a, b) {
        (a.to_owned(), b.to_owned())
    } else {
        (b.to_owned(), a.to_owned())
    }
}

/// A sorted pair does not depend on the order of its arguments, and its
/// first name never comes after its second.
pub proof fn law_sorted_pair_symmetric(a: Seq<char>, b: Seq<char>)
    ensures
        ordered_pair(a, b) == ordered_pair(b, a),
        lex_le(ordered_pair(a, b).0, ordered_pair(a, b).1),
        ordered_pair(a, b) == (a, b) || ordered_pair(a, b) == (b, a),
{
    lemma_lex_total(a, b);
    lemma_lex_asymmetric(a, b);
}

/// The view of an adjacency list: each node with its `(neighbour, weight)`
/// entries.
pub open spec fn adj_view<W>(adj: Seq<(String, Vec<(String, W)>)>) -> Seq<
    (Seq<char>, Seq<(Seq<char>, W)>),
> {
    adj.map_values(
        |p: (String, Vec<(String, W)>)|
            (p.0@, p.1@.map_values(|e: (String, W)| (e.0@, e.1))),
    )
}

/// The entries of one node's list as edges `(from, to, weight)`.
pub open spec fn entries_from<W>(from: Seq<char>, list: Seq<(Seq<char>, W)>) -> Seq<
    (Seq<char>, Seq<char>, W),
> {
    list.map_values(|e: (Seq<char>, W)| (from, e.0, e.1))
}

/// The edges of an adjacency list as `(from, to, weight)`, node by node and
/// in list order.
pub open spec fn adj_edges<W>(adj: Seq<(Seq<char>, Seq<(Seq<char>, W)>)>) -> Seq<
    (Seq<char>, Seq<char>, W),
>
    decreases adj.len(),
{
    if adj.len() == 0 {
        Seq::empty()
    } else {
        adj_edges(adj.drop_last()) + entries_from(adj.last().0, adj.last().1)
    }
}

/// All edges of an adjacency list, node by node.
fn flatten_adj<W: Copy>(adj: &Vec<(String, Vec<(String, W)>)>) -> (r: Vec<(String, String, W)>)
    ensures
        edge_list_view(r@) == adj_edges(adj_view(adj@)),
{
    let ghost av = adj_view(adj@);
    let mut r: Vec<(String, String, W)> = Vec::new();
    let mut i: usize = 0;
    while i < adj.len()
        invariant
            i <= adj@.len(),
            av == adj_view(adj@),
            edge_list_view(r@) == adj_edges(av.take(i as int)),
        decreases adj@.len() - i,
    {
        let from = &adj[i].0;
        let list = &adj[i].1;
        let ghost base = edge_list_view(r@);
        let ghost lv = av[i as int].1;
        let mut j: usize = 0;
        while j < list.len()
            invariant
                j <= list@.len(),
                lv == list@.map_values(|e: (String, W)| (e.0@, e.1)),
                edge_list_view(r@) == base + entries_from(from@, lv.take(j as int)),
            decreases list@.len() - j,
        {
            let ghost r0 = r@;
            r.push((from.clone(), list[j].0.clone(), list[j].1));
            proof {
                assert(edge_list_view(r@) =~= edge_list_view(r0).push((from@, lv[j as int].0, lv[j as int].1)));
                assert(entries_from(from@, lv.take(j + 1)) =~= entries_from(from@, lv.take(j as int)).push(
                    (from@, lv[j as int].0, lv[j as int].1)));
            }
            j = j + 1;
        }
        proof {
            assert(lv.take(list@.len() as int) =~= lv);
            assert(av.take(i + 1).drop_last() =~= av.take(i as int));
            assert(av[i as int].0 == from@);
        }
        i = i + 1;
    }
    proof {
        assert(av.take(adj@.len() as int) =~= av);
    }
    r
}

/// `a` comes no later than `b` in the order of `(from, to)`.
pub open spec fn edge_key_le<W>(a: (Seq<char>, Seq<char>, W), b: (Seq<char>, Seq<char>, W)) -> bool {
    lex_lt(a.0, b.0) || (a.0 == b.0 && lex_le(a.1, b.1))
}

/// The edges are sorted by `(from, to)`.
pub open spec fn edges_sorted<W>(s: Seq<(Seq<char>, Seq<char>, W)>) -> bool {
    forall|p: int, q: int| 0 <= p < q < s.len() ==> edge_key_le(#[trigger] s[p], #[trigger] s[q])
}

proof fn lemma_edge_key_total<W>(a: (Seq<char>, Seq<char>, W), b: (Seq<char>, Seq<char>, W))
    ensures
        edge_key_le(a, b) || edge_key_le(b, a),
{
    lemma_lex_total(a.0, b.0);
    lemma_lex_total(a.1, b.1);
}

proof fn lemma_edge_key_transitive<W>(
    a: (Seq<char>, Seq<char>, W),
    b: (Seq<char>, Seq<char>, W),
    c: (Seq<char>, Seq<char>, W),
)
    requires
        edge_key_le(a, b),
        edge_key_le(b, c),
    ensures
        edge_key_le(a, c),
{
    if a.0 != b.0 && b.0 != c.0 {
        crate::text::lemma_lex_transitive(a.0, b.0, c.0);
    } else if a.0 == b.0 && b.0 == c.0 {
        crate::text::lemma_lex_irreflexive(a.0);
        crate::text::lemma_lex_le_transitive(a.1, b.1, c.1);
    }
}

fn edge_le<W>(a: &(String, String, W), b: &(String, String, W)) -> (r: bool)
    ensures
        r == edge_key_le((a.0@, a.1@, a.2), (b.0@, b.1@, b.2)),
{
    let a0 = chars_of(a.0.as_str());
    let b0 = chars_of(b.0.as_str());
    if lex_less(&a0, &b0) {
        return true;
    }
    if lex_less(&b0, &a0) {
        proof {
            lemma_lex_asymmetric(a.0@, b.0@);
            if a.0@ == b.0@ {
                crate::text::lemma_lex_irreflexive(a.0@);
            }
        }
        return false;
    }
    proof {
        lemma_lex_total(a.0@, b.0@);
    }
    str_le(a.1.as_str(), b.1.as_str())
}

pub(crate) proof fn lemma_insert_to_multiset<A>(s: Seq<A>, p: int, x: A)
    requires
        0 <= p <= s.len(),
    ensures
        s.insert(p, x).to_multiset() == s.to_multiset().insert(x),
{
    broadcast use vstd::seq_lib::group_to_multiset_ensures;

    let t = s.insert(p, x);
    assert(t.remove(p) =~= s);
    assert(t[p] == x);
    assert(t.contains(x));
    assert(t.to_multiset().count(x) > 0);
    assert(t.to_multiset().remove(x) == s.to_multiset());
    assert(t.to_multiset() =~= s.to_multiset().insert(x));
}

/// Holds of the edges from `a` to `b`.
pub open spec fn with_ends<W>(a: Seq<char>, b: Seq<char>) -> spec_fn((Seq<char>, Seq<char>, W)) -> bool {
    |x: (Seq<char>, Seq<char>, W)| x.0 == a && x.1 == b
}

/// The edges sorted by `(from, to)`; edges with equal keys keep their order.
pub fn sort_edges<W: Copy>(edges: &Vec<(String, String, W)>) -> (r: Vec<(String, String, W)>)
    ensures
        edge_list_view(r@).to_multiset() == edge_list_view(edges@).to_multiset(),
        edges_sorted(edge_list_view(r@)),
        forall|a: Seq<char>, b: Seq<char>|
            #[trigger] edge_list_view(r@).filter(with_ends::<W>(a, b)) == edge_list_view(edges@).filter(
                with_ends::<W>(a, b),
            ),
{
    let ghost ev = edge_list_view(edges@);
    let mut out: Vec<(String, String, W)> = Vec::new();
    let mut i: usize = 0;
    proof {
        assert(ev.take(0) =~= Seq::<(Seq<char>, Seq<char>, W)>::empty());
        assert(edge_list_view(out@) =~= Seq::<(Seq<char>, Seq<char>, W)>::empty());
        assert forall|a: Seq<char>, b: Seq<char>|
            #[trigger] edge_list_view(out@).filter(with_ends::<W>(a, b)) == ev.take(0).filter(with_ends::<W>(a, b)) by {
        }
    }
    while i < edges.len()
        invariant
            i <= edges@.len(),
            ev == edge_list_view(edges@),
            edge_list_view(out@).to_multiset() == ev.take(i as int).to_multiset(),
            edges_sorted(edge_list_view(out@)),
            forall|a: Seq<char>, b: Seq<char>|
                #[trigger] edge_list_view(out@).filter(with_ends::<W>(a, b)) == ev.take(i as int).filter(
                    with_ends::<W>(a, b),
                ),
        decreases edges@.len() - i,
    {
        let e = &edges[i];
        let ghost ov = edge_list_view(out@);
        let ghost x = (e.0@, e.1@, e.2);
        let mut p: usize = 0;
        while p < out.len()
            invariant
                p <= out@.len(),
                ov == edge_list_view(out@),
                x == (e.0@, e.1@, e.2),
                forall|k: int| 0 <= k < p ==> edge_key_le(#[trigger] ov[k], x),
            ensures
                p <= out@.len(),
                forall|k: int| 0 <= k < p ==> edge_key_le(#[trigger] ov[k], x),
                p < out@.len() ==> !edge_key_le(ov[p as int], x),
            decreases out@.len() - p,
        {
            if !edge_le(&out[p], e) {
                break;
            }
            p = p + 1;
        }
        proof {
            if p < out@.len() {
                assert(!edge_key_le(ov[p as int], x));
                lemma_edge_key_total(ov[p as int], x);
                assert forall|q: int| p <= q < ov.len() implies edge_key_le(x, #[trigger] ov[q]) by {
                    if q > p {
                        assert(edge_key_le(ov[p as int], ov[q]));
                        lemma_edge_key_transitive(x, ov[p as int], ov[q]);
                    }
                }
            }
        }
        out.insert(p, (e.0.clone(), e.1.clone(), e.2));
        proof {
            let nv = edge_list_view(out@);
            assert(nv =~= ov.insert(p as int, x));
            ov.insert_ensures(p as int, x);
            assert forall|a: int, b: int| 0 <= a < b < nv.len() implies edge_key_le(#[trigger] nv[a], #[trigger] nv[b]) by {
                if b < p {
                } else if a < p && b == p {
                } else if a < p {
                    assert(nv[b] == ov[b - 1]);
                    assert(edge_key_le(ov[a], ov[b - 1]));
                } else if a == p {
                    assert(nv[b] == ov[b - 1]);
                } else {
                    assert(nv[a] == ov[a - 1]);
                    assert(nv[b] == ov[b - 1]);
                }
            }
            lemma_insert_to_multiset(ov, p as int, x);
            assert(ev.take(i + 1) =~= ev.take(i as int).push(x));
            broadcast use vstd::seq_lib::group_to_multiset_ensures;
            assert forall|a: Seq<char>, b: Seq<char>|
                #[trigger] edge_list_view(out@).filter(with_ends::<W>(a, b)) == ev.take(i + 1).filter(
                    with_ends::<W>(a, b),
                ) by {
                let f = with_ends::<W>(a, b);
                if f(x) {
                    assert forall|k: int| p <= k < ov.len() implies !f(#[trigger] ov[k]) by {
                        if f(ov[k]) {
                            assert(!edge_key_le(ov[p as int], x));
                            if k > p {
                                assert(edge_key_le(ov[p as int], ov[k]));
                            }
                        }
                    }
                }
                crate::graph::lemma_filter_insert(ov, p as int, x, f);
                reveal(Seq::filter);
                assert(ev.take(i + 1).drop_last() =~= ev.take(i as int));
            }
        }
        i = i + 1;
    }
    proof {
        assert(ev.take(edges@.len() as int) =~= ev);
    }
    out
}

/// `g` is the graph that adding the edges of `s` in order to an empty graph
/// gives.
pub open spec fn loaded_from<W>(g: SolverGraph<W>, s: Seq<(Seq<char>, Seq<char>, W)>) -> bool {
    &&& g.wf()
    &&& g.names() == names_after(Seq::<Seq<char>>::empty(), s)
    &&& g.edge_count_spec() == s.len()
    &&& forall|i: int| 0 <= i < g.n() ==> #[trigger] g.named_out(i) == out_named(s, g.names()[i])
}

/// Loads a spanning-tree adjacency list into a graph: all its edges, sorted
/// by `(from, to)` (edges with the same ends in the order of the list), are
/// added in that order, so the result does not depend on the order of the
/// entries.
pub fn mst_adj_to_solver_graph<W: Copy>(mst_adj: &Vec<(String, Vec<(String, W)>)>) -> (g:
    SolverGraph<W>)
    requires
        2 * adj_edges(adj_view(mst_adj@)).len() + 2 < u32::MAX,
    ensures
        exists|s: Seq<(Seq<char>, Seq<char>, W)>|
            #[trigger] loaded_from(g, s) && edges_sorted(s) && s.to_multiset() == adj_edges(
                adj_view(mst_adj@),
            ).to_multiset() && forall|a: Seq<char>, b: Seq<char>|
                #[trigger] s.filter(with_ends::<W>(a, b)) == adj_edges(adj_view(mst_adj@)).filter(
                    with_ends::<W>(a, b),
                ),
{
    broadcast use vstd::seq_lib::group_to_multiset_ensures;

    let flat = flatten_adj(mst_adj);
    let sorted = sort_edges(&flat);
    proof {
        assert(edge_list_view(sorted@).len() == edge_list_view(flat@).len()) by {
            assert(edge_list_view(sorted@).to_multiset().len() == edge_list_view(flat@).to_multiset().len());
        }
    }
    proof {
        crate::graph::lemma_names_after_prefix(Seq::<Seq<char>>::empty(), edge_list_view(sorted@));
    }
    let g = SolverGraph::from_edges(&sorted);
    assert(loaded_from(g, edge_list_view(sorted@)));
    g
}

/// The name list after adding each of `ids` in order to `start`.
pub open spec fn add_names(start: Seq<Seq<char>>, ids: Seq<Seq<char>>) -> Seq<Seq<char>>
    decreases ids.len(),
{
    if ids.len() == 0 {
        start
    } else {
        add_name(add_names(start, ids.drop_last()), ids.last())
    }
}

/// Each edge in both directions: `(a, b, w)` then `(b, a, w)`.
pub open spec fn both_ways<W>(edges: Seq<(Seq<char>, Seq<char>, W)>) -> Seq<(Seq<char>, Seq<char>, W)>
    decreases edges.len(),
{
    if edges.len() == 0 {
        Seq::empty()
    } else {
        let e = edges.last();
        both_ways(edges.drop_last()) + seq![(e.0, e.1, e.2), (e.1, e.0, e.2)]
    }
}

proof fn lemma_both_ways_len<W>(edges: Seq<(Seq<char>, Seq<char>, W)>)
    ensures
        both_ways(edges).len() == 2 * edges.len(),
    decreases edges.len(),
{
    if edges.len() > 0 {
        lemma_both_ways_len(edges.drop_last());
    }
}

/// A graph of the named nodes, added in order, without edges.
fn graph_with_nodes<W>(ids: &[String]) -> (g: SolverGraph<W>)
    requires
        ids@.len() + 2 < u32::MAX,
    ensures
        g.wf(),
        g.names() == add_names(Seq::<Seq<char>>::empty(), str_views(ids@)),
        g.edge_count_spec() == 0,
        forall|i: int| 0 <= i < g.n() ==> #[trigger] g.out_edges(i) == Seq::<(usize, W)>::empty(),
{
    let ghost iv = str_views(ids@);
    let mut g: SolverGraph<W> = SolverGraph::new();
    proof {
        assert(iv.take(0) =~= Seq::<Seq<char>>::empty());
    }
    let mut i: usize = 0;
    while i < ids.len()
        invariant
            i <= ids@.len(),
            ids@.len() + 2 < u32::MAX,
            iv == str_views(ids@),
            g.wf(),
            g.names() == add_names(Seq::<Seq<char>>::empty(), iv.take(i as int)),
            g.n() <= i,
            g.edge_count_spec() == 0,
            forall|k: int| 0 <= k < g.n() ==> #[trigger] g.out_edges(k) == Seq::<(usize, W)>::empty(),
        decreases ids@.len() - i,
    {
        let ghost g0 = g;
        g.add_node(ids[i].as_str());
        proof {
            assert(iv.take(i + 1).drop_last() =~= iv.take(i as int));
            assert(iv.take(i + 1).last() == ids@[i as int]@);
            assert forall|k: int| 0 <= k < g.n() implies #[trigger] g.out_edges(k) == Seq::<(usize, W)>::empty() by {
                assert(g.out_edges(k) == g0.edges_or_empty(k));
                if k < g0.n() {
                    assert(g0.out_edges(k) == Seq::<(usize, W)>::empty());
                }
            }
        }
        i = i + 1;
    }
    proof {
        assert(iv.take(ids@.len() as int) =~= iv);
    }
    g
}

proof fn lemma_no_edges_named_out_of<W>(g: SolverGraph<W>, x: Seq<char>)
    requires
        forall|i: int| 0 <= i < g.n() ==> #[trigger] g.out_edges(i) == Seq::<(usize, W)>::empty(),
    ensures
        g.named_out_of(x) == Seq::<(Seq<char>, W)>::empty(),
{
    if g.names().contains(x) {
        let j = g.names().index_of(x);
        assert(g.out_edges(j) == Seq::<(usize, W)>::empty());
        assert(g.named_out(j) =~= Seq::<(Seq<char>, W)>::empty());
    }
}

/// The Steiner tree as a graph: its nodes in order, then each edge in both
/// directions, so that a search from any node can cross every edge.
pub fn steiner_to_solver_graph<W: Copy>(steiner: &SteinerTree<W>) -> (g: SolverGraph<W>)
    requires
        steiner.node_list().len() + 4 * steiner.edge_list().len() + 2 < u32::MAX,
    ensures
        g.wf(),
        g.names() == names_after(
            add_names(Seq::<Seq<char>>::empty(), steiner.node_list()),
            both_ways(steiner.edge_list()),
        ),
        g.edge_count_spec() == 2 * steiner.edge_list().len(),
        forall|i: int|
            0 <= i < g.n() ==> #[trigger] g.named_out(i) == out_named(
                both_ways(steiner.edge_list()),
                g.names()[i],
            ),
{
    let ids = steiner.node_ids();
    let edges = steiner.edges();
    let ghost ev = edge_list_view(edges@);
    let mut doubled: Vec<(String, String, W)> = Vec::new();
    let mut k: usize = 0;
    while k < edges.len()
        invariant
            k <= edges@.len(),
            ev == edge_list_view(edges@),
            edge_list_view(doubled@) == both_ways(ev.take(k as int)),
        decreases edges@.len() - k,
    {
        let e = &edges[k];
        let ghost d0 = doubled@;
        doubled.push((e.0.clone(), e.1.clone(), e.2));
        doubled.push((e.1.clone(), e.0.clone(), e.2));
        proof {
            assert(ev.take(k + 1).drop_last() =~= ev.take(k as int));
            assert(edge_list_view(doubled@) =~= edge_list_view(d0) + seq![(e.0@, e.1@, e.2), (e.1@, e.0@, e.2)]);
        }
        k = k + 1;
    }
    proof {
        assert(ev.take(edges@.len() as int) =~= ev);
        lemma_both_ways_len(ev);
    }
    let mut g: SolverGraph<W> = graph_with_nodes(ids);
    let ghost g0 = g;
    proof {
        lemma_add_names_len(Seq::<Seq<char>>::empty(), str_views(ids@));
        crate::graph::lemma_names_after_prefix(g.names(), both_ways(ev));
    }
    g.add_edges(&doubled);
    proof {
        assert forall|i: int| 0 <= i < g.n() implies #[trigger] g.named_out(i) == out_named(
            both_ways(ev),
            g.names()[i],
        ) by {
            lemma_no_edges_named_out_of(g0, g.names()[i]);
            assert(out_named(both_ways(ev), g.names()[i]) + Seq::<(Seq<char>, W)>::empty() =~= out_named(
                both_ways(ev),
                g.names()[i],
            ));
        }
    }
    g
}

proof fn lemma_add_names_len(start: Seq<Seq<char>>, ids: Seq<Seq<char>>)
    ensures
        add_names(start, ids).len() <= start.len() + ids.len(),
    decreases ids.len(),
{
    if ids.len() > 0 {
        lemma_add_names_len(start, ids.drop_last());
    }
}

proof fn lemma_add_names_distinct(ids: Seq<Seq<char>>)
    requires
        ids.no_duplicates(),
    ensures
        add_names(Seq::<Seq<char>>::empty(), ids) == ids,
    decreases ids.len(),
{
    if ids.len() > 0 {
        let d = ids.drop_last();
        assert(d.no_duplicates());
        lemma_add_names_distinct(d);
        assert(!d.contains(ids.last())) by {
            if d.contains(ids.last()) {
                let j = d.index_of(ids.last());
                assert(ids[j] == ids[ids.len() - 1]);
            }
        }
        assert(d.push(ids.last()) =~= ids);
    }
}

proof fn lemma_names_after_closed<W>(start: Seq<Seq<char>>, edges: Seq<(Seq<char>, Seq<char>, W)>)
    requires
        forall|k: int| 0 <= k < edges.len() ==> start.contains((#[trigger] edges[k]).0) && start.contains(edges[k].1),
    ensures
        names_after(start, edges) == start,
    decreases edges.len(),
{
    if edges.len() > 0 {
        let d = edges.drop_last();
        assert forall|k: int| 0 <= k < d.len() implies start.contains((#[trigger] d[k]).0) && start.contains(d[k].1) by {
            assert(d[k] == edges[k]);
        }
        lemma_names_after_closed(start, d);
        assert(start.contains(edges[edges.len() - 1].0));
    }
}

/// The names of a graph's nodes, in index order.
fn node_names<W>(g: &SolverGraph<W>) -> (ids: Vec<String>)
    requires
        g.wf(),
    ensures
        str_views(ids@) == g.names(),
{
    let n = g.node_count();
    let mut ids: Vec<String> = Vec::new();
    let mut i: usize = 0;
    while i < n
        invariant
            i <= n,
            n == g.n(),
            str_views(ids@) == g.names().take(i as int),
        decreases n - i,
    {
        let ghost v0 = ids@;
        ids.push(g.node_id(i).to_owned());
        proof {
            assert(str_views(ids@) =~= str_views(v0).push(g.names()[i as int]));
            assert(g.names().take(i + 1) =~= g.names().take(i as int).push(g.names()[i as int]));
        }
        i = i + 1;
    }
    proof {
        assert(g.names().take(n as int) =~= g.names());
    }
    ids
}

/// Tree edges by name, each from the node reached to the node it was
/// reached from.
pub open spec fn tree_up<W>(names: Seq<Seq<char>>, tree: Seq<(usize, usize, W)>) -> Seq<
    (Seq<char>, Seq<char>, W),
> {
    tree.map_values(|e: (usize, usize, W)| (names[e.1 as int], names[e.0 as int], e.2))
}

/// Tree edges by name, each from the node a search came from to the node it
/// reached.
pub open spec fn tree_down<W>(names: Seq<Seq<char>>, tree: Seq<(usize, usize, W)>) -> Seq<
    (Seq<char>, Seq<char>, W),
> {
    tree.map_values(|e: (usize, usize, W)| (names[e.0 as int], names[e.1 as int], e.2))
}

/// A graph with `names` as its nodes and, from each node, the edges of
/// `edges` that leave it.
pub open spec fn holds_edges<W>(g: SolverGraph<W>, names: Seq<Seq<char>>, edges: Seq<(Seq<char>, Seq<char>, W)>) -> bool {
    &&& g.wf()
    &&& g.names() == names
    &&& g.edge_count_spec() == edges.len()
    &&& forall|i: int| 0 <= i < g.n() ==> #[trigger] g.named_out(i) == out_named(edges, names[i])
}

/// Orients an undirected graph away from nothing and towards `outlet_idx`:
/// a breadth-first search from the outlet (neighbours in name order) reaches
/// each node once, and the edge it was reached by becomes an edge from that
/// node to the one it was reached from. Returns that graph and its reverse;
/// both keep all nodes of `undirected`, in order.
pub fn bfs_build_oriented<W: Copy>(undirected: &SolverGraph<W>, outlet_idx: usize) -> (r: (
    SolverGraph<W>,
    SolverGraph<W>,
))
    requires
        undirected.wf(),
        outlet_idx < undirected.n(),
        undirected.n() + 2 < u32::MAX,
    ensures
        r.0.is_acyclic(),
        exists|order: Seq<usize>, tree: Seq<(usize, usize, W)>|
            #[trigger] undirected.is_bfs_tree(outlet_idx, order, tree) && holds_edges(
                r.0,
                undirected.names(),
                tree_up(undirected.names(), tree),
            ) && holds_edges(r.1, undirected.names(), tree_down(undirected.names(), tree)),
{
    let ghost names = undirected.names();
    let ids = node_names(undirected);
    let mut oriented: SolverGraph<W> = graph_with_nodes(ids.as_slice());
    let mut in_oriented: SolverGraph<W> = graph_with_nodes(ids.as_slice());
    proof {
        undirected.lemma_names_unique();
        lemma_add_names_distinct(names);
    }
    let ghost o0 = oriented;
    let ghost i0 = in_oriented;
    let (order, tree) = undirected.bfs_tree(outlet_idx);
    let mut up: Vec<(String, String, W)> = Vec::new();
    let mut down: Vec<(String, String, W)> = Vec::new();
    let mut k: usize = 0;
    while k < tree.len()
        invariant
            k <= tree@.len(),
            undirected.wf(),
            names == undirected.names(),
            undirected.is_bfs_tree(outlet_idx, order@, tree@),
            edge_list_view(up@) == tree_up(names, tree@.take(k as int)),
            edge_list_view(down@) == tree_down(names, tree@.take(k as int)),
        decreases tree@.len() - k,
    {
        let (p, c, w) = tree[k];
        proof {
            assert(undirected.is_tree_edge(order@, tree@[k as int], k + 1));
            let j = choose|j: int| #[trigger] undirected.is_first_parent(order@, j, k + 1) && order@[j] == p;
            assert(order@[j] < undirected.n());
            assert(order@[k + 1] < undirected.n());
        }
        let pn = undirected.node_id(p);
        let cn = undirected.node_id(c);
        let ghost u0 = up@;
        let ghost d0 = down@;
        up.push((cn.to_owned(), pn.to_owned(), w));
        down.push((pn.to_owned(), cn.to_owned(), w));
        proof {
            assert(tree@.take(k + 1) =~= tree@.take(k as int).push(tree@[k as int]));
            assert(edge_list_view(up@) =~= edge_list_view(u0).push((names[c as int], names[p as int], w)));
            assert(edge_list_view(down@) =~= edge_list_view(d0).push((names[p as int], names[c as int], w)));
        }
        k = k + 1;
    }
    proof {
        assert(tree@.take(tree@.len() as int) =~= tree@);
        let tu = tree_up(names, tree@);
        let td = tree_down(names, tree@);
        assert forall|q: int| 0 <= q < tu.len() implies names.contains((#[trigger] tu[q]).0) && names.contains(tu[q].1) by {
            assert(undirected.is_tree_edge(order@, tree@[q], q + 1));
            let j = choose|j: int| #[trigger] undirected.is_first_parent(order@, j, q + 1) && order@[j] == tree@[q].0;
            assert(names[tree@[q].0 as int] == tu[q].1);
            assert(names[tree@[q].1 as int] == tu[q].0);
        }
        assert forall|q: int| 0 <= q < td.len() implies names.contains((#[trigger] td[q]).0) && names.contains(td[q].1) by {
            assert(undirected.is_tree_edge(order@, tree@[q], q + 1));
            let j = choose|j: int| #[trigger] undirected.is_first_parent(order@, j, q + 1) && order@[j] == tree@[q].0;
            assert(names[tree@[q].0 as int] == td[q].0);
            assert(names[tree@[q].1 as int] == td[q].1);
        }
        lemma_names_after_closed(names, tu);
        lemma_names_after_closed(names, td);
        assert(tu.len() == tree@.len());
        crate::graph::lemma_distinct_bounded_len(order@, undirected.n());
    }
    oriented.add_edges(&up);
    in_oriented.add_edges(&down);
    proof {
        let tu = tree_up(names, tree@);
        let td = tree_down(names, tree@);
        assert forall|i: int| 0 <= i < oriented.n() implies #[trigger] oriented.named_out(i) == out_named(tu, names[i]) by {
            lemma_no_edges_named_out_of(o0, names[i]);
            assert(out_named(tu, names[i]) + Seq::<(Seq<char>, W)>::empty() =~= out_named(tu, names[i]));
        }
        assert forall|i: int| 0 <= i < in_oriented.n() implies #[trigger] in_oriented.named_out(i) == out_named(td, names[i]) by {
            lemma_no_edges_named_out_of(i0, names[i]);
            assert(out_named(td, names[i]) + Seq::<(Seq<char>, W)>::empty() =~= out_named(td, names[i]));
        }
        assert(holds_edges(oriented, names, tu));
        assert(holds_edges(in_oriented, names, td));
        lemma_tree_up_acyclic(*undirected, outlet_idx, order@, tree@, oriented);
    }
    (oriented, in_oriented)
}

proof fn lemma_out_named_member<W>(edges: Seq<(Seq<char>, Seq<char>, W)>, from: Seq<char>, k: int)
    requires
        0 <= k < out_named(edges, from).len(),
    ensures
        exists|q: int|
            0 <= q < edges.len() && #[trigger] edges[q] == (
                from,
                out_named(edges, from)[k].0,
                out_named(edges, from)[k].1,
            ),
    decreases edges.len(),
{
    let d = edges.drop_last();
    let o = out_named(edges, from);
    if edges.last().0 == from {
        if k == 0 {
            assert(edges[edges.len() - 1] == (from, o[0].0, o[0].1));
        } else {
            assert(o[k] == out_named(d, from)[k - 1]);
            lemma_out_named_member(d, from, k - 1);
            let q = choose|q: int| 0 <= q < d.len() && #[trigger] d[q] == (from, out_named(d, from)[k - 1].0, out_named(d, from)[k - 1].1);
            assert(edges[q] == d[q]);
        }
    } else {
        lemma_out_named_member(d, from, k);
        let q = choose|q: int| 0 <= q < d.len() && #[trigger] d[q] == (from, out_named(d, from)[k].0, out_named(d, from)[k].1);
        assert(edges[q] == d[q]);
    }
}

/// The indices below `m` that `order` does not hold, in increasing order.
pub open spec fn missing(order: Seq<usize>, m: nat) -> Seq<usize>
    decreases m,
{
    if m == 0 {
        Seq::empty()
    } else {
        let rest = missing(order, (m - 1) as nat);
        if order.contains((m - 1) as usize) {
            rest
        } else {
            rest.push((m - 1) as usize)
        }
    }
}

proof fn lemma_missing(order: Seq<usize>, m: nat)
    requires
        m <= usize::MAX,
    ensures
        forall|i: int| 0 <= i < missing(order, m).len() ==> (#[trigger] missing(order, m)[i]) < m,
        forall|i: int, j: int|
            0 <= i < j < missing(order, m).len() ==> #[trigger] missing(order, m)[i] < #[trigger] missing(order, m)[j],
        forall|v: usize| (v as int) < m && !order.contains(v) ==> #[trigger] missing(order, m).contains(v),
        forall|v: usize| #[trigger] missing(order, m).contains(v) ==> !order.contains(v),
    decreases m,
{
    if m > 0 {
        lemma_missing(order, (m - 1) as nat);
        let rest = missing(order, (m - 1) as nat);
        let cur = missing(order, m);
        assert forall|v: usize| (v as int) < m && !order.contains(v) implies #[trigger] cur.contains(v) by {
            if (v as int) < m - 1 {
                assert(rest.contains(v));
                let i = rest.index_of(v);
                assert(cur[i] == v);
            } else {
                assert(cur[cur.len() - 1] == v);
            }
        }
        assert forall|v: usize| #[trigger] cur.contains(v) implies !order.contains(v) by {
            let i = cur.index_of(v);
            if i < rest.len() {
                assert(rest[i] == v);
                assert(rest.contains(v));
            }
        }
    }
}

proof fn lemma_tree_up_edge<W>(
    undirected: SolverGraph<W>,
    outlet: usize,
    order: Seq<usize>,
    tree: Seq<(usize, usize, W)>,
    g: SolverGraph<W>,
    u: int,
    v: int,
)
    requires
        undirected.wf(),
        undirected.is_bfs_tree(outlet, order, tree),
        holds_edges(g, undirected.names(), tree_up(undirected.names(), tree)),
        g.has_edge(u, v),
    ensures
        exists|a: int, b: int| 0 <= b < a < order.len() && order[a] == u && order[b] == v,
{
    let names = undirected.names();
    let tu = tree_up(names, tree);
    undirected.lemma_names_unique();
    let k = choose|k: int| 0 <= k < g.out_edges(u).len() && #[trigger] g.out_edges(u)[k].0 == v;
    g.lemma_names_unique();
    g.lemma_out_edges_targets(u);
    assert(g.named_out(u)[k] == (names[v], g.out_edges(u)[k].1));
    lemma_out_named_member(tu, names[u], k);
    let q = choose|q: int| 0 <= q < tu.len() && #[trigger] tu[q] == (names[u], out_named(tu, names[u])[k].0, out_named(tu, names[u])[k].1);
    assert(undirected.is_tree_edge(order, tree[q], q + 1));
    let j = choose|j: int| #[trigger] undirected.is_first_parent(order, j, q + 1) && order[j] == tree[q].0;
    assert(names[tree[q].1 as int] == names[u]);
    assert(names[tree[q].0 as int] == names[v]);
    assert(order[q + 1] < undirected.n());
    assert(order[j] < undirected.n());
    assert(tree[q].1 as int == u);
    assert(tree[q].0 as int == v);
}

proof fn lemma_tree_up_acyclic<W>(
    undirected: SolverGraph<W>,
    outlet: usize,
    order: Seq<usize>,
    tree: Seq<(usize, usize, W)>,
    g: SolverGraph<W>,
)
    requires
        undirected.wf(),
        undirected.is_bfs_tree(outlet, order, tree),
        holds_edges(g, undirected.names(), tree_up(undirected.names(), tree)),
    ensures
        g.is_acyclic(),
{
    let n = g.n();
    assert(n < usize::MAX) by {
        g.lemma_names_unique();
    }
    lemma_missing(order, n);
    let comp = missing(order, n);
    let rev = order.reverse();
    let top = comp + rev;
    let c = comp.len() as int;
    let l = order.len() as int;
    assert forall|i: int| 0 <= i < top.len() implies (#[trigger] top[i]) < g.n() by {
        if i >= c {
            assert(top[i] == order[l - 1 - (i - c)]);
        }
    }
    assert(top.no_duplicates()) by {
        assert forall|i: int, j: int| 0 <= i < top.len() && 0 <= j < top.len() && i != j implies top[i] != top[j] by {
            if i < c && j < c {
            } else if i >= c && j >= c {
                assert(top[i] == order[l - 1 - (i - c)]);
                assert(top[j] == order[l - 1 - (j - c)]);
            } else if i < c {
                assert(top[j] == order[l - 1 - (j - c)]);
                assert(comp.contains(top[i]));
                assert(order.contains(top[j]));
            } else {
                assert(top[i] == order[l - 1 - (i - c)]);
                assert(comp.contains(top[j]));
                assert(order.contains(top[i]));
            }
        }
    }
    assert forall|v: usize| (v as int) < g.n() implies #[trigger] top.contains(v) by {
        if order.contains(v) {
            let a = order.index_of(v);
            assert(top[c + (l - 1 - a)] == v);
        } else {
            assert(comp.contains(v));
            let a = comp.index_of(v);
            assert(top[a] == v);
        }
    }
    assert forall|i: int, j: int|
        0 <= i < top.len() && 0 <= j < top.len() && g.has_edge(
            #[trigger] top[j] as int,
            #[trigger] top[i] as int,
        ) implies j < i by {
        lemma_tree_up_edge(undirected, outlet, order, tree, g, top[j] as int, top[i] as int);
        let (a, b) = choose|a: int, b: int| 0 <= b < a < order.len() && order[a] == top[j] as int && order[b] == top[i] as int;
        assert(top[c + (l - 1 - a)] == order[a]);
        assert(top[c + (l - 1 - b)] == order[b]);
    }
    assert(g.is_topo_order(top));
}

proof fn lemma_out_named_has<W>(edges: Seq<(Seq<char>, Seq<char>, W)>, q: int)
    requires
        0 <= q < edges.len(),
    ensures
        out_named(edges, edges[q].0).contains((edges[q].1, edges[q].2)),
    decreases edges.len(),
{
    let d = edges.drop_last();
    let from = edges[q].0;
    if q == edges.len() - 1 {
        assert(out_named(edges, from)[0] == (edges[q].1, edges[q].2));
    } else {
        assert(d[q] == edges[q]);
        lemma_out_named_has(d, q);
        let k = out_named(d, from).index_of((edges[q].1, edges[q].2));
        if edges.last().0 == from {
            assert(out_named(edges, from)[k + 1] == out_named(d, from)[k]);
        } else {
            assert(out_named(edges, from)[k] == out_named(d, from)[k]);
        }
    }
}

/// When the search from the outlet reaches every node, the outlet comes
/// last in every topological order of the oriented graph: every other node
/// has an edge towards the node it was reached from.
pub proof fn law_outlet_drains_last<W>(
    undirected: SolverGraph<W>,
    outlet: usize,
    order: Seq<usize>,
    tree: Seq<(usize, usize, W)>,
    oriented: SolverGraph<W>,
    topo: Seq<usize>,
)
    requires
        undirected.wf(),
        undirected.is_bfs_tree(outlet, order, tree),
        forall|v: usize| (v as int) < undirected.n() ==> #[trigger] order.contains(v),
        holds_edges(oriented, undirected.names(), tree_up(undirected.names(), tree)),
        oriented.is_topo_order(topo),
    ensures
        topo.len() == undirected.n(),
        topo.len() > 0 ==> topo.last() == outlet,
{
    let names = undirected.names();
    let n = undirected.n();
    undirected.lemma_names_unique();
    crate::graph::lemma_distinct_bounded_len(topo, n);
    assert(topo.len() == n) by {
        let full = Seq::new(n, |i: int| i as usize);
        assert forall|i: int| 0 <= i < full.len() implies topo.contains(#[trigger] full[i]) by {
            assert(topo.contains(i as usize));
        }
        assert(full.no_duplicates());
        lemma_cover_len(full, topo);
    }
    if topo.len() > 0 {
        let v = topo.last();
        if v != outlet {
            assert(order.contains(v));
            let a = order.index_of(v);
            assert(a != 0);
            let q = a - 1;
            assert(undirected.is_tree_edge(order, tree[q], q + 1));
            let p = tree[q].0;
            let w = tree[q].2;
            let j = choose|j: int| #[trigger] undirected.is_first_parent(order, j, q + 1) && order[j] == p;
            assert(p < n);
            let tu = tree_up(names, tree);
            assert(tu[q] == (names[v as int], names[p as int], w));
            lemma_out_named_has(tu, q);
            let k = out_named(tu, names[v as int]).index_of((names[p as int], w));
            assert(oriented.named_out(v as int) == out_named(tu, names[v as int]));
            let t = oriented.out_edges(v as int)[k].0;
            oriented.lemma_out_edges_targets(v as int);
            assert(names[t as int] == names[p as int]);
            assert(t == p);
            assert(oriented.has_edge(v as int, p as int));
            assert(topo.contains(p));
            let i = topo.index_of(p);
            assert(topo[topo.len() - 1] == v);
            assert(topo.len() - 1 < i);
        }
    }
}

proof fn lemma_cover_len(full: Seq<usize>, s: Seq<usize>)
    requires
        full.no_duplicates(),
        forall|i: int| 0 <= i < full.len() ==> s.contains(#[trigger] full[i]),
    ensures
        full.len() <= s.len(),
{
    broadcast use vstd::seq_lib::seq_to_set_is_finite;

    full.unique_seq_to_set();
    s.lemma_cardinality_of_set();
    assert(full.to_set().subset_of(s.to_set())) by {
        assert forall|x: usize| full.to_set().contains(x) implies s.to_set().contains(x) by {
            let i = full.index_of(x);
            assert(s.contains(full[i]));
        }
    }
    vstd::set_lib::lemma_len_subset(full.to_set(), s.to_set());
}

} // verus!
