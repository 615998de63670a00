//! The last step of the Steiner search: from the spanning tree over the
//! path graph, strip the leaves that are not terminals, round after round,
//! and name what is left.

use vstd::prelude::*;

use crate::connect::{joined, lemma_linked_map, linked};
use crate::steiner::SteinerTree;
use crate::text::{lemma_lex_total, lex_le, str_views};

verus! {

/// Number of edge ends at `v` whose other end is alive (a loop at `v`
/// counts twice).
pub open spec fn deg_in<W>(edges: Seq<(usize, usize, W)>, alive: Seq<bool>, v: usize) -> nat
    decreases edges.len(),
{
    if edges.len() == 0 {
        0
    } else {
        let e = edges.last();
        deg_in(edges.drop_last(), alive, v) + (if e.0 == v && alive[e.1 as int] {
            1nat
        } else {
            0nat
        }) + (if e.1 == v && alive[e.0 as int] {
            1nat
        } else {
            0nat
        })
    }
}

/// `v` is alive, not a terminal, and has exactly one alive neighbour.
pub open spec fn is_leaf<W>(edges: Seq<(usize, usize, W)>, terminal: Seq<bool>, alive: Seq<bool>, v: usize) -> bool {
    &&& (v as int) < alive.len()
    &&& alive[v as int]
    &&& !terminal[v as int]
    &&& deg_in(edges, alive, v) == 1
}

/// Some node is such a leaf.
pub open spec fn has_leaf<W>(edges: Seq<(usize, usize, W)>, terminal: Seq<bool>, alive: Seq<bool>) -> bool {
    exists|v: usize| #[trigger] is_leaf(edges, terminal, alive, v)
}

/// One round: every such leaf is removed at once.
pub open spec fn strip_leaves<W>(edges: Seq<(usize, usize, W)>, terminal: Seq<bool>, alive: Seq<bool>) -> Seq<bool> {
    Seq::new(alive.len(), |v: int| alive[v] && !is_leaf(edges, terminal, alive, v as usize))
}

/// Rounds of leaf removal until none is left, at most `fuel` of them.
pub open spec fn prune_from<W>(edges: Seq<(usize, usize, W)>, terminal: Seq<bool>, alive: Seq<bool>, fuel: nat) -> Seq<bool>
    decreases fuel,
{
    if fuel == 0 || !has_leaf(edges, terminal, alive) {
        alive
    } else {
        prune_from(edges, terminal, strip_leaves(edges, terminal, alive), (fuel - 1) as nat)
    }
}

/// The nodes below `n` that some edge touches.
pub open spec fn touched<W>(edges: Seq<(usize, usize, W)>, n: nat) -> Seq<bool> {
    Seq::new(
        n,
        |v: int| exists|q: int| 0 <= q < edges.len() && ((#[trigger] edges[q]).0 == v || edges[q].1 == v),
    )
}

/// The nodes that the edges touch, after leaf removal has run to its end.
pub open spec fn pruned<W>(edges: Seq<(usize, usize, W)>, terminal: Seq<bool>) -> Seq<bool> {
    prune_from(edges, terminal, touched(edges, terminal.len()), terminal.len() + 1)
}

/// Number of `true` entries.
pub open spec fn count_true(s: Seq<bool>) -> nat
    decreases s.len(),
{
    if s.len() == 0 {
        0
    } else {
        count_true(s.drop_last()) + (if s.last() {
            1nat
        } else {
            0nat
        })
    }
}

pub(crate) proof fn lemma_count_true_le(s: Seq<bool>)
    ensures
        count_true(s) <= s.len(),
    decreases s.len(),
{
    if s.len() > 0 {
        lemma_count_true_le(s.drop_last());
    }
}

pub(crate) proof fn lemma_count_true_drop(s: Seq<bool>, t: Seq<bool>, i: int)
    requires
        s.len() == t.len(),
        forall|k: int| 0 <= k < s.len() ==> #[trigger] t[k] ==> s[k],
        0 <= i < s.len(),
        s[i] && !t[i],
    ensures
        count_true(t) < count_true(s),
    decreases s.len(),
{
    lemma_count_true_mono(s.drop_last(), t.drop_last());
    if i < s.len() - 1 {
        lemma_count_true_drop(s.drop_last(), t.drop_last(), i);
    }
}

proof fn lemma_count_true_mono(s: Seq<bool>, t: Seq<bool>)
    requires
        s.len() == t.len(),
        forall|k: int| 0 <= k < s.len() ==> #[trigger] t[k] ==> s[k],
    ensures
        count_true(t) <= count_true(s),
    decreases s.len(),
{
    if s.len() > 0 {
        lemma_count_true_mono(s.drop_last(), t.drop_last());
    }
}

/// The nodes below `n` that the edges touch.
fn touched_flags<W: Copy>(edges: &Vec<(usize, usize, W)>, n: usize) -> (r: Vec<bool>)
    requires
        forall|q: int| 0 <= q < edges@.len() ==> (#[trigger] edges@[q]).0 < n && edges@[q].1 < n,
    ensures
        r@ == touched(edges@, n as nat),
{
    let mut r: Vec<bool> = Vec::new();
    let mut i: usize = 0;
    while i < n
        invariant
            i <= n,
            r@.len() == i,
            forall|k: int| 0 <= k < i ==> !r@[k],
        decreases n - i,
    {
        r.push(false);
        i = i + 1;
    }
    let mut q: usize = 0;
    while q < edges.len()
        invariant
            q <= edges@.len(),
            r@.len() == n,
            forall|q2: int| 0 <= q2 < edges@.len() ==> (#[trigger] edges@[q2]).0 < n && edges@[q2].1 < n,
            forall|v: int|
                0 <= v < n ==> (#[trigger] r@[v] <==> exists|k: int|
                    0 <= k < q && ((#[trigger] edges@[k]).0 == v || edges@[k].1 == v)),
        decreases edges@.len() - q,
    {
        let e = edges[q];
        r.set(e.0, true);
        r.set(e.1, true);
        proof {
            assert(edges@[q as int] == e);
        }
        q = q + 1;
    }
    proof {
        assert(r@ =~= touched(edges@, n as nat));
    }
    r
}

/// The number of alive neighbours of every node.
fn degrees<W: Copy>(edges: &Vec<(usize, usize, W)>, alive: &Vec<bool>) -> (d: Vec<usize>)
    requires
        forall|q: int| 0 <= q < edges@.len() ==> (#[trigger] edges@[q]).0 < alive@.len() && edges@[q].1
            < alive@.len(),
        2 * edges@.len() <= usize::MAX,
    ensures
        d@.len() == alive@.len(),
        forall|v: int| 0 <= v < alive@.len() ==> #[trigger] d@[v] == deg_in(edges@, alive@, v as usize),
{
    let n = alive.len();
    let mut d: Vec<usize> = Vec::new();
    let mut i: usize = 0;
    while i < n
        invariant
            i <= n,
            n == alive@.len(),
            d@.len() == i,
            forall|k: int| 0 <= k < i ==> d@[k] == 0,
        decreases n - i,
    {
        d.push(0);
        i = i + 1;
    }
    let mut q: usize = 0;
    while q < edges.len()
        invariant
            q <= edges@.len(),
            n == alive@.len(),
            d@.len() == n,
            2 * edges@.len() <= usize::MAX,
            forall|q2: int| 0 <= q2 < edges@.len() ==> (#[trigger] edges@[q2]).0 < n && edges@[q2].1 < n,
            forall|v: int| 0 <= v < n ==> #[trigger] d@[v] == deg_in(edges@.take(q as int), alive@, v as usize),
            forall|v: int| 0 <= v < n ==> #[trigger] d@[v] <= 2 * q,
        decreases edges@.len() - q,
    {
        let e = edges[q];
        let ghost d0 = d@;
        proof {
            assert(edges@[q as int] == e);
        }
        if alive[e.1] {
            let x = d[e.0];
            d.set(e.0, x + 1);
        }
        if alive[e.0] {
            let y = d[e.1];
            d.set(e.1, y + 1);
        }
        proof {
            let t1 = edges@.take(q + 1);
            assert(t1.drop_last() =~= edges@.take(q as int));
            assert(t1.last() == e);
            assert forall|v: int| 0 <= v < n implies #[trigger] d@[v] == deg_in(t1, alive@, v as usize) by {
                assert(d0[v] == deg_in(edges@.take(q as int), alive@, v as usize));
            }
        }
        q = q + 1;
    }
    proof {
        assert(edges@.take(edges@.len() as int) =~= edges@);
    }
    d
}

/// The edges between alive nodes, each pair of ends once (the first edge
/// that joins them, in order).
pub open spec fn kept_edges<W>(edges: Seq<(usize, usize, W)>, alive: Seq<bool>) -> Seq<(usize, usize, W)>
    decreases edges.len(),
{
    if edges.len() == 0 {
        Seq::empty()
    } else {
        let k = kept_edges(edges.drop_last(), alive);
        let e = edges.last();
        if alive[e.0 as int] && alive[e.1 as int] && !has_pair(k, e.0, e.1) {
            k.push(e)
        } else {
            k
        }
    }
}

/// Some edge of `k` joins `a` and `b`, in either direction.
pub open spec fn has_pair<W>(k: Seq<(usize, usize, W)>, a: usize, b: usize) -> bool {
    exists|q: int| 0 <= q < k.len() && ((#[trigger] k[q]).0 == a && k[q].1 == b || k[q].0 == b && k[q].1 == a)
}

/// Names the ends of each edge.
pub open spec fn named_edges<W>(names: Seq<Seq<char>>, k: Seq<(usize, usize, W)>) -> Seq<(Seq<char>, Seq<char>, W)> {
    k.map_values(|e: (usize, usize, W)| (names[e.0 as int], names[e.1 as int], e.2))
}

/// The names of the alive nodes, in index order.
pub open spec fn alive_names(names: Seq<Seq<char>>, alive: Seq<bool>) -> Seq<Seq<char>>
    decreases alive.len(),
{
    if alive.len() == 0 {
        Seq::empty()
    } else {
        let rest = alive_names(names, alive.drop_last());
        if alive.last() {
            rest.push(names[alive.len() - 1])
        } else {
            rest
        }
    }
}

/// Leaf removal, round after round, until no node is a leaf.
fn prune_leaves<W: Copy>(edges: &Vec<(usize, usize, W)>, terminal: &Vec<bool>) -> (alive: Vec<bool>)
    requires
        forall|q: int| 0 <= q < edges@.len() ==> (#[trigger] edges@[q]).0 < terminal@.len() && edges@[q].1
            < terminal@.len(),
        2 * edges@.len() <= usize::MAX,
    ensures
        alive@.len() == terminal@.len(),
        alive@ == pruned(edges@, terminal@),
        !has_leaf(edges@, terminal@, alive@),
{
    let n = terminal.len();
    let mut alive = touched_flags(edges, n);
    let ghost mut fuel: nat = (n + 1) as nat;
    proof {
        lemma_count_true_le(alive@);
    }
    loop
        invariant
            n == terminal@.len(),
            alive@.len() == n,
            forall|q: int| 0 <= q < edges@.len() ==> (#[trigger] edges@[q]).0 < n && edges@[q].1 < n,
            2 * edges@.len() <= usize::MAX,
            prune_from(edges@, terminal@, alive@, fuel) == pruned(edges@, terminal@),
            count_true(alive@) < fuel,
        ensures
            alive@ == pruned(edges@, terminal@),
            !has_leaf(edges@, terminal@, alive@),
        decreases count_true(alive@),
    {
        let deg = degrees(edges, &alive);
        let ghost strip = strip_leaves(edges@, terminal@, alive@);
        let mut next: Vec<bool> = Vec::new();
        let mut any = false;
        let mut v: usize = 0;
        while v < n
            invariant
                v <= n,
                n == terminal@.len(),
                alive@.len() == n,
                deg@.len() == n,
                forall|u: int| 0 <= u < n ==> #[trigger] deg@[u] == deg_in(edges@, alive@, u as usize),
                strip == strip_leaves(edges@, terminal@, alive@),
                next@ == strip.take(v as int),
                any == exists|u: usize| (u as int) < v && #[trigger] is_leaf(edges@, terminal@, alive@, u),
            decreases n - v,
        {
            let leaf = alive[v] && !terminal[v] && deg[v] == 1;
            proof {
                assert(leaf == is_leaf(edges@, terminal@, alive@, v));
                assert(strip.take(v + 1) =~= strip.take(v as int).push(strip[v as int]));
            }
            next.push(alive[v] && !leaf);
            if leaf {
                any = true;
            }
            v = v + 1;
        }
        proof {
            assert(strip.take(n as int) =~= strip);
        }
        if !any {
            proof {
                assert(!has_leaf(edges@, terminal@, alive@));
            }
            break;
        }
        proof {
            let u = choose|u: usize| (u as int) < n && #[trigger] is_leaf(edges@, terminal@, alive@, u);
            assert(has_leaf(edges@, terminal@, alive@));
            lemma_count_true_drop(alive@, strip, u as int);
        }
        alive = next;
        proof {
            fuel = (fuel - 1) as nat;
        }
    }
    alive
}

proof fn lemma_prune_keeps_terminals<W>(edges: Seq<(usize, usize, W)>, terminal: Seq<bool>, alive: Seq<bool>, fuel: nat, v: int)
    requires
        0 <= v < alive.len(),
        alive.len() <= usize::MAX,
        terminal[v],
    ensures
        prune_from(edges, terminal, alive, fuel).len() == alive.len(),
        prune_from(edges, terminal, alive, fuel)[v] == alive[v],
    decreases fuel,
{
    if fuel > 0 && has_leaf(edges, terminal, alive) {
        assert(!is_leaf(edges, terminal, alive, v as usize));
        lemma_prune_keeps_terminals(edges, terminal, strip_leaves(edges, terminal, alive), (fuel - 1) as nat, v);
    }
}

proof fn lemma_prune_shrinks<W>(edges: Seq<(usize, usize, W)>, terminal: Seq<bool>, alive: Seq<bool>, fuel: nat, v: int)
    requires
        0 <= v < alive.len(),
        prune_from(edges, terminal, alive, fuel)[v],
    ensures
        alive[v],
    decreases fuel,
{
    if fuel > 0 && has_leaf(edges, terminal, alive) {
        lemma_prune_shrinks(edges, terminal, strip_leaves(edges, terminal, alive), (fuel - 1) as nat, v);
    }
}

/// Leaf removal never removes a terminal that an edge touches, and keeps
/// only nodes that an edge touches.
pub proof fn law_pruning_keeps_terminals<W>(edges: Seq<(usize, usize, W)>, terminal: Seq<bool>, v: int)
    requires
        0 <= v < terminal.len(),
        terminal.len() <= usize::MAX,
    ensures
        pruned(edges, terminal).len() == terminal.len(),
        terminal[v] ==> (pruned(edges, terminal)[v] == touched(edges, terminal.len())[v]),
        pruned(edges, terminal)[v] ==> touched(edges, terminal.len())[v],
{
    let t = touched(edges, terminal.len());
    if terminal[v] {
        lemma_prune_keeps_terminals(edges, terminal, t, terminal.len() + 1, v);
    } else {
        lemma_prune_len(edges, terminal, t, terminal.len() + 1);
    }
    if pruned(edges, terminal)[v] {
        lemma_prune_len(edges, terminal, t, terminal.len() + 1);
        lemma_prune_shrinks(edges, terminal, t, terminal.len() + 1, v);
    }
}

proof fn lemma_prune_len<W>(edges: Seq<(usize, usize, W)>, terminal: Seq<bool>, alive: Seq<bool>, fuel: nat)
    ensures
        prune_from(edges, terminal, alive, fuel).len() == alive.len(),
    decreases fuel,
{
    if fuel > 0 && has_leaf(edges, terminal, alive) {
        lemma_prune_len(edges, terminal, strip_leaves(edges, terminal, alive), (fuel - 1) as nat);
    }
}

/// The names in lexicographic order.
fn sort_names(names: &Vec<String>) -> (r: Vec<String>)
    ensures
        str_views(r@).to_multiset() == str_views(names@).to_multiset(),
        forall|p: int, q: int| 0 <= p < q < r@.len() ==> lex_le(#[trigger] r@[p]@, #[trigger] r@[q]@),
{
    let ghost nv = str_views(names@);
    let mut out: Vec<String> = Vec::new();
    let mut i: usize = 0;
    proof {
        assert(nv.take(0) =~= Seq::<Seq<char>>::empty());
        assert(str_views(out@) =~= Seq::<Seq<char>>::empty());
    }
    while i < names.len()
        invariant
            i <= names@.len(),
            nv == str_views(names@),
            str_views(out@).to_multiset() == nv.take(i as int).to_multiset(),
            forall|p: int, q: int| 0 <= p < q < out@.len() ==> lex_le(#[trigger] out@[p]@, #[trigger] out@[q]@),
        decreases names@.len() - i,
    {
        let x = &names[i];
        let ghost ov = out@;
        let mut p: usize = 0;
        while p < out.len()
            invariant
                p <= out@.len(),
                ov == out@,
                forall|k: int| 0 <= k < p ==> lex_le(#[trigger] ov[k]@, x@),
            ensures
                p <= out@.len(),
                forall|k: int| 0 <= k < p ==> lex_le(#[trigger] ov[k]@, x@),
                p < out@.len() ==> !lex_le(ov[p as int]@, x@),
            decreases out@.len() - p,
        {
            if !crate::orient::str_le(out[p].as_str(), x.as_str()) {
                break;
            }
            p = p + 1;
        }
        proof {
            if p < out@.len() {
                lemma_lex_total(ov[p as int]@, x@);
                assert forall|q: int| p <= q < ov.len() implies lex_le(x@, #[trigger] ov[q]@) by {
                    if q > p {
                        assert(lex_le(ov[p as int]@, ov[q]@));
                        crate::text::lemma_lex_le_transitive(x@, ov[p as int]@, ov[q]@);
                    }
                }
            }
        }
        out.insert(p, x.clone());
        proof {
            let nw = out@;
            assert(nw =~= ov.insert(p as int, names@[i as int]));
            ov.insert_ensures(p as int, names@[i as int]);
            assert forall|a: int, b: int| 0 <= a < b < nw.len() implies lex_le(#[trigger] nw[a]@, #[trigger] nw[b]@) by {
                if b < p {
                } else if a < p && b == p {
                } else if a < p {
                    assert(nw[b] == ov[b - 1]);
                    assert(lex_le(ov[a]@, ov[b - 1]@));
                } else if a == p {
                    assert(nw[b] == ov[b - 1]);
                } else {
                    assert(nw[a] == ov[a - 1]);
                    assert(nw[b] == ov[b - 1]);
                }
            }
            assert(str_views(nw) =~= str_views(ov).insert(p as int, x@));
            crate::orient::lemma_insert_to_multiset(str_views(ov), p as int, x@);
            assert(nv.take(i + 1) =~= nv.take(i as int).push(x@));
            broadcast use vstd::seq_lib::group_to_multiset_ensures;
        }
        i = i + 1;
    }
    proof {
        assert(nv.take(names@.len() as int) =~= nv);
    }
    out
}

fn has_pair_exec<W>(k: &Vec<(usize, usize, W)>, a: usize, b: usize) -> (r: bool)
    ensures
        r == has_pair(k@, a, b),
{
    let mut q: usize = 0;
    while q < k.len()
        invariant
            q <= k@.len(),
            forall|j: int| 0 <= j < q ==> !((#[trigger] k@[j]).0 == a && k@[j].1 == b || k@[j].0 == b && k@[j].1 == a),
        decreases k@.len() - q,
    {
        let e = &k[q];
        if e.0 == a && e.1 == b || e.0 == b && e.1 == a {
            return true;
        }
        q = q + 1;
    }
    false
}

/// The Steiner tree left after pruning: the nodes that the spanning-tree
/// edges `mst_edges` touch, stripped of non-terminal leaves round after
/// round, named by `node_names` and sorted by name; and the edges between
/// the nodes left, each pair of ends once.
pub fn build_steiner_result<W: Copy>(
    node_names: &Vec<String>,
    terminal: &Vec<bool>,
    mst_edges: &Vec<(usize, usize, W)>,
) -> (t: SteinerTree<W>)
    requires
        node_names@.len() == terminal@.len(),
        forall|q: int| 0 <= q < mst_edges@.len() ==> (#[trigger] mst_edges@[q]).0 < terminal@.len() && mst_edges@[q].1
            < terminal@.len(),
        2 * mst_edges@.len() <= usize::MAX,
    ensures
        t.node_list().to_multiset() == alive_names(str_views(node_names@), pruned(mst_edges@, terminal@)).to_multiset(),
        forall|p: int, q: int| 0 <= p < q < t.node_list().len() ==> lex_le(#[trigger] t.node_list()[p], #[trigger] t.node_list()[q]),
        t.edge_list() == named_edges(str_views(node_names@), kept_edges(mst_edges@, pruned(mst_edges@, terminal@))),
        !has_leaf(mst_edges@, terminal@, pruned(mst_edges@, terminal@)),
{
    let alive = prune_leaves(mst_edges, terminal);
    let ghost nv = str_views(node_names@);
    let n = terminal.len();
    let mut kept_names: Vec<String> = Vec::new();
    let mut v: usize = 0;
    while v < n
        invariant
            v <= n,
            n == terminal@.len(),
            node_names@.len() == n,
            alive@.len() == n,
            nv == str_views(node_names@),
            str_views(kept_names@) == alive_names(nv, alive@.take(v as int)),
        decreases n - v,
    {
        proof {
            assert(alive@.take(v + 1).drop_last() =~= alive@.take(v as int));
        }
        if alive[v] {
            let ghost k0 = kept_names@;
            kept_names.push(node_names[v].clone());
            proof {
                assert(str_views(kept_names@) =~= str_views(k0).push(nv[v as int]));
            }
        }
        v = v + 1;
    }
    proof {
        assert(alive@.take(n as int) =~= alive@);
    }
    let nodes = sort_names(&kept_names);
    let mut kept: Vec<(usize, usize, W)> = Vec::new();
    let mut named: Vec<(String, String, W)> = Vec::new();
    let mut q: usize = 0;
    while q < mst_edges.len()
        invariant
            q <= mst_edges@.len(),
            n == terminal@.len(),
            node_names@.len() == n,
            alive@.len() == n,
            nv == str_views(node_names@),
            forall|q2: int| 0 <= q2 < mst_edges@.len() ==> (#[trigger] mst_edges@[q2]).0 < n && mst_edges@[q2].1 < n,
            kept@ == kept_edges(mst_edges@.take(q as int), alive@),
            crate::graph::edge_list_view(named@) == named_edges(nv, kept@),
        decreases mst_edges@.len() - q,
    {
        let e = mst_edges[q];
        proof {
            assert(mst_edges@[q as int] == e);
            assert(mst_edges@.take(q + 1).drop_last() =~= mst_edges@.take(q as int));
            assert(mst_edges@.take(q + 1).last() == e);
        }
        if alive[e.0] && alive[e.1] && !has_pair_exec(&kept, e.0, e.1) {
            let ghost n0 = named@;
            kept.push(e);
            named.push((node_names[e.0].clone(), node_names[e.1].clone(), e.2));
            proof {
                assert(crate::graph::edge_list_view(named@) =~= crate::graph::edge_list_view(n0).push((nv[e.0 as int], nv[e.1 as int], e.2)));
                assert(named_edges(nv, kept@) =~= named_edges(nv, kept@.drop_last()).push((nv[e.0 as int], nv[e.1 as int], e.2)));
            }
        }
        q = q + 1;
    }
    proof {
        assert(mst_edges@.take(mst_edges@.len() as int) =~= mst_edges@);
    }
    SteinerTree::new(nodes, named)
}

// ── Leaf removal keeps the terminals linked ─────────────────────────────────

/// The edges whose two ends are alive, in order.
pub open spec fn live_edges<W>(edges: Seq<(usize, usize, W)>, alive: Seq<bool>) -> Seq<(usize, usize, W)>
    decreases edges.len(),
{
    if edges.len() == 0 {
        Seq::empty()
    } else {
        let l = live_edges(edges.drop_last(), alive);
        let e = edges.last();
        if alive[e.0 as int] && alive[e.1 as int] {
            l.push(e)
        } else {
            l
        }
    }
}

proof fn lemma_live_from<W>(edges: Seq<(usize, usize, W)>, alive: Seq<bool>)
    ensures
        forall|i: int|
            0 <= i < live_edges(edges, alive).len() ==> exists|q: int|
                0 <= q < edges.len() && edges[q] == #[trigger] live_edges(edges, alive)[i] && alive[edges[q].0 as int]
                    && alive[edges[q].1 as int],
    decreases edges.len(),
{
    if edges.len() > 0 {
        let d = edges.drop_last();
        lemma_live_from(d, alive);
        let l = live_edges(d, alive);
        let ll = live_edges(edges, alive);
        assert forall|i: int| 0 <= i < ll.len() implies exists|q: int|
            0 <= q < edges.len() && edges[q] == #[trigger] ll[i] && alive[edges[q].0 as int] && alive[edges[q].1 as int] by {
            if i < l.len() {
                assert(ll[i] == l[i]);
                let q = choose|q: int| 0 <= q < d.len() && d[q] == #[trigger] l[i] && alive[d[q].0 as int] && alive[d[q].1 as int];
                assert(edges[q] == d[q]);
            } else {
                assert(ll[i] == edges[edges.len() - 1]);
            }
        }
    }
}

proof fn lemma_live_has<W>(edges: Seq<(usize, usize, W)>, alive: Seq<bool>, q: int)
    requires
        0 <= q < edges.len(),
        alive[edges[q].0 as int],
        alive[edges[q].1 as int],
    ensures
        live_edges(edges, alive).contains(edges[q]),
    decreases edges.len(),
{
    let d = edges.drop_last();
    let l = live_edges(d, alive);
    if q < d.len() {
        assert(d[q] == edges[q]);
        lemma_live_has(d, alive, q);
        let i = l.index_of(edges[q]);
        if alive[edges.last().0 as int] && alive[edges.last().1 as int] {
            assert(l.push(edges.last())[i] == edges[q]);
        }
    } else {
        assert(l.push(edges.last())[l.len() as int] == edges[q]);
    }
}

/// How many ends of `e` lie at `v` with the other end alive.
pub open spec fn ends_at<W>(e: (usize, usize, W), alive: Seq<bool>, v: usize) -> nat {
    (if e.0 == v && alive[e.1 as int] { 1nat } else { 0nat }) + (if e.1 == v && alive[e.0 as int] {
        1nat
    } else {
        0nat
    })
}

proof fn lemma_deg_ge<W>(edges: Seq<(usize, usize, W)>, alive: Seq<bool>, v: usize, q1: int, q2: int)
    requires
        0 <= q1 < edges.len(),
        0 <= q2 < edges.len(),
    ensures
        deg_in(edges, alive, v) >= ends_at(edges[q1], alive, v),
        q1 != q2 ==> deg_in(edges, alive, v) >= ends_at(edges[q1], alive, v) + ends_at(edges[q2], alive, v),
    decreases edges.len(),
{
    let d = edges.drop_last();
    let last = edges.len() - 1;
    if q1 < last && q2 < last {
        assert(d[q1] == edges[q1] && d[q2] == edges[q2]);
        lemma_deg_ge(d, alive, v, q1, q2);
    } else if q1 < last {
        assert(d[q1] == edges[q1]);
        lemma_deg_ge(d, alive, v, q1, q1);
    } else if q2 < last {
        assert(d[q2] == edges[q2]);
        lemma_deg_ge(d, alive, v, q2, q2);
    }
}

/// Edge `q` joins `v` to `w`, and its end at `v` counts towards `v`'s
/// degree.
pub open spec fn hangs<W>(edges: Seq<(usize, usize, W)>, alive: Seq<bool>, v: usize, q: int, w: usize) -> bool {
    &&& 0 <= q < edges.len()
    &&& ends_at(edges[q], alive, v) > 0
    &&& (edges[q].0 == v && edges[q].1 == w || edges[q].1 == v && edges[q].0 == w)
}

/// The alive node that a leaf hangs from.
pub open spec fn partner<W>(edges: Seq<(usize, usize, W)>, alive: Seq<bool>, v: usize) -> usize {
    (choose|w: usize, q: int| #[trigger] hangs(edges, alive, v, q, w)).0
}

proof fn lemma_leaf_partner<W>(edges: Seq<(usize, usize, W)>, terminal: Seq<bool>, alive: Seq<bool>, v: usize, q: int)
    requires
        is_leaf(edges, terminal, alive, v),
        0 <= q < edges.len(),
        ends_at(edges[q], alive, v) > 0,
    ensures
        edges[q].0 != edges[q].1,
        edges[q].0 == v ==> partner(edges, alive, v) == edges[q].1,
        edges[q].1 == v ==> partner(edges, alive, v) == edges[q].0,
{
    lemma_deg_ge(edges, alive, v, q, q);
    let w = if edges[q].0 == v { edges[q].1 } else { edges[q].0 };
    assert(hangs(edges, alive, v, q, w));
    let (p, q2) = choose|w2: usize, q2: int| #[trigger] hangs(edges, alive, v, q2, w2);
    assert(partner(edges, alive, v) == p);
    if q2 != q {
        lemma_deg_ge(edges, alive, v, q, q2);
    }
}

/// Where a round of leaf removal sends a node: a removed leaf goes to the
/// node it hangs from, or, when that is a removed leaf too, both go to the
/// smaller of the two; every other node stays.
pub open spec fn leaf_target<W>(edges: Seq<(usize, usize, W)>, terminal: Seq<bool>, alive: Seq<bool>, x: usize) -> usize {
    if is_leaf(edges, terminal, alive, x) {
        let w = partner(edges, alive, x);
        if is_leaf(edges, terminal, alive, w) {
            if x < w { x } else { w }
        } else {
            w
        }
    } else {
        x
    }
}

proof fn lemma_strip_linked<W>(edges: Seq<(usize, usize, W)>, terminal: Seq<bool>, alive: Seq<bool>, s: usize, t: usize)
    requires
        terminal.len() == alive.len(),
        forall|q: int| 0 <= q < edges.len() ==> (#[trigger] edges[q]).0 < alive.len() && edges[q].1 < alive.len(),
        (s as int) < alive.len(),
        (t as int) < alive.len(),
        terminal[s as int],
        terminal[t as int],
        linked(live_edges(edges, alive), s, t),
    ensures
        linked(live_edges(edges, strip_leaves(edges, terminal, alive)), s, t),
{
    let a2 = strip_leaves(edges, terminal, alive);
    let e1 = live_edges(edges, alive);
    let e2 = live_edges(edges, a2);
    let f = |x: usize| leaf_target(edges, terminal, alive, x);
    lemma_live_from(edges, alive);
    assert forall|i: int| 0 <= i < e1.len() implies f((#[trigger] e1[i]).0) == f(e1[i].1) || joined(e2, f(e1[i].0), f(e1[i].1)) by {
        let q = choose|q: int| 0 <= q < edges.len() && edges[q] == #[trigger] e1[i] && alive[edges[q].0 as int] && alive[edges[q].1 as int];
        let a = edges[q].0;
        let b = edges[q].1;
        let la = is_leaf(edges, terminal, alive, a);
        let lb = is_leaf(edges, terminal, alive, b);
        if la {
            assert(ends_at(edges[q], alive, a) > 0);
            lemma_leaf_partner(edges, terminal, alive, a, q);
        }
        if lb {
            assert(ends_at(edges[q], alive, b) > 0);
            lemma_leaf_partner(edges, terminal, alive, b, q);
        }
        if !la && !lb {
            assert(a2[a as int] && a2[b as int]);
            lemma_live_has(edges, a2, q);
            let r = e2.index_of(edges[q]);
            assert(joined(e2, a, b));
        }
    }
    assert(f(s) == s);
    assert(f(t) == t);
    lemma_linked_map(e1, e2, f, s, t);
}

proof fn lemma_prune_linked<W>(edges: Seq<(usize, usize, W)>, terminal: Seq<bool>, alive: Seq<bool>, fuel: nat, s: usize, t: usize)
    requires
        terminal.len() == alive.len(),
        alive.len() <= usize::MAX,
        forall|q: int| 0 <= q < edges.len() ==> (#[trigger] edges[q]).0 < alive.len() && edges[q].1 < alive.len(),
        (s as int) < alive.len(),
        (t as int) < alive.len(),
        terminal[s as int],
        terminal[t as int],
        linked(live_edges(edges, alive), s, t),
    ensures
        linked(live_edges(edges, prune_from(edges, terminal, alive, fuel)), s, t),
    decreases fuel,
{
    if fuel > 0 && has_leaf(edges, terminal, alive) {
        lemma_strip_linked(edges, terminal, alive, s, t);
        lemma_prune_linked(edges, terminal, strip_leaves(edges, terminal, alive), (fuel - 1) as nat, s, t);
    }
}

proof fn lemma_kept_pairs<W>(edges: Seq<(usize, usize, W)>, alive: Seq<bool>, q: int)
    requires
        0 <= q < edges.len(),
        alive[edges[q].0 as int],
        alive[edges[q].1 as int],
    ensures
        has_pair(kept_edges(edges, alive), edges[q].0, edges[q].1),
    decreases edges.len(),
{
    let d = edges.drop_last();
    let k = kept_edges(d, alive);
    let e = edges.last();
    if q < d.len() {
        assert(d[q] == edges[q]);
        lemma_kept_pairs(d, alive, q);
        let r = choose|r: int| 0 <= r < k.len() && ((#[trigger] k[r]).0 == d[q].0 && k[r].1 == d[q].1 || k[r].0 == d[q].1 && k[r].1 == d[q].0);
        if alive[e.0 as int] && alive[e.1 as int] && !has_pair(k, e.0, e.1) {
            assert(k.push(e)[r] == k[r]);
        }
    } else {
        if !has_pair(k, e.0, e.1) {
            assert(k.push(e)[k.len() as int] == e);
        }
    }
}

/// Leaf removal keeps the terminals linked: two terminals that the
/// spanning-tree edges link are still linked by the edges that
/// `build_steiner_result` keeps, by index and by name.
pub proof fn law_pruning_keeps_terminals_linked<W>(
    names: Seq<Seq<char>>,
    edges: Seq<(usize, usize, W)>,
    terminal: Seq<bool>,
    s: usize,
    t: usize,
)
    requires
        names.len() == terminal.len(),
        terminal.len() <= usize::MAX,
        forall|q: int| 0 <= q < edges.len() ==> (#[trigger] edges[q]).0 < terminal.len() && edges[q].1 < terminal.len(),
        (s as int) < terminal.len(),
        (t as int) < terminal.len(),
        terminal[s as int],
        terminal[t as int],
        linked(edges, s, t),
    ensures
        linked(kept_edges(edges, pruned(edges, terminal)), s, t),
        linked(named_edges(names, kept_edges(edges, pruned(edges, terminal))), names[s as int], names[t as int]),
{
    let n = terminal.len();
    let a0 = touched(edges, n);
    let p = pruned(edges, terminal);
    // Every edge touches its ends, so all edges are live at the start.
    let id = |x: usize| x;
    assert forall|q: int| 0 <= q < edges.len() implies id((#[trigger] edges[q]).0) == id(edges[q].1) || joined(
        live_edges(edges, a0),
        id(edges[q].0),
        id(edges[q].1),
    ) by {
        assert(a0[edges[q].0 as int]);
        assert(a0[edges[q].1 as int]);
        lemma_live_has(edges, a0, q);
        let r = live_edges(edges, a0).index_of(edges[q]);
    }
    lemma_linked_map(edges, live_edges(edges, a0), id, s, t);
    lemma_prune_linked(edges, terminal, a0, n + 1, s, t);
    // Each live edge has an edge with the same ends among the kept ones.
    let lp = live_edges(edges, p);
    let k = kept_edges(edges, p);
    lemma_live_from(edges, p);
    assert forall|i: int| 0 <= i < lp.len() implies id((#[trigger] lp[i]).0) == id(lp[i].1) || joined(k, id(lp[i].0), id(lp[i].1)) by {
        let q = choose|q: int| 0 <= q < edges.len() && edges[q] == #[trigger] lp[i] && p[edges[q].0 as int] && p[edges[q].1 as int];
        lemma_kept_pairs(edges, p, q);
    }
    lemma_linked_map(lp, k, id, s, t);
    // Naming the ends carries the links over.
    let nm = |x: usize| names[x as int];
    let ne = named_edges(names, k);
    assert forall|i: int| 0 <= i < k.len() implies nm((#[trigger] k[i]).0) == nm(k[i].1) || joined(ne, nm(k[i].0), nm(k[i].1)) by {
        assert(ne[i] == (names[k[i].0 as int], names[k[i].1 as int], k[i].2));
    }
    lemma_linked_map(k, ne, nm, s, t);
}

// ── Leaf removal keeps a forest a forest ────────────────────────────────────

/// No edge joins two nodes that the edges before it already link: the
/// edges form a forest.
pub open spec fn is_forest<N, W>(edges: Seq<(N, N, W)>) -> bool {
    forall|j: int| 0 <= j < edges.len() ==> !linked(#[trigger] edges.take(j), edges[j].0, edges[j].1)
}

/// `x` is one of the first `q` edges.
pub open spec fn occurs_before<W>(edges: Seq<(usize, usize, W)>, x: (usize, usize, W), q: int) -> bool {
    exists|r: int| 0 <= r < q && #[trigger] edges[r] == x
}

proof fn lemma_kept_origin<W>(edges: Seq<(usize, usize, W)>, alive: Seq<bool>, j: int) -> (q: int)
    requires
        0 <= j < kept_edges(edges, alive).len(),
    ensures
        0 <= q < edges.len(),
        kept_edges(edges, alive)[j] == edges[q],
        forall|i: int| 0 <= i < j ==> occurs_before(edges, #[trigger] kept_edges(edges, alive)[i], q),
    decreases edges.len(),
{
    let d = edges.drop_last();
    let k = kept_edges(d, alive);
    let kk = kept_edges(edges, alive);
    if j < k.len() {
        assert(kk[j] == k[j]);
        let q = lemma_kept_origin(d, alive, j);
        assert forall|i: int| 0 <= i < j implies occurs_before(edges, #[trigger] kk[i], q) by {
            assert(kk[i] == k[i]);
            assert(occurs_before(d, k[i], q));
            let r = choose|r: int| 0 <= r < q && #[trigger] d[r] == k[i];
            assert(edges[r] == d[r]);
        }
        assert(edges[q] == d[q]);
        q
    } else {
        let q = edges.len() - 1;
        assert forall|i: int| 0 <= i < j implies occurs_before(edges, #[trigger] kk[i], q) by {
            assert(kk[i] == k[i]);
            let r = lemma_kept_origin(d, alive, i);
            assert(edges[r] == d[r]);
        }
        q
    }
}

/// Leaf removal keeps a forest a forest: when the spanning-tree edges form
/// a forest, so do the edges that `build_steiner_result` keeps, by index,
/// and by name when no two nodes share a name.
pub proof fn law_pruning_keeps_forest<W>(names: Seq<Seq<char>>, edges: Seq<(usize, usize, W)>, terminal: Seq<bool>)
    requires
        is_forest(edges),
        forall|q: int| 0 <= q < edges.len() ==> (#[trigger] edges[q]).0 < names.len() && edges[q].1 < names.len(),
    ensures
        is_forest(kept_edges(edges, pruned(edges, terminal))),
        names.no_duplicates() ==> is_forest(named_edges(names, kept_edges(edges, pruned(edges, terminal)))),
{
    let p = pruned(edges, terminal);
    let k = kept_edges(edges, p);
    let id = |x: usize| x;
    assert forall|j: int| 0 <= j < k.len() implies !linked(#[trigger] k.take(j), k[j].0, k[j].1) by {
        let q = lemma_kept_origin(edges, p, j);
        if linked(k.take(j), k[j].0, k[j].1) {
            let kt = k.take(j);
            let et = edges.take(q);
            assert forall|i: int| 0 <= i < kt.len() implies id((#[trigger] kt[i]).0) == id(kt[i].1) || joined(et, id(kt[i].0), id(kt[i].1)) by {
                assert(kt[i] == k[i]);
                assert(occurs_before(edges, k[i], q));
                let r = choose|r: int| 0 <= r < q && #[trigger] edges[r] == k[i];
                assert(et[r] == edges[r]);
            }
            lemma_linked_map(kt, et, id, k[j].0, k[j].1);
            assert(!linked(edges.take(q), edges[q].0, edges[q].1));
        }
    }
    if names.no_duplicates() {
        let ne = named_edges(names, k);
        let back = |x: Seq<char>| names.index_of(x) as usize;
        lemma_live_from(edges, p);
        assert forall|i: int| 0 <= i < k.len() implies (#[trigger] k[i]).0 < names.len() && k[i].1 < names.len() by {
            let q = lemma_kept_origin(edges, p, i);
        }
        assert forall|j: int| 0 <= j < ne.len() implies !linked(#[trigger] ne.take(j), ne[j].0, ne[j].1) by {
            if linked(ne.take(j), ne[j].0, ne[j].1) {
                let nt = ne.take(j);
                let kt = k.take(j);
                assert forall|i: int| 0 <= i < nt.len() implies back((#[trigger] nt[i]).0) == back(nt[i].1) || joined(kt, back(nt[i].0), back(nt[i].1)) by {
                    assert(nt[i] == ne[i]);
                    assert(kt[i] == k[i]);
                    assert(names.index_of(names[k[i].0 as int]) == k[i].0);
                    assert(names.index_of(names[k[i].1 as int]) == k[i].1);
                }
                lemma_linked_map(nt, kt, back, ne[j].0, ne[j].1);
                assert(names.index_of(names[k[j].0 as int]) == k[j].0);
                assert(names.index_of(names[k[j].1 as int]) == k[j].1);
                assert(!linked(k.take(j), k[j].0, k[j].1));
            }
        }
    }
}

/// Sorting names leaves no choice: two lists sorted by `lex_le` that hold
/// the same names (with the same multiplicities) are the same list. So the
/// node list of `build_steiner_result`, whose contract gives its names and
/// its order, is fixed by the inputs; its edge list is given exactly.
pub proof fn law_sorted_names_unique(a: Seq<Seq<char>>, b: Seq<Seq<char>>)
    requires
        forall|p: int, q: int| 0 <= p < q < a.len() ==> lex_le(#[trigger] a[p], #[trigger] a[q]),
        forall|p: int, q: int| 0 <= p < q < b.len() ==> lex_le(#[trigger] b[p], #[trigger] b[q]),
        a.to_multiset() == b.to_multiset(),
    ensures
        a == b,
{
    let leq = |x: Seq<char>, y: Seq<char>| lex_le(x, y);
    assert(vstd::relations::sorted_by(a, leq));
    assert(vstd::relations::sorted_by(b, leq));
    assert(vstd::relations::total_ordering(leq)) by {
        assert forall|x: Seq<char>, y: Seq<char>| #[trigger] leq(x, y) && #[trigger] leq(y, x) implies x == y by {
            crate::text::lemma_lex_asymmetric(x, y);
        }
        assert forall|x: Seq<char>, y: Seq<char>, z: Seq<char>| #[trigger] leq(x, y) && #[trigger] leq(y, z) implies leq(x, z) by {
            crate::text::lemma_lex_le_transitive(x, y, z);
        }
        assert forall|x: Seq<char>, y: Seq<char>| #[trigger] leq(x, y) || #[trigger] leq(y, x) by {
            lemma_lex_total(x, y);
        }
    }
    vstd::seq_lib::lemma_sorted_unique(a, b, leq);
}

} // verus!
