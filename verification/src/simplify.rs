//! The node-keeping part of simplifying an oriented sewer tree: which
//! nodes must stay whatever the manhole spacing, and the chains of edges
//! that run from each of them to the next.

use vstd::prelude::*;

use crate::connect::contains_str;
use crate::graph::SolverGraph;
use crate::orient::{lemma_insert_to_multiset, str_le};
use crate::steiner::{lemma_pair_transitive, pair_lt};
use crate::text::{lemma_lex_asymmetric, lemma_lex_le_transitive, lemma_lex_total, lex_le, lex_lt, str_eq, str_views};

verus! {

/// Number of outgoing edges, in `g`, of the node named `x` (none when `g`
/// has no such node).
pub open spec fn degree_of<W>(g: SolverGraph<W>, x: Seq<char>) -> nat {
    g.named_out_of(x).len()
}

/// Node `i` of `oriented` must be kept: it is the outlet or a terminal, or
/// its out-degree plus its out-degree in the reversed graph is not 2.
pub open spec fn must_keep_node<W>(
    oriented: SolverGraph<W>,
    in_oriented: SolverGraph<W>,
    terminals: Seq<Seq<char>>,
    outlet: Seq<char>,
    i: int,
) -> bool {
    let x = oriented.names()[i];
    x == outlet || terminals.contains(x) || oriented.out_edges(i).len() + degree_of(in_oriented, x)
        != 2
}

/// Which nodes must stay: the outlet and the terminals always; any other
/// node exactly when its out-degree plus its in-degree (its out-degree in
/// the reversed graph) is not 2 — so every leaf, every isolated node and
/// every junction of three or more pipes stays, and only the pass-through
/// nodes of degree 2 may go.
pub proof fn law_must_keep_degrees<W>(
    oriented: SolverGraph<W>,
    in_oriented: SolverGraph<W>,
    terminals: Seq<Seq<char>>,
    outlet: Seq<char>,
    i: int,
)
    ensures
        ({
            let x = oriented.names()[i];
            let d = oriented.out_edges(i).len() + degree_of(in_oriented, x);
            &&& x == outlet ==> must_keep_node(oriented, in_oriented, terminals, outlet, i)
            &&& terminals.contains(x) ==> must_keep_node(oriented, in_oriented, terminals, outlet, i)
            &&& d >= 3 ==> must_keep_node(oriented, in_oriented, terminals, outlet, i)
            &&& d <= 1 ==> must_keep_node(oriented, in_oriented, terminals, outlet, i)
            &&& (x != outlet && !terminals.contains(x) && d == 2) ==> !must_keep_node(
                oriented,
                in_oriented,
                terminals,
                outlet,
                i,
            )
        }),
{
}

/// For each node of `oriented`, whether it must be kept.
pub fn must_keep<W: Copy>(
    oriented: &SolverGraph<W>,
    in_oriented: &SolverGraph<W>,
    terminals: &Vec<String>,
    outlet: &str,
) -> (keep: Vec<bool>)
    requires
        oriented.wf(),
        in_oriented.wf(),
    ensures
        keep@.len() == oriented.n(),
        forall|i: int|
            0 <= i < oriented.n() ==> #[trigger] keep@[i] == must_keep_node(
                *oriented,
                *in_oriented,
                str_views(terminals@),
                outlet@,
                i,
            ),
{
    let n = oriented.node_count();
    let mut keep: Vec<bool> = Vec::new();
    let mut i: usize = 0;
    while i < n
        invariant
            oriented.wf(),
            in_oriented.wf(),
            n == oriented.n(),
            i <= n,
            keep@.len() == i,
            forall|k: int|
                0 <= k < i ==> #[trigger] keep@[k] == must_keep_node(
                    *oriented,
                    *in_oriented,
                    str_views(terminals@),
                    outlet@,
                    k,
                ),
        decreases n - i,
    {
        let name = oriented.node_id(i);
        let nb = oriented.sorted_neighbors(i);
        let out_deg = nb.len();
        proof {
            nb@.to_multiset_ensures();
            oriented.out_edges(i as int).to_multiset_ensures();
        }
        let in_deg = match in_oriented.node_index(name) {
            Some(j) => {
                let nbj = in_oriented.sorted_neighbors(j);
                let d = nbj.len();
                proof {
                    nbj@.to_multiset_ensures();
                    in_oriented.out_edges(j as int).to_multiset_ensures();
                    in_oriented.lemma_names_unique();
                    let x = oriented.names()[i as int];
                    assert(in_oriented.names().contains(x));
                    let p = in_oriented.names().index_of(x);
                    assert(in_oriented.names()[p] == x);
                    assert(p == j as int);
                    assert(degree_of(*in_oriented, x) == in_oriented.out_edges(j as int).len());
                }
                d
            },
            None => 0,
        };
        let is_outlet = str_eq(name, outlet);
        let is_terminal = contains_str(terminals, name);
        let two = out_deg <= 2 && in_deg == 2 - out_deg;
        let k = is_outlet || is_terminal || !two;
        keep.push(k);
        i = i + 1;
    }
    keep
}

/// `t` is the successor of `v` whose name comes first.
pub open spec fn is_first_succ<W>(g: SolverGraph<W>, v: int, t: int) -> bool {
    &&& g.has_edge(v, t)
    &&& forall|u: int| #[trigger] g.has_edge(v, u) ==> lex_le(g.names()[t], g.names()[u])
}

/// The nodes a chain passes from `cur` on: `cur` itself when it is kept;
/// otherwise `cur` and then the chain from its first successor, or `cur`
/// twice when it has none. At most `fuel` steps are followed.
pub open spec fn walk<W>(g: SolverGraph<W>, keep: Seq<bool>, cur: int, fuel: nat) -> Seq<usize>
    decreases fuel,
{
    if fuel == 0 || keep[cur] {
        seq![cur as usize]
    } else if exists|t: int| #[trigger] is_first_succ(g, cur, t) {
        seq![cur as usize] + walk(g, keep, choose|t: int| #[trigger] is_first_succ(g, cur, t), (fuel - 1) as nat)
    } else {
        seq![cur as usize, cur as usize]
    }
}

proof fn lemma_first_succ_unique<W>(g: SolverGraph<W>, v: int, t1: int, t2: int)
    requires
        g.wf(),
        0 <= v < g.n(),
        is_first_succ(g, v, t1),
        is_first_succ(g, v, t2),
    ensures
        t1 == t2,
{
    g.lemma_out_edges_targets(v);
    g.lemma_names_unique();
    let k1 = choose|k: int| 0 <= k < g.out_edges(v).len() && #[trigger] g.out_edges(v)[k].0 == t1;
    let k2 = choose|k: int| 0 <= k < g.out_edges(v).len() && #[trigger] g.out_edges(v)[k].0 == t2;
    assert(lex_le(g.names()[t1], g.names()[t2]));
    assert(lex_le(g.names()[t2], g.names()[t1]));
    lemma_lex_asymmetric(g.names()[t1], g.names()[t2]);
    assert(g.names()[t1] == g.names()[t2]);
}

proof fn lemma_no_successor<W>(g: SolverGraph<W>, v: int, next: Seq<(usize, W)>)
    requires
        next.to_multiset() == g.out_edges(v).to_multiset(),
        next.len() == 0,
    ensures
        !exists|t: int| #[trigger] is_first_succ(g, v, t),
{
    broadcast use vstd::seq_lib::group_to_multiset_ensures;

    if exists|t: int| #[trigger] is_first_succ(g, v, t) {
        let t = choose|t: int| #[trigger] is_first_succ(g, v, t);
        let k = choose|k: int| 0 <= k < g.out_edges(v).len() && #[trigger] g.out_edges(v)[k].0 == t;
        let e = g.out_edges(v)[k];
        assert(g.out_edges(v).contains(e));
        assert(g.out_edges(v).to_multiset().count(e) > 0);
        assert(next.to_multiset().len() == 0);
        assert(next.to_multiset().count(e) > 0);
    }
}

/// The chain that starts with the edge `start -> succ` and runs on through
/// nodes that are not kept, each time to the successor whose name comes
/// first, up to the next kept node (or twice the last node, when it has no
/// successor).
pub fn walk_chain<W: Copy>(g: &SolverGraph<W>, keep: &Vec<bool>, start: usize, succ: usize) -> (chain: Vec<usize>)
    requires
        g.wf(),
        g.is_acyclic(),
        keep@.len() == g.n(),
        start < g.n(),
        succ < g.n(),
    ensures
        chain@ == seq![start] + walk(*g, keep@, succ as int, g.n()),
{
    broadcast use vstd::seq_lib::group_to_multiset_ensures;

    let ghost n = g.n();
    let ghost topo = choose|o: Seq<usize>| g.is_topo_order(o);
    proof {
        crate::graph::lemma_distinct_bounded_len(topo, n);
    }
    let mut chain: Vec<usize> = Vec::new();
    chain.push(start);
    let mut current = succ;
    let ghost mut f: nat = n;
    let ghost mut p: int = topo.index_of(succ);
    proof {
        assert(topo.contains(succ));
    }
    loop
        invariant_except_break
            chain@ + walk(*g, keep@, current as int, f) == seq![start] + walk(*g, keep@, succ as int, n),
        invariant
            g.wf(),
            n == g.n(),
            keep@.len() == n,
            g.is_topo_order(topo),
            current < n,
            0 <= p < topo.len(),
            topo[p] == current,
            topo.len() <= n,
            f >= n - p,
        ensures
            chain@ == seq![start] + walk(*g, keep@, succ as int, n),
        decreases n - p,
    {
        if keep[current] {
            proof {
                assert(walk(*g, keep@, current as int, f) == seq![current]);
            }
            chain.push(current);
            proof {
                assert(chain@ =~= chain@.drop_last() + seq![current]);
            }
            break;
        }
        let ghost c0 = chain@;
        chain.push(current);
        let next = g.sorted_neighbors(current);
        if next.len() == 0 {
            proof {
                lemma_no_successor(*g, current as int, next@);
                assert(walk(*g, keep@, current as int, f) == seq![current, current]);
                assert(chain@ + seq![current] =~= c0 + seq![current, current]);
            }
            chain.push(current);
            break;
        }
        let t = next[0].0;
        proof {
            broadcast use vstd::seq_lib::group_to_multiset_ensures;

            let v = current as int;
            g.lemma_out_edges_targets(v);
            assert(next@.contains(next@[0]));
            assert(next@.to_multiset().count(next@[0]) > 0);
            assert(g.out_edges(v).contains(next@[0]));
            let k0 = g.out_edges(v).index_of(next@[0]);
            assert(g.out_edges(v)[k0].0 == t);
            assert(g.has_edge(v, t as int));
            assert forall|u: int| #[trigger] g.has_edge(v, u) implies lex_le(g.names()[t as int], g.names()[u]) by {
                let k = choose|k: int| 0 <= k < g.out_edges(v).len() && #[trigger] g.out_edges(v)[k].0 == u;
                let e = g.out_edges(v)[k];
                assert(g.out_edges(v).contains(e));
                assert(g.out_edges(v).to_multiset().count(e) > 0);
                assert(next@.contains(e));
                let q = next@.index_of(e);
                if q > 0 {
                    assert(lex_le(g.names()[next@[0].0 as int], g.names()[next@[q].0 as int]));
                }
            }
            assert(is_first_succ(*g, v, t as int));
            let ch = choose|x: int| #[trigger] is_first_succ(*g, v, x);
            lemma_first_succ_unique(*g, v, ch, t as int);
            assert(walk(*g, keep@, v, f) == seq![current] + walk(*g, keep@, t as int, (f - 1) as nat));
            assert(chain@ =~= c0 + seq![current]);
            assert(c0 + walk(*g, keep@, v, f) =~= chain@ + walk(*g, keep@, t as int, (f - 1) as nat));
            assert(topo.contains(t));
            let p2 = topo.index_of(t);
            assert(g.has_edge(topo[p] as int, topo[p2] as int));
            assert(p < p2);
            f = (f - 1) as nat;
            p = p2;
        }
        current = t;
    }
    chain
}

/// The nodes of `v` in the order of their names (stable for equal names).
fn sort_by_name<W>(g: &SolverGraph<W>, v: &Vec<usize>) -> (r: Vec<usize>)
    requires
        g.wf(),
        forall|k: int| 0 <= k < v@.len() ==> (#[trigger] v@[k]) < g.n(),
    ensures
        r@.to_multiset() == v@.to_multiset(),
        forall|k: int| 0 <= k < r@.len() ==> (#[trigger] r@[k]) < g.n(),
        forall|p: int, q: int|
            0 <= p < q < r@.len() ==> lex_le(g.names()[#[trigger] r@[p] as int], g.names()[#[trigger] r@[q] as int]),
{
    let mut out: Vec<usize> = Vec::new();
    let mut i: usize = 0;
    proof {
        assert(v@.take(0) =~= Seq::<usize>::empty());
        assert(out@ =~= Seq::<usize>::empty());
    }
    while i < v.len()
        invariant
            g.wf(),
            i <= v@.len(),
            forall|k: int| 0 <= k < v@.len() ==> (#[trigger] v@[k]) < g.n(),
            out@.to_multiset() == v@.take(i as int).to_multiset(),
            forall|k: int| 0 <= k < out@.len() ==> (#[trigger] out@[k]) < g.n(),
            forall|p: int, q: int|
                0 <= p < q < out@.len() ==> lex_le(g.names()[#[trigger] out@[p] as int], g.names()[#[trigger] out@[q] as int]),
        decreases v@.len() - i,
    {
        let x = v[i];
        let ghost ov = out@;
        let ghost xn = g.names()[x as int];
        let mut p: usize = 0;
        while p < out.len()
            invariant
                g.wf(),
                p <= out@.len(),
                ov == out@,
                x < g.n(),
                xn == g.names()[x as int],
                forall|k: int| 0 <= k < out@.len() ==> (#[trigger] out@[k]) < g.n(),
                forall|k: int| 0 <= k < p ==> lex_le(g.names()[#[trigger] ov[k] as int], xn),
            ensures
                p <= out@.len(),
                forall|k: int| 0 <= k < p ==> lex_le(g.names()[#[trigger] ov[k] as int], xn),
                p < out@.len() ==> !lex_le(g.names()[ov[p as int] as int], xn),
            decreases out@.len() - p,
        {
            if !str_le(g.node_id(out[p]), g.node_id(x)) {
                break;
            }
            p = p + 1;
        }
        proof {
            if p < out@.len() {
                lemma_lex_total(g.names()[ov[p as int] as int], xn);
                assert forall|q: int| p <= q < ov.len() implies lex_le(xn, g.names()[#[trigger] ov[q] as int]) by {
                    if q > p {
                        assert(lex_le(g.names()[ov[p as int] as int], g.names()[ov[q] as int]));
                        lemma_lex_le_transitive(xn, g.names()[ov[p as int] as int], g.names()[ov[q] as int]);
                    }
                }
            }
        }
        out.insert(p, x);
        proof {
            let nw = out@;
            ov.insert_ensures(p as int, x);
            assert forall|a: int, b: int| 0 <= a < b < nw.len() implies lex_le(g.names()[#[trigger] nw[a] as int], g.names()[#[trigger] nw[b] as int]) by {
                if b < p {
                } else if a < p && b == p {
                } else if a < p {
                    assert(nw[b] == ov[b - 1]);
                    assert(lex_le(g.names()[ov[a] as int], g.names()[ov[b - 1] as int]));
                } else if a == p {
                    assert(nw[b] == ov[b - 1]);
                } else {
                    assert(nw[a] == ov[a - 1]);
                    assert(nw[b] == ov[b - 1]);
                }
            }
            assert forall|k: int| 0 <= k < nw.len() implies (#[trigger] nw[k]) < g.n() by {
                if k < p {
                } else if k > p {
                    assert(nw[k] == ov[k - 1]);
                }
            }
            lemma_insert_to_multiset(ov, p as int, x);
            assert(v@.take(i + 1) =~= v@.take(i as int).push(x));
            broadcast use vstd::seq_lib::group_to_multiset_ensures;
        }
        i = i + 1;
    }
    proof {
        assert(v@.take(v@.len() as int) =~= v@);
    }
    out
}


proof fn min_target<W>(g: SolverGraph<W>, v: int, k: int) -> (m: int)
    requires
        g.wf(),
        0 <= v < g.n(),
        0 < k <= g.out_edges(v).len(),
    ensures
        0 <= m < k,
        forall|j: int| 0 <= j < k ==> lex_le(g.names()[g.out_edges(v)[m].0 as int], g.names()[(#[trigger] g.out_edges(v)[j]).0 as int]),
    decreases k,
{
    let o = g.out_edges(v);
    if k == 1 {
        0
    } else {
        let m0 = min_target(g, v, k - 1);
        let a = g.names()[o[m0].0 as int];
        let b = g.names()[o[k - 1].0 as int];
        lemma_lex_total(a, b);
        if lex_le(a, b) {
            m0
        } else {
            assert forall|j: int| 0 <= j < k implies lex_le(b, g.names()[(#[trigger] o[j]).0 as int]) by {
                if j < k - 1 {
                    lemma_lex_le_transitive(b, a, g.names()[o[j].0 as int]);
                }
            }
            k - 1
        }
    }
}

proof fn lemma_first_succ_exists<W>(g: SolverGraph<W>, v: int)
    requires
        g.wf(),
        0 <= v < g.n(),
        g.out_edges(v).len() > 0,
    ensures
        exists|t: int| #[trigger] is_first_succ(g, v, t),
{
    let o = g.out_edges(v);
    let m = min_target(g, v, o.len() as int);
    let t = o[m].0 as int;
    assert(g.has_edge(v, t));
    assert forall|u: int| #[trigger] g.has_edge(v, u) implies lex_le(g.names()[t], g.names()[u]) by {
        let j = choose|j: int| 0 <= j < o.len() && #[trigger] o[j].0 == u;
        assert(lex_le(g.names()[t], g.names()[o[j].0 as int]));
    }
    assert(is_first_succ(g, v, t));
}

proof fn lemma_walk_stops<W>(g: SolverGraph<W>, keep: Seq<bool>, cur: int, f: nat, topo: Seq<usize>, p: int)
    requires
        g.wf(),
        keep.len() == g.n(),
        g.is_topo_order(topo),
        topo.len() <= g.n(),
        0 <= p < topo.len(),
        topo[p] == cur,
        f >= g.n() - p,
    ensures
        ({
            let w = walk(g, keep, cur, f);
            &&& w.len() >= 1
            &&& w.last() < g.n()
            &&& keep[w.last() as int] || (w.len() >= 2 && w[w.len() - 2] == w.last() && g.out_edges(
                w.last() as int,
            ).len() == 0)
        }),
    decreases f,
{
    if keep[cur] {
    } else if exists|t: int| #[trigger] is_first_succ(g, cur, t) {
        let t = choose|t: int| #[trigger] is_first_succ(g, cur, t);
        g.lemma_out_edges_targets(cur);
        let k = choose|k: int| 0 <= k < g.out_edges(cur).len() && #[trigger] g.out_edges(cur)[k].0 == t;
        assert(t < g.n());
        assert(topo.contains(t as usize));
        let p2 = topo.index_of(t as usize);
        assert(g.has_edge(topo[p] as int, topo[p2] as int));
        assert(p < p2);
        lemma_walk_stops(g, keep, t, (f - 1) as nat, topo, p2);
        let sub = walk(g, keep, t, (f - 1) as nat);
        let w = walk(g, keep, cur, f);
        assert(w == seq![cur as usize] + sub);
        assert(w.last() == sub.last());
        if sub.len() >= 2 {
            assert(w[w.len() - 2] == sub[sub.len() - 2]);
        }
    } else {
        if g.out_edges(cur).len() > 0 {
            lemma_first_succ_exists(g, cur);
        }
    }
}

/// A chain stops at a node that must be kept, or at a node with no way
/// further down, which it then lists twice: the walk never runs out of
/// steps on an acyclic graph.
pub proof fn law_walk_stops_at_kept_or_sink<W>(g: SolverGraph<W>, keep: Seq<bool>, cur: int)
    requires
        g.wf(),
        g.is_acyclic(),
        keep.len() == g.n(),
        0 <= cur < g.n(),
    ensures
        ({
            let w = walk(g, keep, cur, g.n());
            &&& w.len() >= 1
            &&& w.last() < g.n()
            &&& keep[w.last() as int] || (w.len() >= 2 && w[w.len() - 2] == w.last() && g.out_edges(
                w.last() as int,
            ).len() == 0)
        }),
{
    let topo = choose|o: Seq<usize>| g.is_topo_order(o);
    crate::graph::lemma_distinct_bounded_len(topo, g.n());
    g.lemma_names_unique();
    assert(cur as usize as int == cur);
    assert(topo.contains(cur as usize));
    let p = topo.index_of(cur as usize);
    lemma_walk_stops(g, keep, cur, g.n(), topo, p);
}

/// `c` is the chain that leaves the kept node `c[0]` by its edge to `c[1]`.
pub open spec fn is_tree_chain<W>(g: SolverGraph<W>, keep: Seq<bool>, c: Seq<usize>) -> bool {
    &&& c.len() >= 2
    &&& c[0] < g.n()
    &&& keep[c[0] as int]
    &&& g.has_edge(c[0] as int, c[1] as int)
    &&& c == seq![c[0]] + walk(g, keep, c[1] as int, g.n())
}

/// The names of the first two nodes of a chain.
pub open spec fn chain_key<W>(g: SolverGraph<W>, c: Seq<usize>) -> (Seq<char>, Seq<char>) {
    (g.names()[c[0] as int], g.names()[c[1] as int])
}

proof fn lemma_walk_head<W>(g: SolverGraph<W>, keep: Seq<bool>, cur: int, fuel: nat)
    ensures
        walk(g, keep, cur, fuel).len() >= 1,
        walk(g, keep, cur, fuel)[0] == cur as usize,
{
}

proof fn lemma_lex_le_lt(a: Seq<char>, b: Seq<char>, c: Seq<char>)
    requires
        lex_le(a, b),
        lex_lt(b, c),
    ensures
        lex_lt(a, c),
{
    if a != b {
        crate::text::lemma_lex_transitive(a, b, c);
    }
}

/// The chains that leave the kept node `s`, one per successor, in the
/// order of the successors' names.
fn chains_from<W: Copy>(g: &SolverGraph<W>, keep: &Vec<bool>, s: usize) -> (r: Vec<Vec<usize>>)
    requires
        g.wf(),
        g.is_acyclic(),
        keep@.len() == g.n(),
        s < g.n(),
        keep@[s as int],
    ensures
        forall|i: int| 0 <= i < r@.len() ==> is_tree_chain(*g, keep@, #[trigger] r@[i]@),
        forall|i: int| 0 <= i < r@.len() ==> (#[trigger] r@[i]@)[0] == s,
        forall|t: int| #[trigger] g.has_edge(s as int, t) ==> exists|i: int| 0 <= i < r@.len() && (#[trigger] r@[i]@)[1] == t,
        forall|i: int, j: int|
            0 <= i < j < r@.len() ==> lex_lt(g.names()[(#[trigger] r@[i]@)[1] as int], g.names()[(#[trigger] r@[j]@)[1] as int]),
{
    broadcast use vstd::seq_lib::group_to_multiset_ensures;

    let nb = g.sorted_neighbors(s);
    proof {
        g.lemma_names_unique();
        g.lemma_out_edges_targets(s as int);
    }
    let mut r: Vec<Vec<usize>> = Vec::new();
    let mut b: usize = 0;
    while b < nb.len()
        invariant
            g.wf(),
            g.is_acyclic(),
            g.names().no_duplicates(),
            keep@.len() == g.n(),
            s < g.n(),
            keep@[s as int],
            b <= nb@.len(),
            nb@.to_multiset() == g.out_edges(s as int).to_multiset(),
            forall|k: int| 0 <= k < nb@.len() ==> (#[trigger] nb@[k]).0 < g.n(),
            forall|p: int, q: int|
                0 <= p < q < nb@.len() ==> lex_le(g.names()[(#[trigger] nb@[p]).0 as int], g.names()[(#[trigger] nb@[q]).0 as int]),
            forall|i: int| 0 <= i < r@.len() ==> is_tree_chain(*g, keep@, #[trigger] r@[i]@),
            forall|i: int| 0 <= i < r@.len() ==> (#[trigger] r@[i]@)[0] == s,
            forall|q: int| 0 <= q < b ==> exists|i: int| 0 <= i < r@.len() && (#[trigger] r@[i]@)[1] == (#[trigger] nb@[q]).0,
            forall|i: int, j: int|
                0 <= i < j < r@.len() ==> lex_lt(g.names()[(#[trigger] r@[i]@)[1] as int], g.names()[(#[trigger] r@[j]@)[1] as int]),
            r@.len() <= b,
            b > 0 ==> r@.len() > 0 && r@.last()@[1] == nb@[b - 1].0,
            b > 0 ==> forall|i: int| 0 <= i < r@.len() ==> lex_le(g.names()[(#[trigger] r@[i]@)[1] as int], g.names()[nb@[b - 1].0 as int]),
        decreases nb@.len() - b,
    {
        let t = nb[b].0;
        let fresh = b == 0 || nb[b - 1].0 != t;
        if fresh {
            let c = walk_chain(g, keep, s, t);
            proof {
                broadcast use vstd::seq_lib::group_to_multiset_ensures;

                lemma_walk_head(*g, keep@, t as int, g.n());
                assert(nb@.contains(nb@[b as int]));
                assert(nb@.to_multiset().count(nb@[b as int]) > 0);
                assert(g.out_edges(s as int).contains(nb@[b as int]));
                let k = g.out_edges(s as int).index_of(nb@[b as int]);
                assert(g.out_edges(s as int)[k].0 == t);
                assert(g.has_edge(s as int, t as int));
                assert(c@[0] == s && c@[1] == t);
                assert(is_tree_chain(*g, keep@, c@));
                if b > 0 {
                    let pn = g.names()[nb@[b - 1].0 as int];
                    let tn = g.names()[t as int];
                    assert(lex_le(pn, tn));
                    assert(pn != tn);
                    assert(lex_lt(pn, tn));
                }
            }
            let ghost r0 = r@;
            r.push(c);
            proof {
                assert(r@[r0.len() as int] == c);
                assert forall|q: int| 0 <= q < b + 1 implies exists|i: int| 0 <= i < r@.len() && (#[trigger] r@[i]@)[1] == (#[trigger] nb@[q]).0 by {
                    if q < b {
                        let i0 = choose|i: int| 0 <= i < r0.len() && (#[trigger] r0[i]@)[1] == nb@[q].0;
                        assert(r@[i0] == r0[i0]);
                    } else {
                        assert(r@[r0.len() as int]@[1] == nb@[q].0);
                    }
                }
                assert forall|i: int| 0 <= i < r@.len() implies lex_le(g.names()[(#[trigger] r@[i]@)[1] as int], g.names()[nb@[b as int].0 as int]) by {
                    if i < r0.len() {
                        assert(r@[i] == r0[i]);
                        let pn = g.names()[nb@[b - 1].0 as int];
                        let tn = g.names()[t as int];
                        assert(lex_le(g.names()[r0[i]@[1] as int], pn));
                        lemma_lex_le_lt(g.names()[r0[i]@[1] as int], pn, tn);
                    } else {
                        assert(r@[i]@ == c@);
                    }
                }
                assert forall|i: int, j: int| 0 <= i < j < r@.len() implies lex_lt(g.names()[(#[trigger] r@[i]@)[1] as int], g.names()[(#[trigger] r@[j]@)[1] as int]) by {
                    assert(r@[i] == r0[i]);
                    if j < r0.len() {
                        assert(r@[j] == r0[j]);
                    } else {
                        assert(r@[j]@ == c@);
                        let pn = g.names()[nb@[b - 1].0 as int];
                        let tn = g.names()[t as int];
                        assert(lex_le(g.names()[r0[i]@[1] as int], pn));
                        lemma_lex_le_lt(g.names()[r0[i]@[1] as int], pn, tn);
                    }
                }
            }
        } else {
            proof {
                assert forall|i: int| 0 <= i < r@.len() implies lex_le(g.names()[(#[trigger] r@[i]@)[1] as int], g.names()[nb@[b as int].0 as int]) by {
                }
                assert forall|q: int| 0 <= q < b + 1 implies exists|i: int| 0 <= i < r@.len() && (#[trigger] r@[i]@)[1] == (#[trigger] nb@[q]).0 by {
                    if q == b {
                        assert(r@[r@.len() - 1]@[1] == nb@[q].0);
                    }
                }
            }
        }
        b = b + 1;
    }
    proof {
        broadcast use vstd::seq_lib::group_to_multiset_ensures;

        assert forall|t: int| #[trigger] g.has_edge(s as int, t) implies exists|i: int| 0 <= i < r@.len() && (#[trigger] r@[i]@)[1] == t by {
            let k = choose|k: int| 0 <= k < g.out_edges(s as int).len() && #[trigger] g.out_edges(s as int)[k].0 == t;
            let e = g.out_edges(s as int)[k];
            assert(g.out_edges(s as int).contains(e));
            assert(g.out_edges(s as int).to_multiset().count(e) > 0);
            assert(nb@.contains(e));
            let q = nb@.index_of(e);
            assert(nb@[q].0 == t);
        }
    }
    r
}

/// The chains of an oriented tree: one for each edge that leaves a kept
/// node, ordered by the names of the kept node and of the edge's target.
/// Each chain runs from the kept node through the nodes that are not kept
/// (see `walk`) up to the next kept node.
pub fn tree_chains<W: Copy>(g: &SolverGraph<W>, keep: &Vec<bool>) -> (r: Vec<Vec<usize>>)
    requires
        g.wf(),
        g.is_acyclic(),
        keep@.len() == g.n(),
    ensures
        forall|i: int| 0 <= i < r@.len() ==> is_tree_chain(*g, keep@, #[trigger] r@[i]@),
        forall|s: int, t: int|
            0 <= s < g.n() && keep@[s] && #[trigger] g.has_edge(s, t) ==> exists|i: int|
                0 <= i < r@.len() && (#[trigger] r@[i]@)[0] == s && r@[i]@[1] == t,
        forall|i: int, j: int|
            0 <= i < j < r@.len() ==> pair_lt(chain_key(*g, #[trigger] r@[i]@), chain_key(*g, #[trigger] r@[j]@)),
{
    broadcast use vstd::seq_lib::group_to_multiset_ensures;

    let n = g.node_count();
    let mut raw: Vec<usize> = Vec::new();
    let mut v: usize = 0;
    while v < n
        invariant
            n == g.n(),
            keep@.len() == n,
            v <= n,
            forall|k: int| 0 <= k < raw@.len() ==> (#[trigger] raw@[k]) < v && keep@[raw@[k] as int],
            forall|p: int, q: int| 0 <= p < q < raw@.len() ==> (#[trigger] raw@[p]) < (#[trigger] raw@[q]),
            forall|x: int| 0 <= x < v && keep@[x] ==> #[trigger] raw@.contains(x as usize),
        decreases n - v,
    {
        if keep[v] {
            let ghost r0 = raw@;
            raw.push(v);
            proof {
                assert(raw@[r0.len() as int] == v);
                assert forall|x: int| 0 <= x < v + 1 && keep@[x] implies #[trigger] raw@.contains(x as usize) by {
                    if x < v {
                        assert(r0.contains(x as usize));
                        let k = r0.index_of(x as usize);
                        assert(raw@[k] == x);
                    }
                }
            }
        }
        v = v + 1;
    }
    let starts = sort_by_name(g, &raw);
    proof {
        g.lemma_names_unique();
        assert(raw@.no_duplicates());
        raw@.lemma_multiset_has_no_duplicates();
        starts@.lemma_multiset_has_no_duplicates_conv();
        assert forall|p: int, q: int| 0 <= p < q < starts@.len() implies lex_lt(g.names()[#[trigger] starts@[p] as int], g.names()[#[trigger] starts@[q] as int]) by {
            assert(starts@[p] != starts@[q]);
            assert(g.names()[starts@[p] as int] != g.names()[starts@[q] as int]);
        }
        assert forall|k: int| 0 <= k < starts@.len() implies keep@[#[trigger] starts@[k] as int] by {
            assert(starts@.contains(starts@[k]));
            assert(raw@.to_multiset().count(starts@[k]) > 0);
            assert(raw@.contains(starts@[k]));
            let j = raw@.index_of(starts@[k]);
            assert(keep@[raw@[j] as int]);
        }
    }
    let mut r: Vec<Vec<usize>> = Vec::new();
    let mut a: usize = 0;
    while a < starts.len()
        invariant
            g.wf(),
            g.is_acyclic(),
            keep@.len() == g.n(),
            a <= starts@.len(),
            forall|k: int| 0 <= k < starts@.len() ==> (#[trigger] starts@[k]) < g.n(),
            forall|k: int| 0 <= k < starts@.len() ==> keep@[#[trigger] starts@[k] as int],
            forall|p: int, q: int|
                0 <= p < q < starts@.len() ==> lex_lt(g.names()[#[trigger] starts@[p] as int], g.names()[#[trigger] starts@[q] as int]),
            forall|i: int| 0 <= i < r@.len() ==> is_tree_chain(*g, keep@, #[trigger] r@[i]@),
            a > 0 ==> forall|i: int| 0 <= i < r@.len() ==> lex_le(g.names()[(#[trigger] r@[i]@)[0] as int], g.names()[starts@[a - 1] as int]),
            a == 0 ==> r@.len() == 0,
            forall|p: int, t: int|
                0 <= p < a && #[trigger] g.has_edge(starts@[p] as int, t) ==> exists|i: int|
                    0 <= i < r@.len() && (#[trigger] r@[i]@)[0] == starts@[p] && r@[i]@[1] == t,
            forall|i: int, j: int|
                0 <= i < j < r@.len() ==> pair_lt(chain_key(*g, #[trigger] r@[i]@), chain_key(*g, #[trigger] r@[j]@)),
        decreases starts@.len() - a,
    {
        let s = starts[a];
        let mut block = chains_from(g, keep, s);
        let ghost r0 = r@;
        let ghost b0 = block@;
        r.append(&mut block);
        proof {
            let sn = g.names()[s as int];
            assert forall|i: int| 0 <= i < r@.len() implies is_tree_chain(*g, keep@, #[trigger] r@[i]@) by {
                if i < r0.len() {
                    assert(r@[i] == r0[i]);
                } else {
                    assert(r@[i] == b0[i - r0.len()]);
                }
            }
            assert forall|i: int| 0 <= i < r@.len() implies lex_le(g.names()[(#[trigger] r@[i]@)[0] as int], sn) by {
                if i < r0.len() {
                    assert(r@[i] == r0[i]);
                    assert(lex_le(g.names()[r0[i]@[0] as int], g.names()[starts@[a - 1] as int]));
                    assert(lex_lt(g.names()[starts@[a - 1] as int], sn));
                    lemma_lex_le_lt(g.names()[r0[i]@[0] as int], g.names()[starts@[a - 1] as int], sn);
                } else {
                    assert(r@[i] == b0[i - r0.len()]);
                }
            }
            assert forall|p: int, t: int|
                0 <= p < a + 1 && #[trigger] g.has_edge(starts@[p] as int, t) implies exists|i: int|
                    0 <= i < r@.len() && (#[trigger] r@[i]@)[0] == starts@[p] && r@[i]@[1] == t by {
                if p < a {
                    let i0 = choose|i: int| 0 <= i < r0.len() && (#[trigger] r0[i]@)[0] == starts@[p] && r0[i]@[1] == t;
                    assert(r@[i0] == r0[i0]);
                } else {
                    assert(g.has_edge(s as int, t));
                    let k0 = choose|k: int| 0 <= k < b0.len() && (#[trigger] b0[k]@)[1] == t;
                    assert(r@[r0.len() + k0] == b0[k0]);
                    assert(b0[k0]@[0] == s);
                }
            }
            assert forall|i: int, j: int| 0 <= i < j < r@.len() implies pair_lt(chain_key(*g, #[trigger] r@[i]@), chain_key(*g, #[trigger] r@[j]@)) by {
                if j < r0.len() {
                    assert(r@[i] == r0[i]);
                    assert(r@[j] == r0[j]);
                } else if i < r0.len() {
                    assert(r@[i] == r0[i]);
                    assert(r@[j] == b0[j - r0.len()]);
                    assert(b0[j - r0.len()]@[0] == s);
                    assert(lex_le(g.names()[r0[i]@[0] as int], g.names()[starts@[a - 1] as int]));
                    assert(lex_lt(g.names()[starts@[a - 1] as int], sn));
                    lemma_lex_le_lt(g.names()[r0[i]@[0] as int], g.names()[starts@[a - 1] as int], sn);
                } else {
                    assert(r@[i] == b0[i - r0.len()]);
                    assert(r@[j] == b0[j - r0.len()]);
                    assert(b0[i - r0.len()]@[0] == s);
                    assert(b0[j - r0.len()]@[0] == s);
                }
            }
        }
        a = a + 1;
    }
    proof {
        assert forall|s: int, t: int|
            0 <= s < g.n() && keep@[s] && #[trigger] g.has_edge(s, t) implies exists|i: int|
                0 <= i < r@.len() && (#[trigger] r@[i]@)[0] == s && r@[i]@[1] == t by {
            assert(raw@.contains(s as usize));
            assert(raw@.to_multiset().count(s as usize) > 0);
            assert(starts@.contains(s as usize));
            let p = starts@.index_of(s as usize);
            assert(g.has_edge(starts@[p] as int, t));
        }
    }
    r
}

} // verus!
