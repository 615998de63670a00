//! The structural part of laying out a looped water network on a spanning
//! tree: which graph edges may close a loop, how many of them are taken,
//! the order in which the combined graph lists its edges, and which nodes
//! get a valve.

use vstd::prelude::*;

use crate::prune::{count_true, lemma_count_true_le};

verus! {

/// `e` is an edge of `tree`, in either direction.
pub open spec fn is_tree_pair(tree: Seq<(usize, usize)>, e: (usize, usize)) -> bool {
    tree.contains(e) || tree.contains((e.1, e.0))
}

/// `e` joins two members and is not an edge of `tree`.
pub open spec fn is_loop_candidate(tree: Seq<(usize, usize)>, members: Seq<bool>, e: (usize, usize)) -> bool {
    &&& e.0 < members.len()
    &&& e.1 < members.len()
    &&& members[e.0 as int]
    &&& members[e.1 as int]
    &&& !is_tree_pair(tree, e)
}

fn holds_pair(tree: &Vec<(usize, usize)>, a: usize, b: usize) -> (r: bool)
    ensures
        r == tree@.contains((a, b)),
{
    let mut i: usize = 0;
    while i < tree.len()
        invariant
            i <= tree@.len(),
            forall|k: int| 0 <= k < i ==> tree@[k] != (a, b),
        decreases tree@.len() - i,
    {
        let (x, y) = tree[i];
        if x == a && y == b {
            assert(tree@[i as int] == (a, b));
            return true;
        }
        i = i + 1;
    }
    proof {
        if tree@.contains((a, b)) {
            let k = tree@.index_of((a, b));
            assert(tree@[k] == (a, b));
        }
    }
    false
}

/// The edges of `edges`, in their order, that join two members and are not
/// edges of `tree` in either direction: the candidates for closing a loop.
pub fn loop_candidates(edges: &Vec<(usize, usize)>, tree: &Vec<(usize, usize)>, members: &Vec<bool>) -> (r: Vec<(usize, usize)>)
    ensures
        r@ == edges@.filter(|e: (usize, usize)| is_loop_candidate(tree@, members@, e)),
{
    let ghost pred = |e: (usize, usize)| is_loop_candidate(tree@, members@, e);
    let mut r: Vec<(usize, usize)> = Vec::new();
    let mut i: usize = 0;
    proof {
        assert(edges@.take(0) =~= Seq::<(usize, usize)>::empty());
    }
    while i < edges.len()
        invariant
            i <= edges@.len(),
            pred == (|e: (usize, usize)| is_loop_candidate(tree@, members@, e)),
            r@ == edges@.take(i as int).filter(pred),
        decreases edges@.len() - i,
    {
        let (a, b) = edges[i];
        let ok = a < members.len() && b < members.len() && members[a] && members[b] && !holds_pair(tree, a, b)
            && !holds_pair(tree, b, a);
        proof {
            assert(edges@.take(i + 1).drop_last() =~= edges@.take(i as int));
            assert(edges@.take(i + 1).last() == (a, b));
            assert(ok == pred((a, b)));
            let t1 = edges@.take(i + 1);
            reveal(Seq::filter);
            assert(t1.filter(pred) == if pred(t1.last()) {
                t1.drop_last().filter(pred).push(t1.last())
            } else {
                t1.drop_last().filter(pred)
            });
        }
        if ok {
            r.push((a, b));
        }
        i = i + 1;
    }
    proof {
        assert(edges@.take(edges@.len() as int) =~= edges@);
    }
    r
}

/// How many loops a mesh over `n` nodes gets: a `divisor`-th of the
/// nodes, and never fewer than three.
pub open spec fn loop_budget(n: nat, divisor: nat) -> nat {
    if n / divisor >= 3 {
        n / divisor
    } else {
        3
    }
}

/// The loop budget is the larger of three and `n / divisor` (rounded
/// down): never below three, never below `n / divisor`, and one of the two.
pub proof fn law_loop_budget(n: nat, divisor: nat)
    requires
        divisor > 0,
    ensures
        loop_budget(n, divisor) >= 3,
        loop_budget(n, divisor) * divisor <= n || loop_budget(n, divisor) == 3,
        (loop_budget(n, divisor) + 1) * divisor > n,
{
    assert((n / divisor) * divisor <= n) by (nonlinear_arith)
        requires
            divisor > 0,
    ;
    assert((n / divisor + 1) * divisor > n) by (nonlinear_arith)
        requires
            divisor > 0,
    ;
    if n / divisor < 3 {
        assert(4 * divisor >= (n / divisor + 1) * divisor) by (nonlinear_arith)
            requires
                n / divisor < 3,
                divisor > 0,
        ;
    }
}

/// The loop edges of a mesh over the nodes `0..n`: the candidates among
/// `edges` (in their order) that are not edges of the spanning tree `tree`,
/// at most `loop_budget(n, divisor)` of them.
pub fn mesh_loop_edges(edges: &Vec<(usize, usize)>, tree: &Vec<(usize, usize)>, n: usize, divisor: u32) -> (r: Vec<(usize, usize)>)
    requires
        divisor > 0,
    ensures
        ({
            let c = edges@.filter(|e: (usize, usize)| is_loop_candidate(tree@, Seq::new(n as nat, |i: int| true), e));
            r@ == if c.len() <= loop_budget(n as nat, divisor as nat) {
                c
            } else {
                c.take(loop_budget(n as nat, divisor as nat) as int)
            }
        }),
{
    let mut members: Vec<bool> = Vec::new();
    let mut i: usize = 0;
    while i < n
        invariant
            i <= n,
            members@ == Seq::new(i as nat, |k: int| true),
        decreases n - i,
    {
        members.push(true);
        i = i + 1;
    }
    let mut r = loop_candidates(edges, tree, &members);
    let q = n / (divisor as usize);
    let budget = if q >= 3 { q } else { 3 };
    r.truncate(budget);
    r
}

/// The ends of `edges` in the order they first appear, each edge giving
/// its first end before its second.
pub open spec fn appearance(edges: Seq<(usize, usize)>) -> Seq<usize>
    decreases edges.len(),
{
    if edges.len() == 0 {
        Seq::empty()
    } else {
        let o = appearance(edges.drop_last());
        let e = edges.last();
        let o1 = if o.contains(e.0) { o } else { o.push(e.0) };
        if o1.contains(e.1) { o1 } else { o1.push(e.1) }
    }
}

/// The neighbours of `x` in `edges`, in edge order (an edge at `x` gives
/// its other end; a loop at `x` gives `x` twice).
pub open spec fn neighbours(edges: Seq<(usize, usize)>, x: usize) -> Seq<usize>
    decreases edges.len(),
{
    if edges.len() == 0 {
        Seq::empty()
    } else {
        let rest = neighbours(edges.drop_last(), x);
        let e = edges.last();
        let r1 = if e.0 == x { rest.push(e.1) } else { rest };
        if e.1 == x { r1.push(e.0) } else { r1 }
    }
}

/// The edges listed at the `p`-th node of `order`: one to each of its
/// neighbours that comes later in `order` (or is not in it).
pub open spec fn listed_at(edges: Seq<(usize, usize)>, order: Seq<usize>, p: int) -> Seq<(usize, usize)> {
    neighbours(edges, order[p]).filter(|v: usize| !order.take(p).contains(v)).map_values(
        |v: usize| (order[p], v),
    )
}

/// The edges listed at the first `m` nodes of `order`, node after node.
pub open spec fn listed(edges: Seq<(usize, usize)>, order: Seq<usize>, m: nat) -> Seq<(usize, usize)>
    decreases m,
{
    if m == 0 {
        Seq::empty()
    } else {
        listed(edges, order, (m - 1) as nat) + listed_at(edges, order, m - 1)
    }
}

proof fn lemma_neighbours_bounded(edges: Seq<(usize, usize)>, x: usize, n: nat)
    requires
        forall|k: int| 0 <= k < edges.len() ==> (#[trigger] edges[k]).0 < n && edges[k].1 < n,
    ensures
        forall|q: int| 0 <= q < neighbours(edges, x).len() ==> (#[trigger] neighbours(edges, x)[q]) < n,
    decreases edges.len(),
{
    if edges.len() > 0 {
        let d = edges.drop_last();
        assert forall|k: int| 0 <= k < d.len() implies (#[trigger] d[k]).0 < n && d[k].1 < n by {
            assert(d[k] == edges[k]);
        }
        lemma_neighbours_bounded(d, x, n);
        let e = edges[edges.len() - 1];
        let rest = neighbours(d, x);
        let r1 = if e.0 == x { rest.push(e.1) } else { rest };
        assert forall|q: int| 0 <= q < r1.len() implies (#[trigger] r1[q]) < n by {
            if q < rest.len() {
                assert(r1[q] == rest[q]);
            }
        }
        let r2 = if e.1 == x { r1.push(e.0) } else { r1 };
        assert forall|q: int| 0 <= q < r2.len() implies (#[trigger] r2[q]) < n by {
            if q < r1.len() {
                assert(r2[q] == r1[q]);
            }
        }
        assert(neighbours(edges, x) == r2);
    }
}

/// The graph made of `edges` (a spanning tree's edges, then the loop
/// edges), as an adjacency list keeps it: its nodes in order of first
/// appearance, and its edges node by node, each node's neighbours in edge
/// order, skipping those already passed.
pub fn combined_edge_order(n: usize, edges: &Vec<(usize, usize)>) -> (r: (Vec<usize>, Vec<(usize, usize)>))
    requires
        forall|k: int| 0 <= k < edges@.len() ==> (#[trigger] edges@[k]).0 < n && edges@[k].1 < n,
    ensures
        r.0@ == appearance(edges@),
        r.1@ == listed(edges@, appearance(edges@), appearance(edges@).len()),
{
    let mut seen: Vec<bool> = Vec::new();
    let mut adj: Vec<Vec<usize>> = Vec::new();
    let mut i: usize = 0;
    while i < n
        invariant
            i <= n,
            seen@ == Seq::new(i as nat, |k: int| false),
            adj@.len() == i,
            forall|x: int| 0 <= x < i ==> (#[trigger] adj@[x])@ == Seq::<usize>::empty(),
        decreases n - i,
    {
        seen.push(false);
        adj.push(Vec::new());
        i = i + 1;
    }
    let mut order: Vec<usize> = Vec::new();
    let mut k: usize = 0;
    proof {
        assert(edges@.take(0) =~= Seq::<(usize, usize)>::empty());
        assert forall|x: int| 0 <= x < n implies (#[trigger] adj@[x])@ == neighbours(edges@.take(0), x as usize) by {
        }
    }
    while k < edges.len()
        invariant
            k <= edges@.len(),
            forall|q: int| 0 <= q < edges@.len() ==> (#[trigger] edges@[q]).0 < n && edges@[q].1 < n,
            seen@.len() == n,
            adj@.len() == n,
            order@ == appearance(edges@.take(k as int)),
            forall|x: int| 0 <= x < n ==> (#[trigger] seen@[x]) == order@.contains(x as usize),
            forall|q: int| 0 <= q < order@.len() ==> (#[trigger] order@[q]) < n,
            forall|x: int| 0 <= x < n ==> (#[trigger] adj@[x])@ == neighbours(edges@.take(k as int), x as usize),
        decreases edges@.len() - k,
    {
        let (u, v) = edges[k];
        let ghost t1 = edges@.take(k + 1);
        let ghost a0 = adj@;
        proof {
            assert(t1.drop_last() =~= edges@.take(k as int));
            assert(t1.last() == (u, v));
        }
        let ghost ord0 = order@;
        if !seen[u] {
            order.push(u);
            seen.set(u, true);
        }
        let ghost ord1 = order@;
        proof {
            assert(ord1 == if ord0.contains(u) { ord0 } else { ord0.push(u) });
            assert forall|x: int| 0 <= x < n implies (#[trigger] seen@[x]) == ord1.contains(x as usize) by {
                if !ord0.contains(u) {
                    if ord0.contains(x as usize) {
                        let q = ord0.index_of(x as usize);
                        assert(ord1[q] == x);
                    }
                    if x == u {
                        assert(ord1[ord0.len() as int] == u);
                    }
                }
            }
        }
        if !seen[v] {
            order.push(v);
            seen.set(v, true);
        }
        proof {
            assert(order@ == if ord1.contains(v) { ord1 } else { ord1.push(v) });
            assert forall|x: int| 0 <= x < n implies (#[trigger] seen@[x]) == order@.contains(x as usize) by {
                if !ord1.contains(v) {
                    if ord1.contains(x as usize) {
                        let q = ord1.index_of(x as usize);
                        assert(order@[q] == x);
                    }
                    if x == v {
                        assert(order@[ord1.len() as int] == v);
                    }
                }
            }
            assert forall|q: int| 0 <= q < order@.len() implies (#[trigger] order@[q]) < n by {
                if q >= ord1.len() {
                } else if q >= ord0.len() {
                    assert(order@[q] == ord1[q]);
                } else {
                    assert(order@[q] == ord1[q]);
                    assert(ord1[q] == ord0[q]);
                }
            }
        }
        adj[u].push(v);
        adj[v].push(u);
        proof {
            assert forall|x: int| 0 <= x < n implies (#[trigger] adj@[x])@ == neighbours(t1, x as usize) by {
                if x == u && x == v {
                    assert(adj@[x]@ == a0[x]@.push(v).push(u));
                } else if x == u {
                    assert(adj@[x]@ == a0[x]@.push(v));
                } else if x == v {
                    assert(adj@[x]@ == a0[x]@.push(u));
                } else {
                    assert(adj@[x] == a0[x]);
                }
            }
        }
        k = k + 1;
    }
    proof {
        assert(edges@.take(edges@.len() as int) =~= edges@);
    }
    let ghost ord = order@;
    let ghost es = edges@;
    let mut done: Vec<bool> = Vec::new();
    let mut d: usize = 0;
    while d < n
        invariant
            d <= n,
            done@ == Seq::new(d as nat, |k: int| false),
        decreases n - d,
    {
        done.push(false);
        d = d + 1;
    }
    let mut out: Vec<(usize, usize)> = Vec::new();
    let mut p: usize = 0;
    while p < order.len()
        invariant
            p <= ord.len(),
            order@ == ord,
            ord == appearance(es),
            es == edges@,
            forall|k: int| 0 <= k < es.len() ==> (#[trigger] es[k]).0 < n && es[k].1 < n,
            done@.len() == n,
            adj@.len() == n,
            forall|q: int| 0 <= q < ord.len() ==> (#[trigger] ord[q]) < n,
            forall|x: int| 0 <= x < n ==> (#[trigger] done@[x]) == ord.take(p as int).contains(x as usize),
            forall|x: int| 0 <= x < n ==> (#[trigger] adj@[x])@ == neighbours(es, x as usize),
            out@ == listed(es, ord, p as nat),
        decreases ord.len() - p,
    {
        let u = order[p];
        let nb = &adj[u];
        proof {
            lemma_neighbours_bounded(es, u, n as nat);
        }
        let ghost pred = |v: usize| !ord.take(p as int).contains(v);
        let ghost f = |v: usize| (ord[p as int], v);
        let ghost o0 = out@;
        let mut j: usize = 0;
        while j < nb.len()
            invariant
                j <= nb@.len(),
                p < ord.len(),
                u == ord[p as int],
                nb@ == neighbours(es, u),
                u < n,
                done@.len() == n,
                forall|q: int| 0 <= q < nb@.len() ==> (#[trigger] nb@[q]) < n,
                forall|x: int| 0 <= x < n ==> (#[trigger] done@[x]) == ord.take(p as int).contains(x as usize),
                pred == (|v: usize| !ord.take(p as int).contains(v)),
                f == (|v: usize| (ord[p as int], v)),
                out@ == o0 + nb@.take(j as int).filter(pred).map_values(f),
            decreases nb@.len() - j,
        {
            let v = nb[j];
            proof {
                let t1 = nb@.take(j + 1);
                assert(t1.drop_last() =~= nb@.take(j as int));
                assert(t1.last() == v);
                reveal(Seq::filter);
                assert(t1.filter(pred) == if pred(v) {
                    nb@.take(j as int).filter(pred).push(v)
                } else {
                    nb@.take(j as int).filter(pred)
                });
            }
            if !done[v] {
                let ghost o1 = out@;
                out.push((u, v));
                proof {
                    let fl = nb@.take(j as int).filter(pred);
                    assert(fl.push(v).map_values(f) =~= fl.map_values(f).push((u, v)));
                    assert(out@ =~= o0 + fl.push(v).map_values(f));
                }
            }
            j = j + 1;
        }
        proof {
            assert(nb@.take(nb@.len() as int) =~= nb@);
            assert(listed(es, ord, (p + 1) as nat) == listed(es, ord, p as nat) + listed_at(es, ord, p as int));
            assert(ord.take(p + 1) =~= ord.take(p as int).push(u));
        }
        let ghost d0 = done@;
        done.set(u, true);
        proof {
            assert forall|x: int| 0 <= x < n implies (#[trigger] done@[x]) == ord.take(p + 1).contains(x as usize) by {
                let t0 = ord.take(p as int);
                if t0.contains(x as usize) {
                    let q = t0.index_of(x as usize);
                    assert(ord.take(p + 1)[q] == x);
                }
                if x == u {
                    assert(ord.take(p + 1)[p as int] == u);
                }
                if ord.take(p + 1).contains(x as usize) && x != u {
                    let q = ord.take(p + 1).index_of(x as usize);
                    assert(q < p);
                    assert(t0[q] == x);
                }
            }
        }
        p = p + 1;
    }
    (order, out)
}

/// The nodes that get a valve: counting only the eligible nodes (junctions
/// and service points) in order, every `spacing`-th one; none when
/// `spacing` is zero.
pub fn valve_nodes(eligible: &Vec<bool>, spacing: u32) -> (r: Vec<bool>)
    requires
        eligible@.len() < u32::MAX,
    ensures
        r@.len() == eligible@.len(),
        forall|i: int|
            0 <= i < r@.len() ==> #[trigger] r@[i] == (eligible@[i] && spacing > 0 && count_true(
                eligible@.take(i + 1),
            ) % (spacing as nat) == 0),
{
    let mut r: Vec<bool> = Vec::new();
    let mut counter: u32 = 0;
    let mut i: usize = 0;
    proof {
        assert(eligible@.take(0) =~= Seq::<bool>::empty());
    }
    while i < eligible.len()
        invariant
            i <= eligible@.len(),
            eligible@.len() < u32::MAX,
            r@.len() == i,
            counter == count_true(eligible@.take(i as int)),
            forall|k: int|
                0 <= k < i ==> #[trigger] r@[k] == (eligible@[k] && spacing > 0 && count_true(
                    eligible@.take(k + 1),
                ) % (spacing as nat) == 0),
        decreases eligible@.len() - i,
    {
        proof {
            lemma_count_true_le(eligible@.take(i as int));
            assert(eligible@.take(i + 1).drop_last() =~= eligible@.take(i as int));
        }
        let mut mark = false;
        if eligible[i] {
            counter = counter + 1;
            mark = spacing > 0 && counter % spacing == 0;
        }
        r.push(mark);
        i = i + 1;
    }
    r
}

} // verus!
