//! Connectivity over undirected edge lists: which nodes a path of edges,
//! each crossed in either direction, joins.

use vstd::prelude::*;

use crate::graph::edge_list_view;
use crate::text::{str_eq, str_views};

verus! {

/// An edge of `edges` joins `a` and `b`, in either direction.
pub open spec fn joined<N, W>(edges: Seq<(N, N, W)>, a: N, b: N) -> bool {
    exists|q: int|
        0 <= q < edges.len() && ((#[trigger] edges[q]).0 == a && edges[q].1 == b || edges[q].0 == b
            && edges[q].1 == a)
}

/// `b` can be reached from `a` over at most `n` edges, each crossed in
/// either direction.
pub open spec fn reach_within<N, W>(edges: Seq<(N, N, W)>, a: N, b: N, n: nat) -> bool
    decreases n,
{
    if n == 0 {
        a == b
    } else {
        reach_within(edges, a, b, (n - 1) as nat) || exists|c: N|
            reach_within(edges, a, c, (n - 1) as nat) && #[trigger] joined(edges, c, b)
    }
}

/// `b` can be reached from `a` over the edges, each crossed in either
/// direction.
pub open spec fn linked<N, W>(edges: Seq<(N, N, W)>, a: N, b: N) -> bool {
    exists|n: nat| #[trigger] reach_within(edges, a, b, n)
}

/// One more edge from the end of a path extends it.
pub proof fn lemma_reach_step<N, W>(edges: Seq<(N, N, W)>, a: N, c: N, b: N, q: int)
    requires
        linked(edges, a, c),
        0 <= q < edges.len(),
        edges[q].0 == c && edges[q].1 == b || edges[q].0 == b && edges[q].1 == c,
    ensures
        linked(edges, a, b),
{
    let n = choose|n: nat| #[trigger] reach_within(edges, a, c, n);
    assert(joined(edges, c, b));
    assert(reach_within(edges, a, b, n + 1));
}

/// A set of nodes that no edge leaves holds every node reachable from its
/// members.
pub proof fn lemma_closed_reach<N, W>(edges: Seq<(N, N, W)>, vis: Seq<N>, a: N, b: N, n: nat)
    requires
        vis.contains(a),
        forall|q: int| 0 <= q < edges.len() ==> (vis.contains((#[trigger] edges[q]).0) <==> vis.contains(edges[q].1)),
        reach_within(edges, a, b, n),
    ensures
        vis.contains(b),
    decreases n,
{
    if n > 0 {
        if reach_within(edges, a, b, (n - 1) as nat) {
            lemma_closed_reach(edges, vis, a, b, (n - 1) as nat);
        } else {
            let c = choose|c: N| reach_within(edges, a, c, (n - 1) as nat) && #[trigger] joined(edges, c, b);
            lemma_closed_reach(edges, vis, a, c, (n - 1) as nat);
            let q = choose|q: int| 0 <= q < edges.len() && ((#[trigger] edges[q]).0 == c && edges[q].1 == b || edges[q].0 == b && edges[q].1 == c);
        }
    }
}

/// A map of nodes under which every edge of `e1` becomes an edge of `e2`
/// or collapses to one node carries paths over `e1` to paths over `e2`.
pub proof fn lemma_reach_map<N, M, W, V>(e1: Seq<(N, N, W)>, e2: Seq<(M, M, V)>, f: spec_fn(N) -> M, a: N, b: N, n: nat)
    requires
        forall|q: int|
            0 <= q < e1.len() ==> f((#[trigger] e1[q]).0) == f(e1[q].1) || joined(e2, f(e1[q].0), f(e1[q].1)),
        reach_within(e1, a, b, n),
    ensures
        reach_within(e2, f(a), f(b), n),
    decreases n,
{
    if n > 0 {
        if reach_within(e1, a, b, (n - 1) as nat) {
            lemma_reach_map(e1, e2, f, a, b, (n - 1) as nat);
        } else {
            let c = choose|c: N| reach_within(e1, a, c, (n - 1) as nat) && #[trigger] joined(e1, c, b);
            lemma_reach_map(e1, e2, f, a, c, (n - 1) as nat);
            let q = choose|q: int|
                0 <= q < e1.len() && ((#[trigger] e1[q]).0 == c && e1[q].1 == b || e1[q].0 == b && e1[q].1 == c);
            if f(c) == f(b) {
            } else {
                assert(joined(e2, f(e1[q].0), f(e1[q].1)));
                let r = choose|r: int|
                    0 <= r < e2.len() && ((#[trigger] e2[r]).0 == f(e1[q].0) && e2[r].1 == f(e1[q].1) || e2[r].0
                        == f(e1[q].1) && e2[r].1 == f(e1[q].0));
                assert(joined(e2, f(c), f(b)));
            }
        }
    }
}

/// Linked nodes stay linked under such a map.
pub proof fn lemma_linked_map<N, M, W, V>(e1: Seq<(N, N, W)>, e2: Seq<(M, M, V)>, f: spec_fn(N) -> M, a: N, b: N)
    requires
        forall|q: int|
            0 <= q < e1.len() ==> f((#[trigger] e1[q]).0) == f(e1[q].1) || joined(e2, f(e1[q].0), f(e1[q].1)),
        linked(e1, a, b),
    ensures
        linked(e2, f(a), f(b)),
{
    let n = choose|n: nat| #[trigger] reach_within(e1, a, b, n);
    lemma_reach_map(e1, e2, f, a, b, n);
}

/// A bound on the number of steps may be raised.
pub proof fn lemma_reach_more<N, W>(edges: Seq<(N, N, W)>, a: N, b: N, n: nat, m: nat)
    requires
        reach_within(edges, a, b, n),
        n <= m,
    ensures
        reach_within(edges, a, b, m),
    decreases m - n,
{
    if n < m {
        lemma_reach_more(edges, a, b, n, (m - 1) as nat);
    }
}

/// Every node is linked to itself.
pub proof fn lemma_linked_refl<N, W>(edges: Seq<(N, N, W)>, a: N)
    ensures
        linked(edges, a, a),
{
    assert(reach_within(edges, a, a, 0));
}

proof fn lemma_reach_prepend<N, W>(edges: Seq<(N, N, W)>, x: N, a: N, b: N, n: nat)
    requires
        joined(edges, x, a),
        reach_within(edges, a, b, n),
    ensures
        reach_within(edges, x, b, n + 1),
    decreases n,
{
    if n == 0 {
        assert(reach_within(edges, x, x, 0));
        assert(joined(edges, x, b));
    } else if reach_within(edges, a, b, (n - 1) as nat) {
        lemma_reach_prepend(edges, x, a, b, (n - 1) as nat);
    } else {
        let c = choose|c: N| reach_within(edges, a, c, (n - 1) as nat) && #[trigger] joined(edges, c, b);
        lemma_reach_prepend(edges, x, a, c, (n - 1) as nat);
    }
}

/// Paths can be walked backwards.
pub proof fn lemma_linked_symmetric<N, W>(edges: Seq<(N, N, W)>, a: N, b: N)
    requires
        linked(edges, a, b),
    ensures
        linked(edges, b, a),
{
    let n = choose|n: nat| #[trigger] reach_within(edges, a, b, n);
    lemma_reach_reverse(edges, a, b, n);
}

proof fn lemma_reach_reverse<N, W>(edges: Seq<(N, N, W)>, a: N, b: N, n: nat)
    requires
        reach_within(edges, a, b, n),
    ensures
        reach_within(edges, b, a, n),
    decreases n,
{
    if n > 0 {
        if reach_within(edges, a, b, (n - 1) as nat) {
            lemma_reach_reverse(edges, a, b, (n - 1) as nat);
        } else {
            let c = choose|c: N| reach_within(edges, a, c, (n - 1) as nat) && #[trigger] joined(edges, c, b);
            lemma_reach_reverse(edges, a, c, (n - 1) as nat);
            let q = choose|q: int| 0 <= q < edges.len() && ((#[trigger] edges[q]).0 == c && edges[q].1 == b || edges[q].0 == b && edges[q].1 == c);
            assert(joined(edges, b, c));
            lemma_reach_prepend(edges, b, c, a, (n - 1) as nat);
        }
    }
}

proof fn lemma_reach_concat<N, W>(edges: Seq<(N, N, W)>, a: N, b: N, c: N, n: nat, m: nat)
    requires
        reach_within(edges, a, b, n),
        reach_within(edges, b, c, m),
    ensures
        reach_within(edges, a, c, n + m),
    decreases m,
{
    if m == 0 {
    } else if reach_within(edges, b, c, (m - 1) as nat) {
        lemma_reach_concat(edges, a, b, c, n, (m - 1) as nat);
    } else {
        let d = choose|d: N| reach_within(edges, b, d, (m - 1) as nat) && #[trigger] joined(edges, d, c);
        lemma_reach_concat(edges, a, b, d, n, (m - 1) as nat);
    }
}

/// Paths can be joined end to end.
pub proof fn lemma_linked_transitive<N, W>(edges: Seq<(N, N, W)>, a: N, b: N, c: N)
    requires
        linked(edges, a, b),
        linked(edges, b, c),
    ensures
        linked(edges, a, c),
{
    let n = choose|n: nat| #[trigger] reach_within(edges, a, b, n);
    let m = choose|m: nat| #[trigger] reach_within(edges, b, c, m);
    lemma_reach_concat(edges, a, b, c, n, m);
}

proof fn lemma_reach_push<N, W>(edges: Seq<(N, N, W)>, e: (N, N, W), a: N, b: N, n: nat)
    requires
        reach_within(edges, a, b, n),
    ensures
        reach_within(edges.push(e), a, b, n),
    decreases n,
{
    if n > 0 {
        if reach_within(edges, a, b, (n - 1) as nat) {
            lemma_reach_push(edges, e, a, b, (n - 1) as nat);
        } else {
            let c = choose|c: N| reach_within(edges, a, c, (n - 1) as nat) && #[trigger] joined(edges, c, b);
            lemma_reach_push(edges, e, a, c, (n - 1) as nat);
            let q = choose|q: int| 0 <= q < edges.len() && ((#[trigger] edges[q]).0 == c && edges[q].1 == b || edges[q].0 == b && edges[q].1 == c);
            assert(edges.push(e)[q] == edges[q]);
            assert(joined(edges.push(e), c, b));
        }
    }
}

/// Adding an edge keeps every path.
pub proof fn lemma_linked_push<N, W>(edges: Seq<(N, N, W)>, e: (N, N, W), a: N, b: N)
    requires
        linked(edges, a, b),
    ensures
        linked(edges.push(e), a, b),
{
    let n = choose|n: nat| #[trigger] reach_within(edges, a, b, n);
    lemma_reach_push(edges, e, a, b, n);
}

/// Without edges, a node is linked only to itself.
pub proof fn lemma_linked_empty<N, W>(a: N, b: N)
    requires
        linked(Seq::<(N, N, W)>::empty(), a, b),
    ensures
        a == b,
{
    let n = choose|n: nat| #[trigger] reach_within(Seq::<(N, N, W)>::empty(), a, b, n);
    lemma_reach_empty::<N, W>(a, b, n);
}

proof fn lemma_reach_empty<N, W>(a: N, b: N, n: nat)
    requires
        reach_within(Seq::<(N, N, W)>::empty(), a, b, n),
    ensures
        a == b,
    decreases n,
{
    if n > 0 {
        if reach_within(Seq::<(N, N, W)>::empty(), a, b, (n - 1) as nat) {
            lemma_reach_empty::<N, W>(a, b, (n - 1) as nat);
        } else {
            let c = choose|c: N| reach_within(Seq::<(N, N, W)>::empty(), a, c, (n - 1) as nat) && #[trigger] joined(Seq::<(N, N, W)>::empty(), c, b);
        }
    }
}

/// The nodes that one more edge `(u, v)` links: those linked before, and
/// those linked before to its two ends.
pub proof fn lemma_linked_push_iff<N, W>(edges: Seq<(N, N, W)>, e: (N, N, W), a: N, b: N)
    ensures
        linked(edges.push(e), a, b) <==> (linked(edges, a, b) || (linked(edges, a, e.0) && linked(edges, e.1, b))
            || (linked(edges, a, e.1) && linked(edges, e.0, b))),
{
    let k2 = edges.push(e);
    if linked(k2, a, b) {
        let n = choose|n: nat| #[trigger] reach_within(k2, a, b, n);
        lemma_reach_split(edges, e, a, b, n);
    }
    assert(k2[edges.len() as int] == e);
    if linked(edges, a, b) {
        lemma_linked_push(edges, e, a, b);
    }
    if linked(edges, a, e.0) && linked(edges, e.1, b) {
        lemma_linked_push(edges, e, a, e.0);
        lemma_linked_push(edges, e, e.1, b);
        lemma_reach_step(k2, a, e.0, e.1, edges.len() as int);
        lemma_linked_transitive(k2, a, e.1, b);
    }
    if linked(edges, a, e.1) && linked(edges, e.0, b) {
        lemma_linked_push(edges, e, a, e.1);
        lemma_linked_push(edges, e, e.0, b);
        lemma_reach_step(k2, a, e.1, e.0, edges.len() as int);
        lemma_linked_transitive(k2, a, e.0, b);
    }
}

proof fn lemma_reach_split<N, W>(edges: Seq<(N, N, W)>, e: (N, N, W), a: N, b: N, n: nat)
    requires
        reach_within(edges.push(e), a, b, n),
    ensures
        linked(edges, a, b) || (linked(edges, a, e.0) && linked(edges, e.1, b)) || (linked(edges, a, e.1)
            && linked(edges, e.0, b)),
    decreases n,
{
    let k2 = edges.push(e);
    if n == 0 {
        lemma_linked_refl(edges, a);
    } else if reach_within(k2, a, b, (n - 1) as nat) {
        lemma_reach_split(edges, e, a, b, (n - 1) as nat);
    } else {
        let c = choose|c: N| reach_within(k2, a, c, (n - 1) as nat) && #[trigger] joined(k2, c, b);
        lemma_reach_split(edges, e, a, c, (n - 1) as nat);
        let q = choose|q: int| 0 <= q < k2.len() && ((#[trigger] k2[q]).0 == c && k2[q].1 == b || k2[q].0 == b && k2[q].1 == c);
        lemma_linked_refl(edges, b);
        if q < edges.len() {
            assert(k2[q] == edges[q]);
            if linked(edges, a, c) {
                lemma_reach_step(edges, a, c, b, q);
            } else if linked(edges, a, e.0) && linked(edges, e.1, c) {
                lemma_reach_step(edges, e.1, c, b, q);
            } else {
                lemma_reach_step(edges, e.0, c, b, q);
            }
        } else {
            assert(k2[q] == e);
            if c == e.0 {
                if linked(edges, a, e.1) && linked(edges, e.0, c) {
                    lemma_linked_transitive(edges, a, e.1, b);
                }
            } else {
                if linked(edges, a, e.0) && linked(edges, e.1, c) {
                    lemma_linked_transitive(edges, a, e.0, b);
                }
            }
        }
    }
}

proof fn lemma_distinct_within<A>(s: Seq<A>, cands: Seq<A>)
    requires
        s.no_duplicates(),
        forall|i: int| 0 <= i < s.len() ==> cands.contains(#[trigger] s[i]),
    ensures
        s.len() <= cands.len(),
{
    broadcast use vstd::seq_lib::seq_to_set_is_finite;

    s.unique_seq_to_set();
    cands.lemma_cardinality_of_set();
    assert(s.to_set().subset_of(cands.to_set())) by {
        assert forall|x: A| s.to_set().contains(x) implies cands.to_set().contains(x) by {
            let i = s.index_of(x);
            assert(cands.contains(s[i]));
        }
    }
    vstd::set_lib::lemma_len_subset(s.to_set(), cands.to_set());
}

/// The names that a search may visit: the start, then both ends of each edge.
pub open spec fn candidates<W>(start: Seq<char>, edges: Seq<(Seq<char>, Seq<char>, W)>) -> Seq<Seq<char>>
    decreases edges.len(),
{
    if edges.len() == 0 {
        seq![start]
    } else {
        candidates(start, edges.drop_last()) + seq![edges.last().0, edges.last().1]
    }
}

proof fn lemma_candidates<W>(start: Seq<char>, edges: Seq<(Seq<char>, Seq<char>, W)>)
    ensures
        candidates(start, edges).len() == 2 * edges.len() + 1,
        candidates(start, edges).contains(start),
        forall|q: int| 0 <= q < edges.len() ==> candidates(start, edges).contains((#[trigger] edges[q]).0)
            && candidates(start, edges).contains(edges[q].1),
    decreases edges.len(),
{
    let c = candidates(start, edges);
    if edges.len() == 0 {
        assert(c[0] == start);
    } else {
        let d = edges.drop_last();
        lemma_candidates(start, d);
        let cd = candidates(start, d);
        assert forall|x: Seq<char>| cd.contains(x) implies c.contains(x) by {
            let i = cd.index_of(x);
            assert(c[i] == x);
        }
        assert forall|q: int| 0 <= q < edges.len() implies c.contains((#[trigger] edges[q]).0) && c.contains(edges[q].1) by {
            if q < d.len() {
                assert(d[q] == edges[q]);
            } else {
                assert(c[c.len() - 2] == edges[q].0);
                assert(c[c.len() - 1] == edges[q].1);
            }
        }
    }
}

pub fn contains_str(v: &Vec<String>, s: &str) -> (r: bool)
    ensures
        r == str_views(v@).contains(s@),
{
    let mut i: usize = 0;
    while i < v.len()
        invariant
            i <= v@.len(),
            forall|k: int| 0 <= k < i ==> v@[k]@ != s@,
        decreases v@.len() - i,
    {
        if str_eq(v[i].as_str(), s) {
            assert(str_views(v@)[i as int] == s@);
            return true;
        }
        i = i + 1;
    }
    proof {
        if str_views(v@).contains(s@) {
            let k = str_views(v@).index_of(s@);
            assert(v@[k]@ == s@);
        }
    }
    false
}


/// The names linked to `src` by `edges` (each crossed in either direction),
/// `src` first and each once.
pub(crate) fn reachable_from<W>(edges: &[(String, String, W)], src: &str) -> (r: Vec<String>)
    ensures
        r@.len() > 0,
        r@[0]@ == src@,
        str_views(r@).no_duplicates(),
        forall|x: Seq<char>| str_views(r@).contains(x) <==> linked(edge_list_view(edges@), src@, x),
{
    let ghost ev = edge_list_view(edges@);
        let mut visited: Vec<String> = Vec::new();
        visited.push(src.to_owned());
        proof {
            assert(reach_within(ev, src@, src@, 0));
            assert(str_views(visited@) =~= seq![src@]);
            lemma_candidates(src@, ev);
        }
        let ghost cands = candidates(src@, ev);
        let mut head: usize = 0;
        while head < visited.len()
            invariant
                ev == edge_list_view(edges@),
                cands == candidates(src@, ev),
                cands.len() == 2 * ev.len() + 1,
                forall|q: int| 0 <= q < ev.len() ==> cands.contains((#[trigger] ev[q]).0) && cands.contains(ev[q].1),
                visited@.len() > 0,
                visited@[0]@ == src@,
                head <= visited@.len(),
                str_views(visited@).no_duplicates(),
                forall|k: int| 0 <= k < visited@.len() ==> cands.contains((#[trigger] visited@[k])@),
                forall|k: int| 0 <= k < visited@.len() ==> linked(ev, src@, (#[trigger] visited@[k])@),
                forall|j: int, q: int|
                    0 <= j < head && 0 <= q < ev.len() ==> (#[trigger] ev[q].0 == (#[trigger] visited@[j])@
                        ==> str_views(visited@).contains(ev[q].1)) && (ev[q].1 == visited@[j]@
                        ==> str_views(visited@).contains(ev[q].0)),
            decreases cands.len() - head,
        {
            proof {
                lemma_distinct_within(str_views(visited@), cands);
            }
            let cur: String = visited[head].clone();
            let ghost v0 = visited@;
            let mut q: usize = 0;
            while q < edges.len()
                invariant
                    ev == edge_list_view(edges@),
                    cands == candidates(src@, ev),
                    cands.len() == 2 * ev.len() + 1,
                    forall|q2: int| 0 <= q2 < ev.len() ==> cands.contains((#[trigger] ev[q2]).0) && cands.contains(ev[q2].1),
                    head < v0.len(),
                    cur@ == v0[head as int]@,
                    q <= edges@.len(),
                    visited@.len() >= v0.len(),
                    forall|k: int| 0 <= k < v0.len() ==> visited@[k] == v0[k],
                    visited@[0]@ == src@,
                    str_views(visited@).no_duplicates(),
                    forall|k: int| 0 <= k < visited@.len() ==> cands.contains((#[trigger] visited@[k])@),
                    forall|k: int| 0 <= k < visited@.len() ==> linked(ev, src@, (#[trigger] visited@[k])@),
                    forall|j: int, q2: int|
                        0 <= j < head && 0 <= q2 < ev.len() ==> (#[trigger] ev[q2].0 == (#[trigger] v0[j])@
                            ==> str_views(v0).contains(ev[q2].1)) && (ev[q2].1 == v0[j]@
                            ==> str_views(v0).contains(ev[q2].0)),
                    forall|q2: int|
                        0 <= q2 < q ==> (#[trigger] ev[q2].0 == cur@ ==> str_views(visited@).contains(ev[q2].1))
                            && (ev[q2].1 == cur@ ==> str_views(visited@).contains(ev[q2].0)),
                decreases edges@.len() - q,
            {
                let e = &edges[q];
                proof {
                    assert(ev[q as int] == (e.0@, e.1@, e.2));
                    assert(linked(ev, src@, v0[head as int]@));
                }
                if str_eq(e.0.as_str(), cur.as_str()) && !contains_str(&visited, e.1.as_str()) {
                    let ghost w0 = visited@;
                    visited.push(e.1.clone());
                    proof {
                        assert(visited@[head as int] == v0[head as int]);
                        lemma_reach_step(ev, src@, cur@, e.1@, q as int);
                        assert(str_views(visited@) =~= str_views(w0).push(e.1@));
                        assert forall|k: int| 0 <= k < visited@.len() implies linked(ev, src@, (#[trigger] visited@[k])@) by {
                            if k < w0.len() {
                                assert(visited@[k] == w0[k]);
                            }
                        }
                        assert forall|k: int| 0 <= k < visited@.len() implies cands.contains((#[trigger] visited@[k])@) by {
                            if k < w0.len() {
                                assert(visited@[k] == w0[k]);
                            }
                        }
                        assert forall|x: Seq<char>| str_views(w0).contains(x) implies str_views(visited@).contains(x) by {
                            let i = str_views(w0).index_of(x);
                            assert(str_views(visited@)[i] == x);
                        }
                        assert(str_views(visited@).contains(e.1@)) by {
                            assert(str_views(visited@)[w0.len() as int] == e.1@);
                        }
                    }
                }
                if str_eq(e.1.as_str(), cur.as_str()) && !contains_str(&visited, e.0.as_str()) {
                    let ghost w0 = visited@;
                    visited.push(e.0.clone());
                    proof {
                        assert(visited@[head as int] == v0[head as int]);
                        lemma_reach_step(ev, src@, cur@, e.0@, q as int);
                        assert(str_views(visited@) =~= str_views(w0).push(e.0@));
                        assert forall|k: int| 0 <= k < visited@.len() implies linked(ev, src@, (#[trigger] visited@[k])@) by {
                            if k < w0.len() {
                                assert(visited@[k] == w0[k]);
                            }
                        }
                        assert forall|k: int| 0 <= k < visited@.len() implies cands.contains((#[trigger] visited@[k])@) by {
                            if k < w0.len() {
                                assert(visited@[k] == w0[k]);
                            }
                        }
                        assert forall|x: Seq<char>| str_views(w0).contains(x) implies str_views(visited@).contains(x) by {
                            let i = str_views(w0).index_of(x);
                            assert(str_views(visited@)[i] == x);
                        }
                        assert(str_views(visited@).contains(e.0@)) by {
                            assert(str_views(visited@)[w0.len() as int] == e.0@);
                        }
                    }
                }
                q = q + 1;
            }
            proof {
                assert forall|j: int, q2: int|
                    0 <= j < head + 1 && 0 <= q2 < ev.len() implies (#[trigger] ev[q2].0 == (#[trigger] visited@[j])@
                        ==> str_views(visited@).contains(ev[q2].1)) && (ev[q2].1 == visited@[j]@
                        ==> str_views(visited@).contains(ev[q2].0)) by {
                    assert(visited@[j] == v0[j]);
                    if j < head {
                        if ev[q2].0 == v0[j]@ {
                            let i = str_views(v0).index_of(ev[q2].1);
                            assert(str_views(visited@)[i] == ev[q2].1);
                        }
                        if ev[q2].1 == v0[j]@ {
                            let i = str_views(v0).index_of(ev[q2].0);
                            assert(str_views(visited@)[i] == ev[q2].0);
                        }
                    }
                }
                assert(visited@[head as int] == v0[head as int]);
            }
            head = head + 1;
        }
        proof {
            let vv = str_views(visited@);
            assert(vv.contains(src@)) by {
                assert(vv[0] == src@);
            }
            assert forall|q: int| 0 <= q < ev.len() implies (vv.contains((#[trigger] ev[q]).0) <==> vv.contains(ev[q].1)) by {
                if vv.contains(ev[q].0) {
                    let j = vv.index_of(ev[q].0);
                    assert(visited@[j]@ == ev[q].0);
                }
                if vv.contains(ev[q].1) {
                    let j = vv.index_of(ev[q].1);
                    assert(visited@[j]@ == ev[q].1);
                }
            }
            assert forall|x: Seq<char>| vv.contains(x) <==> linked(ev, src@, x) by {
                if linked(ev, src@, x) {
                    let n = choose|n: nat| #[trigger] reach_within(ev, src@, x, n);
                    lemma_closed_reach(ev, vv, src@, x, n);
                }
                if vv.contains(x) {
                    let j = vv.index_of(x);
                    assert(visited@[j]@ == x);
                }
            }
        }
        visited
}

} // verus!
