//! Prim's selection for the minimum spanning tree of a terrain graph: from
//! the source outwards, each step takes the cheapest edge that leaves the
//! tree, ties broken by the names of its far and near ends.

use vstd::prelude::*;

use crate::prune::{count_true, lemma_count_true_drop, lemma_count_true_le};
use crate::text::{chars_of, lemma_lex_asymmetric, lemma_lex_irreflexive, lemma_lex_total, lemma_lex_transitive, lex_less, lex_lt, str_views};

verus! {

/// The tree's nodes after taking the edges of `r` (near end, far end,
/// weight bits) from `src`: the source and the far end of each.
pub open spec fn tree_after(n: nat, src: usize, r: Seq<(usize, usize, u64)>) -> Seq<bool>
    decreases r.len(),
{
    if r.len() == 0 {
        Seq::new(n, |x: int| x == src)
    } else {
        let t = tree_after(n, src, r.drop_last());
        if (r.last().1 as int) < t.len() {
            t.update(r.last().1 as int, true)
        } else {
            t
        }
    }
}

/// `c` is edge `q` of `edges`, taken in one of its two directions, from a
/// tree node to a node outside the tree.
pub open spec fn crosses(edges: Seq<(usize, usize, u64)>, tree: Seq<bool>, q: int, c: (usize, usize, u64)) -> bool {
    &&& 0 <= q < edges.len()
    &&& (c == edges[q] || c == (edges[q].1, edges[q].0, edges[q].2))
    &&& tree[c.0 as int]
    &&& !tree[c.1 as int]
}

/// `c` leaves the tree by some edge.
pub open spec fn crossing(edges: Seq<(usize, usize, u64)>, tree: Seq<bool>, c: (usize, usize, u64)) -> bool {
    exists|q: int| #[trigger] crosses(edges, tree, q, c)
}

/// `a` is taken before `b`: smaller weight bits, then the far end's name,
/// then the near end's name.
pub open spec fn prim_before(names: Seq<Seq<char>>, a: (usize, usize, u64), b: (usize, usize, u64)) -> bool {
    ||| a.2 < b.2
    ||| a.2 == b.2 && lex_lt(names[a.1 as int], names[b.1 as int])
    ||| a.2 == b.2 && names[a.1 as int] == names[b.1 as int] && lex_lt(names[a.0 as int], names[b.0 as int])
}

/// `c` leaves the tree and no edge that leaves it comes before `c`.
pub open spec fn least_crossing(names: Seq<Seq<char>>, edges: Seq<(usize, usize, u64)>, tree: Seq<bool>, c: (usize, usize, u64)) -> bool {
    &&& crossing(edges, tree, c)
    &&& forall|c2: (usize, usize, u64)| #[trigger] crossing(edges, tree, c2) ==> !prim_before(names, c2, c)
}

proof fn lemma_before_order(names: Seq<Seq<char>>, a: (usize, usize, u64), b: (usize, usize, u64), c: (usize, usize, u64))
    ensures
        !prim_before(names, a, a),
        prim_before(names, a, b) ==> !prim_before(names, b, a),
        prim_before(names, a, b) && prim_before(names, b, c) ==> prim_before(names, a, c),
        !prim_before(names, a, b) && !prim_before(names, b, a) ==> a.2 == b.2 && names[a.1 as int] == names[b.1 as int]
            && names[a.0 as int] == names[b.0 as int],
{
    let (na0, na1, nb0, nb1, nc0, nc1) = (names[a.0 as int], names[a.1 as int], names[b.0 as int], names[b.1 as int], names[c.0 as int], names[c.1 as int]);
    lemma_lex_irreflexive(na1);
    lemma_lex_irreflexive(na0);
    lemma_lex_asymmetric(na1, nb1);
    lemma_lex_asymmetric(na0, nb0);
    lemma_lex_total(na1, nb1);
    lemma_lex_total(na0, nb0);
    if prim_before(names, a, b) && prim_before(names, b, c) {
        if lex_lt(na1, nb1) && lex_lt(nb1, nc1) {
            lemma_lex_transitive(na1, nb1, nc1);
        }
        if na1 == nb1 && nb1 == nc1 && lex_lt(na0, nb0) && lex_lt(nb0, nc0) {
            lemma_lex_transitive(na0, nb0, nc0);
        }
    }
}

fn before_exec(keys: &Vec<Vec<char>>, a: (usize, usize, u64), b: (usize, usize, u64)) -> (r: bool)
    requires
        a.0 < keys@.len(),
        a.1 < keys@.len(),
        b.0 < keys@.len(),
        b.1 < keys@.len(),
    ensures
        r == prim_before(keys@.map_values(|k: Vec<char>| k@), a, b),
{
    let ghost nm = keys@.map_values(|k: Vec<char>| k@);
    proof {
        assert(nm[a.0 as int] == keys@[a.0 as int]@);
        assert(nm[a.1 as int] == keys@[a.1 as int]@);
        assert(nm[b.0 as int] == keys@[b.0 as int]@);
        assert(nm[b.1 as int] == keys@[b.1 as int]@);
        lemma_lex_total(nm[a.1 as int], nm[b.1 as int]);
        lemma_lex_asymmetric(nm[a.1 as int], nm[b.1 as int]);
        lemma_lex_irreflexive(nm[a.1 as int]);
    }
    if a.2 != b.2 {
        return a.2 < b.2;
    }
    if lex_less(&keys[a.1], &keys[b.1]) {
        return true;
    }
    if lex_less(&keys[b.1], &keys[a.1]) {
        return false;
    }
    lex_less(&keys[a.0], &keys[b.0])
}

/// The edges that Prim's method takes from `src` over the undirected
/// `edges` (ends and weight bits), in the order it takes them, each as
/// (tree end, new end, weight bits): at every step the edge that leaves the
/// tree and comes first (least weight bits, then the new end's name, then
/// the tree end's name), until no edge leaves the tree.
pub fn prim_edges(names: &Vec<String>, edges: &Vec<(usize, usize, u64)>, src: usize) -> (r: Vec<(usize, usize, u64)>)
    requires
        src < names@.len(),
        forall|q: int| 0 <= q < edges@.len() ==> (#[trigger] edges@[q]).0 < names@.len() && edges@[q].1 < names@.len(),
    ensures
        forall|j: int|
            0 <= j < r@.len() ==> least_crossing(
                str_views(names@),
                edges@,
                tree_after(names@.len(), src, r@.take(j)),
                #[trigger] r@[j],
            ),
        forall|c: (usize, usize, u64)| !crossing(edges@, tree_after(names@.len(), src, r@), c),
{
    let n = names.len();
    let mut keys: Vec<Vec<char>> = Vec::new();
    let mut i: usize = 0;
    while i < n
        invariant
            i <= n,
            n == names@.len(),
            keys@.map_values(|k: Vec<char>| k@) == str_views(names@).take(i as int),
        decreases n - i,
    {
        let ghost k0 = keys@;
        keys.push(chars_of(names[i].as_str()));
        proof {
            assert(keys@.map_values(|k: Vec<char>| k@) =~= k0.map_values(|k: Vec<char>| k@).push(names@[i as int]@));
            assert(str_views(names@).take(i + 1) =~= str_views(names@).take(i as int).push(names@[i as int]@));
        }
        i = i + 1;
    }
    let ghost nm = str_views(names@);
    proof {
        assert(str_views(names@).take(n as int) =~= str_views(names@));
    }
    let mut tree: Vec<bool> = Vec::new();
    let mut x: usize = 0;
    while x < n
        invariant
            x <= n,
            tree@ == Seq::new(x as nat, |y: int| y == src),
        decreases n - x,
    {
        tree.push(x == src);
        x = x + 1;
    }
    let ghost ev = edges@;
    let mut r: Vec<(usize, usize, u64)> = Vec::new();
    proof {
        lemma_count_true_le(tree@);
    }
    loop
        invariant
            n == names@.len(),
            nm == str_views(names@),
            keys@.map_values(|k: Vec<char>| k@) == nm,
            ev == edges@,
            src < n,
            forall|q: int| 0 <= q < ev.len() ==> (#[trigger] ev[q]).0 < n && ev[q].1 < n,
            tree@ == tree_after(n as nat, src, r@),
            tree@.len() == n,
            forall|j: int|
                0 <= j < r@.len() ==> least_crossing(nm, ev, tree_after(n as nat, src, r@.take(j)), #[trigger] r@[j]),
        ensures
            forall|j: int|
                0 <= j < r@.len() ==> least_crossing(nm, ev, tree_after(n as nat, src, r@.take(j)), #[trigger] r@[j]),
            forall|c: (usize, usize, u64)| !crossing(ev, tree_after(n as nat, src, r@), c),
        decreases n - count_true(tree@),
    {
        proof {
            lemma_count_true_le(tree@);
        }
        let mut best: Option<(usize, usize, u64)> = None;
        let mut q: usize = 0;
        proof {
            assert(keys@.len() == keys@.map_values(|k: Vec<char>| k@).len());
        }
        while q < edges.len()
            invariant
                q <= ev.len(),
                ev == edges@,
                n == tree@.len(),
                keys@.len() == n,
                keys@.map_values(|k: Vec<char>| k@) == nm,
                forall|p: int| 0 <= p < ev.len() ==> (#[trigger] ev[p]).0 < n && ev[p].1 < n,
                match best {
                    Some(c) => crossing(ev, tree@, c) && forall|p: int, c2: (usize, usize, u64)|
                        0 <= p < q && #[trigger] crosses(ev, tree@, p, c2) ==> !prim_before(nm, c2, c),
                    None => forall|p: int, c2: (usize, usize, u64)| 0 <= p < q ==> !#[trigger] crosses(ev, tree@, p, c2),
                },
            decreases ev.len() - q,
        {
            let (a, b, w) = edges[q];
            let ghost old_best = best;
            if tree[a] && !tree[b] {
                let c = (a, b, w);
                let take = match best {
                    Some(bc) => before_exec(&keys, c, bc),
                    None => true,
                };
                if take {
                    best = Some(c);
                }
            }
            let ghost mid = best;
            if tree[b] && !tree[a] {
                let c = (b, a, w);
                let take = match best {
                    Some(bc) => before_exec(&keys, c, bc),
                    None => true,
                };
                if take {
                    best = Some(c);
                }
            }
            proof {
                let c1 = (a, b, w);
                let c2 = (b, a, w);
                assert(ev[q as int] == c1);
                if tree@[a as int] && !tree@[b as int] {
                    assert(crosses(ev, tree@, q as int, c1));
                }
                if tree@[b as int] && !tree@[a as int] {
                    assert(crosses(ev, tree@, q as int, c2));
                }
                match best {
                    Some(c) => {
                        assert forall|p: int, c3: (usize, usize, u64)|
                            0 <= p < q + 1 && #[trigger] crosses(ev, tree@, p, c3) implies !prim_before(nm, c3, c) by {
                            lemma_before_order(nm, c3, c, c);
                            match old_best {
                                Some(ob) => {
                                    lemma_before_order(nm, c3, ob, c);
                                    lemma_before_order(nm, ob, c3, c);
                                    lemma_before_order(nm, c, ob, ob);
                                    match mid {
                                        Some(mb) => {
                                            lemma_before_order(nm, c3, mb, c);
                                            lemma_before_order(nm, mb, ob, c);
                                            lemma_before_order(nm, c, mb, ob);
                                            lemma_before_order(nm, c3, mb, ob);
                                        },
                                        None => {},
                                    }
                                },
                                None => {
                                    match mid {
                                        Some(mb) => {
                                            lemma_before_order(nm, c3, mb, c);
                                            lemma_before_order(nm, c, mb, mb);
                                        },
                                        None => {},
                                    }
                                },
                            }
                        }
                    },
                    None => {},
                }
            }
            q = q + 1;
        }
        match best {
            None => {
                proof {
                    assert forall|c: (usize, usize, u64)| !crossing(ev, tree_after(n as nat, src, r@), c) by {
                        if crossing(ev, tree@, c) {
                            let p = choose|p: int| #[trigger] crosses(ev, tree@, p, c);
                        }
                    }
                }
                break;
            },
            Some(c) => {
                let ghost t0 = tree@;
                let ghost r0 = r@;
                proof {
                    assert(least_crossing(nm, ev, t0, c)) by {
                        assert forall|c2: (usize, usize, u64)| #[trigger] crossing(ev, t0, c2) implies !prim_before(nm, c2, c) by {
                            let p = choose|p: int| #[trigger] crosses(ev, t0, p, c2);
                        }
                    }
                    let p = choose|p: int| #[trigger] crosses(ev, t0, p, c);
                }
                r.push(c);
                tree.set(c.1, true);
                proof {
                    assert(r@.drop_last() =~= r0);
                    assert(r@.take(r0.len() as int) =~= r0);
                    assert forall|j: int| 0 <= j < r@.len() implies least_crossing(nm, ev, tree_after(n as nat, src, r@.take(j)), #[trigger] r@[j]) by {
                        if j < r0.len() {
                            assert(r@.take(j) =~= r0.take(j));
                            assert(r@[j] == r0[j]);
                        }
                    }
                    assert(!t0[c.1 as int]);
                    assert forall|k: int| 0 <= k < tree@.len() implies #[trigger] t0[k] ==> tree@[k] by {
                    }
                    lemma_count_true_drop(tree@, t0, c.1 as int);
                    lemma_count_true_le(tree@);
                }
            },
        }
    }
    r
}

} // verus!
