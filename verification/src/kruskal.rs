//! Kruskal's selection: from edges already in the order to try them, keep
//! each edge whose ends are not yet joined by the edges kept before it.

use vstd::prelude::*;

use crate::connect::{
    lemma_linked_empty, lemma_linked_push, lemma_linked_push_iff, lemma_linked_refl,
    lemma_reach_step, linked,
};
use crate::union_find::UnionFind;

verus! {

/// The edges that Kruskal's rule keeps from `edges`, tried in order: an
/// edge is kept when its ends are not linked by the edges kept before it.
pub open spec fn kruskal_kept<W>(edges: Seq<(usize, usize, W)>) -> Seq<(usize, usize, W)>
    decreases edges.len(),
{
    if edges.len() == 0 {
        Seq::empty()
    } else {
        let kept = kruskal_kept(edges.drop_last());
        let e = edges.last();
        if linked(kept, e.0, e.1) {
            kept
        } else {
            kept.push(e)
        }
    }
}

/// The spanning forest that Kruskal's rule picks from `sorted`, whose
/// edges join nodes below `n_nodes` and come in the order to try them.
pub fn kruskal_forest<W: Copy>(sorted: &Vec<(usize, usize, W)>, n_nodes: usize) -> (r: Vec<
    (usize, usize, W),
>)
    requires
        forall|q: int| 0 <= q < sorted@.len() ==> (#[trigger] sorted@[q]).0 < n_nodes && sorted@[q].1 < n_nodes,
    ensures
        r@ == kruskal_kept(sorted@),
{
    let mut uf = UnionFind::new(n_nodes);
    let mut kept: Vec<(usize, usize, W)> = Vec::new();
    proof {
        assert(sorted@.take(0) =~= Seq::<(usize, usize, W)>::empty());
        assert forall|x: int, y: int| 0 <= x < n_nodes && 0 <= y < n_nodes implies (uf.find_spec(x)
            == uf.find_spec(y) <==> linked(kept@, x as usize, y as usize)) by {
            if linked(kept@, x as usize, y as usize) {
                lemma_linked_empty::<usize, W>(x as usize, y as usize);
            }
            if x == y {
                lemma_linked_refl(kept@, x as usize);
            }
        }
    }
    let mut i: usize = 0;
    while i < sorted.len()
        invariant
            i <= sorted@.len(),
            forall|q: int| 0 <= q < sorted@.len() ==> (#[trigger] sorted@[q]).0 < n_nodes && sorted@[q].1 < n_nodes,
            uf.wf(),
            uf.size() == n_nodes,
            kept@ == kruskal_kept(sorted@.take(i as int)),
            forall|x: int, y: int|
                0 <= x < n_nodes && 0 <= y < n_nodes ==> (#[trigger] uf.find_spec(x) == #[trigger] uf.find_spec(y)
                    <==> linked(kept@, x as usize, y as usize)),
        decreases sorted@.len() - i,
    {
        let e = sorted[i];
        let ghost k0 = kept@;
        let ghost u0 = uf;
        proof {
            assert(sorted@.take(i + 1).drop_last() =~= sorted@.take(i as int));
            assert(sorted@.take(i + 1).last() == e);
            assert(e == sorted@[i as int]);
        }
        let merged = uf.union(e.0, e.1);
        if merged {
            kept.push(e);
            proof {
                assert(u0.find_spec(e.0 as int) != u0.find_spec(e.1 as int));
                assert(!linked(k0, e.0, e.1));
                let ru = u0.find_spec(e.0 as int);
                let rv = u0.find_spec(e.1 as int);
                assert forall|x: int, y: int| 0 <= x < n_nodes && 0 <= y < n_nodes implies (#[trigger] uf.find_spec(x)
                    == #[trigger] uf.find_spec(y) <==> linked(kept@, x as usize, y as usize)) by {
                    lemma_linked_push_iff(k0, e, x as usize, y as usize);
                    assert(u0.find_spec(x) == u0.find_spec(e.0 as int) <==> linked(k0, x as usize, e.0));
                    assert(u0.find_spec(e.1 as int) == u0.find_spec(y) <==> linked(k0, e.1, y as usize));
                    assert(u0.find_spec(x) == u0.find_spec(e.1 as int) <==> linked(k0, x as usize, e.1));
                    assert(u0.find_spec(e.0 as int) == u0.find_spec(y) <==> linked(k0, e.0, y as usize));
                    assert(u0.find_spec(x) == u0.find_spec(y) <==> linked(k0, x as usize, y as usize));
                    assert(uf.find_spec(x) == if u0.find_spec(x) == ru || u0.find_spec(x) == rv {
                        uf.find_spec(e.0 as int)
                    } else {
                        u0.find_spec(x)
                    });
                    assert(uf.find_spec(y) == if u0.find_spec(y) == ru || u0.find_spec(y) == rv {
                        uf.find_spec(e.0 as int)
                    } else {
                        u0.find_spec(y)
                    });
                }
            }
        } else {
            proof {
                assert(u0.find_spec(e.0 as int) == u0.find_spec(e.1 as int));
                assert(linked(k0, e.0, e.1));
                assert forall|x: int, y: int| 0 <= x < n_nodes && 0 <= y < n_nodes implies (#[trigger] uf.find_spec(x)
                    == #[trigger] uf.find_spec(y) <==> linked(kept@, x as usize, y as usize)) by {
                    assert(uf.find_spec(x) == u0.find_spec(x));
                    assert(uf.find_spec(y) == u0.find_spec(y));
                }
            }
        }
        i = i + 1;
    }
    proof {
        assert(sorted@.take(sorted@.len() as int) =~= sorted@);
    }
    kept
}

/// The kept edges span what the input spans: the two ends of every input
/// edge are linked by the kept edges.
pub proof fn law_kruskal_spans<W>(edges: Seq<(usize, usize, W)>)
    ensures
        forall|q: int|
            0 <= q < edges.len() ==> linked(kruskal_kept(edges), (#[trigger] edges[q]).0, edges[q].1),
    decreases edges.len(),
{
    if edges.len() > 0 {
        let d = edges.drop_last();
        let k = kruskal_kept(d);
        let e = edges.last();
        law_kruskal_spans(d);
        assert forall|q: int| 0 <= q < edges.len() implies linked(kruskal_kept(edges), (#[trigger] edges[q]).0, edges[q].1) by {
            if q < d.len() {
                assert(d[q] == edges[q]);
                assert(linked(k, d[q].0, d[q].1));
                if !linked(k, e.0, e.1) {
                    lemma_linked_push(k, e, d[q].0, d[q].1);
                }
            } else {
                if !linked(k, e.0, e.1) {
                    lemma_linked_refl(k.push(e), e.0);
                    assert(k.push(e)[k.len() as int] == e);
                    lemma_reach_step(k.push(e), e.0, e.0, e.1, k.len() as int);
                }
            }
        }
    }
}

/// Each kept edge joined two nodes that the edges kept before it did not
/// link, so the kept edges form a forest.
pub proof fn law_kruskal_forest<W>(edges: Seq<(usize, usize, W)>)
    ensures
        forall|j: int|
            0 <= j < kruskal_kept(edges).len() ==> !linked(
                kruskal_kept(edges).take(j),
                (#[trigger] kruskal_kept(edges)[j]).0,
                kruskal_kept(edges)[j].1,
            ),
    decreases edges.len(),
{
    if edges.len() > 0 {
        let d = edges.drop_last();
        let k = kruskal_kept(d);
        let e = edges.last();
        law_kruskal_forest(d);
        let kk = kruskal_kept(edges);
        assert forall|j: int| 0 <= j < kk.len() implies !linked(kk.take(j), (#[trigger] kk[j]).0, kk[j].1) by {
            if j < k.len() {
                assert(kk[j] == k[j]);
                assert(kk.take(j) =~= k.take(j));
                assert(!linked(k.take(j), k[j].0, k[j].1));
            } else {
                assert(kk.take(j) =~= k);
            }
        }
    }
}

} // verus!
