//! The index form of the terrain graph that the Steiner search works on:
//! terminal names resolved to node indices, and adjacency lists by index.

use vstd::prelude::*;

use crate::error::TerrainError;
use crate::text::{str_eq, str_views};

verus! {

/// The first position of `s` in `names`, or `-1`.
pub open spec fn first_pos(names: Seq<Seq<char>>, s: Seq<char>) -> int
    decreases names.len(),
{
    if names.len() == 0 {
        -1
    } else {
        let p = first_pos(names.drop_last(), s);
        if p >= 0 {
            p
        } else if names.last() == s {
            names.len() - 1
        } else {
            -1
        }
    }
}

proof fn lemma_first_pos(names: Seq<Seq<char>>, s: Seq<char>)
    ensures
        -1 <= first_pos(names, s) < names.len(),
        first_pos(names, s) >= 0 ==> names[first_pos(names, s)] == s,
        first_pos(names, s) >= 0 ==> forall|k: int| 0 <= k < first_pos(names, s) ==> names[k] != s,
        first_pos(names, s) == -1 <==> !names.contains(s),
    decreases names.len(),
{
    if names.len() > 0 {
        let d = names.drop_last();
        lemma_first_pos(d, s);
        let p = first_pos(d, s);
        if p >= 0 {
            assert(names[p] == d[p]);
            assert forall|k: int| 0 <= k < p implies names[k] != s by {
                assert(names[k] == d[k]);
            }
            assert(names.contains(s));
        } else {
            assert forall|k: int| 0 <= k < names.len() - 1 implies names[k] != s by {
                assert(names[k] == d[k]);
                if d[k] == s {
                    assert(d.contains(s));
                }
            }
            if names.last() == s {
                assert(names[names.len() - 1] == s);
            } else {
                assert(!names.contains(s)) by {
                    if names.contains(s) {
                        let k = names.index_of(s);
                        assert(names[k] == s);
                    }
                }
            }
        }
    }
}

/// The position of the first node named `s`.
fn position_of(names: &Vec<String>, s: &str) -> (r: Option<usize>)
    ensures
        match r {
            Some(i) => i as int == first_pos(str_views(names@), s@),
            None => first_pos(str_views(names@), s@) == -1,
        },
{
    proof {
        lemma_first_pos(str_views(names@), s@);
    }
    let mut i: usize = 0;
    while i < names.len()
        invariant
            i <= names@.len(),
            forall|k: int| 0 <= k < i ==> names@[k]@ != s@,
        decreases names@.len() - i,
    {
        if str_eq(names[i].as_str(), s) {
            proof {
                let nv = str_views(names@);
                lemma_first_pos(nv, s@);
                let p = first_pos(nv, s@);
                assert(nv[i as int] == s@);
                assert(nv.contains(s@));
                if p != i as int {
                    if p < i {
                        assert(nv[p] == names@[p]@);
                    } else {
                        assert(nv[i as int] != s@);
                    }
                }
            }
            return Some(i);
        }
        i = i + 1;
    }
    proof {
        lemma_first_pos(str_views(names@), s@);
        if str_views(names@).contains(s@) {
            let k = str_views(names@).index_of(s@);
            assert(names@[k]@ == s@);
        }
    }
    None
}

/// The first terminal, in order, that no node is named.
pub open spec fn first_unknown(names: Seq<Seq<char>>, terminals: Seq<Seq<char>>) -> int
    decreases terminals.len(),
{
    if terminals.len() == 0 {
        -1
    } else {
        let p = first_unknown(names, terminals.drop_last());
        if p >= 0 {
            p
        } else if first_pos(names, terminals.last()) == -1 {
            terminals.len() - 1
        } else {
            -1
        }
    }
}

/// The node index of each terminal: `InsufficientTerminals` when there are
/// fewer than two terminals, else `NodeNotFound` for the first terminal that
/// names no node, else for each terminal the first node of that name.
pub fn resolve_terminals(node_names: &Vec<String>, terminals: &Vec<String>) -> (r: Result<
    Vec<usize>,
    TerrainError,
>)
    ensures
        terminals@.len() < 2 ==> r == Err::<Vec<usize>, TerrainError>(
            TerrainError::InsufficientTerminals { got: terminals@.len() as usize },
        ),
        terminals@.len() >= 2 && first_unknown(str_views(node_names@), str_views(terminals@)) >= 0
            ==> (match r {
            Err(TerrainError::NodeNotFound { id }) => id@ == terminals@[first_unknown(
                str_views(node_names@),
                str_views(terminals@),
            )]@,
            _ => false,
        }),
        terminals@.len() >= 2 && first_unknown(str_views(node_names@), str_views(terminals@)) == -1
            ==> (match r {
            Ok(idx) => idx@.len() == terminals@.len() && forall|k: int|
                0 <= k < idx@.len() ==> #[trigger] idx@[k] as int == first_pos(
                    str_views(node_names@),
                    terminals@[k]@,
                ),
            _ => false,
        }),
{
    if terminals.len() < 2 {
        return Err(TerrainError::InsufficientTerminals { got: terminals.len() });
    }
    let ghost nv = str_views(node_names@);
    let ghost tv = str_views(terminals@);
    let mut idx: Vec<usize> = Vec::new();
    let mut k: usize = 0;
    while k < terminals.len()
        invariant
            2 <= terminals@.len(),
            k <= terminals@.len(),
            nv == str_views(node_names@),
            tv == str_views(terminals@),
            first_unknown(nv, tv.take(k as int)) == -1,
            idx@.len() == k,
            forall|j: int| 0 <= j < k ==> #[trigger] idx@[j] as int == first_pos(nv, terminals@[j]@),
        decreases terminals@.len() - k,
    {
        proof {
            assert(tv.take(k + 1).drop_last() =~= tv.take(k as int));
            assert(tv.take(k + 1).last() == terminals@[k as int]@);
        }
        match position_of(node_names, terminals[k].as_str()) {
            Some(i) => {
                idx.push(i);
            },
            None => {
                proof {
                    lemma_first_unknown_prefix(nv, tv, k as int + 1);
                }
                return Err(TerrainError::NodeNotFound { id: terminals[k].clone() });
            },
        }
        k = k + 1;
    }
    proof {
        assert(tv.take(terminals@.len() as int) =~= tv);
    }
    Ok(idx)
}

proof fn lemma_first_unknown_prefix(names: Seq<Seq<char>>, t: Seq<Seq<char>>, m: int)
    requires
        0 < m <= t.len(),
        first_unknown(names, t.take(m)) == m - 1,
    ensures
        first_unknown(names, t) == m - 1,
    decreases t.len(),
{
    if t.len() > m {
        assert(t.drop_last().take(m) =~= t.take(m));
        lemma_first_unknown_prefix(names, t.drop_last(), m);
    } else {
        assert(t.take(m) =~= t);
    }
}

/// The entries of node `i`'s adjacency list: for each edge in order, the
/// other end and the weight, once per end at `i` (a loop at `i` twice).
pub open spec fn incident_entries<W>(edges: Seq<(usize, usize, W)>, i: usize) -> Seq<(usize, W)>
    decreases edges.len(),
{
    if edges.len() == 0 {
        Seq::empty()
    } else {
        let e = edges.last();
        incident_entries(edges.drop_last(), i) + (if e.0 == i {
            seq![(e.1, e.2)]
        } else {
            Seq::empty()
        }) + (if e.1 == i {
            seq![(e.0, e.2)]
        } else {
            Seq::empty()
        })
    }
}

/// Undirected adjacency lists of the nodes `0..n`, built from the edges in
/// order.
pub fn compact_adjacency<W: Copy>(n: usize, edges: &Vec<(usize, usize, W)>) -> (adj: Vec<Vec<(usize, W)>>)
    requires
        forall|q: int| 0 <= q < edges@.len() ==> (#[trigger] edges@[q]).0 < n && edges@[q].1 < n,
    ensures
        adj@.len() == n,
        forall|i: int| 0 <= i < n ==> #[trigger] adj@[i]@ == incident_entries(edges@, i as usize),
{
    let mut adj: Vec<Vec<(usize, W)>> = Vec::new();
    let mut i: usize = 0;
    while i < n
        invariant
            i <= n,
            adj@.len() == i,
            forall|k: int| 0 <= k < i ==> (#[trigger] adj@[k])@ == Seq::<(usize, W)>::empty(),
        decreases n - i,
    {
        adj.push(Vec::new());
        i = i + 1;
    }
    let mut q: usize = 0;
    while q < edges.len()
        invariant
            q <= edges@.len(),
            adj@.len() == n,
            forall|q2: int| 0 <= q2 < edges@.len() ==> (#[trigger] edges@[q2]).0 < n && edges@[q2].1 < n,
            forall|k: int| 0 <= k < n ==> #[trigger] adj@[k]@ == incident_entries(edges@.take(q as int), k as usize),
        decreases edges@.len() - q,
    {
        let e = edges[q];
        let ghost a0 = adj@;
        proof {
            assert(edges@[q as int] == e);
        }
        let mut l = adj.remove(e.0);
        l.push((e.1, e.2));
        adj.insert(e.0, l);
        let ghost a1 = adj@;
        let mut l2 = adj.remove(e.1);
        l2.push((e.0, e.2));
        adj.insert(e.1, l2);
        proof {
            let t1 = edges@.take(q + 1);
            assert(t1.drop_last() =~= edges@.take(q as int));
            assert(t1.last() == e);
            assert forall|k: int| 0 <= k < n implies #[trigger] adj@[k]@ == incident_entries(t1, k as usize) by {
                assert(a0[k]@ == incident_entries(edges@.take(q as int), k as usize));
                if k == e.0 as int {
                    assert(a1[k]@ == a0[k]@.push((e.1, e.2)));
                } else {
                    assert(a1[k] == a0[k]);
                }
                if k == e.1 as int {
                    assert(adj@[k]@ == a1[k]@.push((e.0, e.2)));
                } else {
                    assert(adj@[k] == a1[k]);
                }
                let rest = incident_entries(edges@.take(q as int), k as usize);
                if k == e.0 as int && k == e.1 as int {
                    assert(adj@[k]@ =~= rest + seq![(e.1, e.2)] + seq![(e.0, e.2)]);
                } else if k == e.0 as int {
                    assert(adj@[k]@ =~= rest + seq![(e.1, e.2)] + Seq::<(usize, W)>::empty());
                } else if k == e.1 as int {
                    assert(adj@[k]@ =~= rest + Seq::<(usize, W)>::empty() + seq![(e.0, e.2)]);
                } else {
                    assert(adj@[k]@ =~= rest + Seq::<(usize, W)>::empty() + Seq::<(usize, W)>::empty());
                }
            }
        }
        q = q + 1;
    }
    proof {
        assert(edges@.take(edges@.len() as int) =~= edges@);
    }
    adj
}

} // verus!
