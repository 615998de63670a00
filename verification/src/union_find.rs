//! Disjoint-set forest with union by rank and path compression, as used by
//! Kruskal's algorithm.

use vstd::prelude::*;

verus! {

/// The parent links form a forest whose ranks grow strictly towards the roots.
pub open spec fn forest_shape(parent: Seq<usize>, rank: Seq<usize>) -> bool {
    &&& parent.len() == rank.len()
    &&& forall|x: int| 0 <= x < parent.len() ==> (#[trigger] parent[x]) < parent.len()
    &&& forall|x: int|
        0 <= x < parent.len() && #[trigger] parent[x] != x ==> rank[x] < rank[parent[x] as int]
    &&& forall|x: int| 0 <= x < rank.len() ==> (#[trigger] rank[x]) <= rank.len()
}

/// The root reached from `x` by following parent links.
pub open spec fn root_of(parent: Seq<usize>, rank: Seq<usize>, x: int) -> int
    decreases rank.len() - rank[x],
{
    if 0 <= x < parent.len() && parent.len() == rank.len() && parent[x] != x && parent[x]
        < parent.len() && rank[x] < rank[parent[x] as int] && rank[parent[x] as int]
        <= rank.len() {
        root_of(parent, rank, parent[x] as int)
    } else {
        x
    }
}

/// The elements that are their own parent.
pub open spec fn roots(parent: Seq<usize>) -> Set<int> {
    Set::new(|x: int| 0 <= x < parent.len() && parent[x] == x)
}

proof fn lemma_roots_finite(parent: Seq<usize>)
    ensures
        roots(parent).finite(),
        roots(parent).len() <= parent.len(),
{
    vstd::set_lib::lemma_int_range(0, parent.len() as int);
    vstd::set_lib::lemma_len_subset(roots(parent), vstd::set_lib::set_int_range(0, parent.len() as int));
}

proof fn lemma_root_unfold(parent: Seq<usize>, rank: Seq<usize>, x: int)
    requires
        forest_shape(parent, rank),
        0 <= x < parent.len(),
    ensures
        root_of(parent, rank, x) == if parent[x] == x {
            x
        } else {
            root_of(parent, rank, parent[x] as int)
        },
{
}

proof fn lemma_root_props(parent: Seq<usize>, rank: Seq<usize>, x: int)
    requires
        forest_shape(parent, rank),
        0 <= x < parent.len(),
    ensures
        0 <= root_of(parent, rank, x) < parent.len(),
        parent[root_of(parent, rank, x)] == root_of(parent, rank, x),
        rank[x] <= rank[root_of(parent, rank, x)],
        parent[x] != x ==> rank[x] < rank[root_of(parent, rank, x)],
        root_of(parent, rank, root_of(parent, rank, x)) == root_of(parent, rank, x),
    decreases rank.len() - rank[x],
{
    if parent[x] != x {
        lemma_root_props(parent, rank, parent[x] as int);
    }
}

/// Redirecting some parent links straight to their roots keeps every root.
proof fn lemma_compress_roots(p0: Seq<usize>, p2: Seq<usize>, rank: Seq<usize>, z: int)
    requires
        forest_shape(p0, rank),
        forest_shape(p2, rank),
        p2.len() == p0.len(),
        forall|y: int|
            0 <= y < p0.len() ==> #[trigger] p2[y] == p0[y] || p2[y] == root_of(p0, rank, y),
        0 <= z < p0.len(),
    ensures
        root_of(p2, rank, z) == root_of(p0, rank, z),
    decreases rank.len() - rank[z],
{
    lemma_root_props(p0, rank, z);
    if p2[z] == z {
        if p0[z] != z {
            assert(p2[z] == root_of(p0, rank, z));
        }
    } else {
        let q = p2[z] as int;
        lemma_compress_roots(p0, p2, rank, q);
        if p2[z] == p0[z] {
        } else {
            lemma_root_props(p0, rank, z);
            if p0[z] == z {
                assert(root_of(p0, rank, z) == z);
            }
        }
    }
}

/// Linking root `l` under root `w` sends everything of `l`'s tree to `w`.
proof fn lemma_link_roots(
    p2: Seq<usize>,
    rk2: Seq<usize>,
    p3: Seq<usize>,
    rk3: Seq<usize>,
    l: int,
    w: int,
    z: int,
)
    requires
        forest_shape(p2, rk2),
        forest_shape(p3, rk3),
        0 <= l < p2.len(),
        0 <= w < p2.len(),
        l != w,
        p2[l] == l,
        p2[w] == w,
        p3 == p2.update(l, w as usize),
        rk3.len() == rk2.len(),
        forall|y: int| 0 <= y < rk2.len() && y != w ==> #[trigger] rk3[y] == rk2[y],
        0 <= z < p2.len(),
    ensures
        root_of(p3, rk3, z) == if root_of(p2, rk2, z) == l {
            w
        } else {
            root_of(p2, rk2, z)
        },
    decreases rk3.len() - rk3[z],
{
    lemma_root_unfold(p2, rk2, z);
    lemma_root_unfold(p3, rk3, z);
    if z == l {
        lemma_root_unfold(p3, rk3, w);
    } else if p2[z] == z {
    } else {
        lemma_link_roots(p2, rk2, p3, rk3, l, w, p2[z] as int);
    }
}

/// Disjoint-set forest over the elements `0..n`.
pub struct UnionFind {
    parent: Vec<usize>,
    rank: Vec<usize>,
}

impl UnionFind {
    /// Number of elements.
    pub closed spec fn size(&self) -> nat {
        self.parent@.len()
    }

    /// The representative of the set that holds `x`.
    pub closed spec fn find_spec(&self, x: int) -> int {
        root_of(self.parent@, self.rank@, x)
    }

    /// The rank of `x`.
    pub closed spec fn rank_spec(&self, x: int) -> int {
        self.rank@[x] as int
    }

    /// The parent link of `x`.
    pub closed spec fn parent_spec(&self, x: int) -> int {
        self.parent@[x] as int
    }

    /// Well-formedness: a ranked forest whose ranks stay below the number of
    /// links made so far.
    pub closed spec fn wf(&self) -> bool {
        &&& forest_shape(self.parent@, self.rank@)
        &&& forall|x: int|
            0 <= x < self.rank@.len() ==> #[trigger] self.rank@[x] + roots(self.parent@).len()
                <= self.parent@.len()
    }

    /// `n` singleton sets, each element its own representative.
    pub fn new(n: usize) -> (uf: Self)
        ensures
            uf.wf(),
            uf.size() == n,
            forall|x: int| 0 <= x < n ==> #[trigger] uf.find_spec(x) == x,
            forall|x: int| 0 <= x < n ==> #[trigger] uf.rank_spec(x) == 0,
    {
        let mut parent: Vec<usize> = Vec::new();
        let mut rank: Vec<usize> = Vec::new();
        let mut i: usize = 0;
        while i < n
            invariant
                i <= n,
                parent@.len() == i,
                rank@.len() == i,
                forall|k: int| 0 <= k < i ==> #[trigger] parent@[k] == k,
                forall|k: int| 0 <= k < i ==> #[trigger] rank@[k] == 0,
            decreases n - i,
        {
            parent.push(i);
            rank.push(0);
            i = i + 1;
        }
        proof {
            assert(roots(parent@) =~= vstd::set_lib::set_int_range(0, n as int));
            vstd::set_lib::lemma_int_range(0, n as int);
        }
        let uf = UnionFind { parent, rank };
        proof {
            assert forall|x: int| 0 <= x < n implies #[trigger] uf.find_spec(x) == x by {
                assert(uf.parent@[x] == x);
            }
        }
        uf
    }

    /// The representative of `x`'s set; every link on the way is redirected
    /// to it (path compression). No set changes.
    pub fn find(&mut self, x: usize) -> (r: usize)
        requires
            old(self).wf(),
            x < old(self).size(),
        ensures
            final(self).wf(),
            final(self).size() == old(self).size(),
            r == old(self).find_spec(x as int),
            forall|z: int|
                0 <= z < old(self).size() ==> #[trigger] final(self).find_spec(z) == old(
                    self,
                ).find_spec(z),
            forall|z: int| 0 <= z < old(self).size() ==> #[trigger] final(self).rank_spec(z) == old(self).rank_spec(z),
            forall|z: int|
                0 <= z < old(self).size() ==> #[trigger] final(self).parent_spec(z) == old(
                    self,
                ).parent_spec(z) || final(self).parent_spec(z) == old(self).find_spec(z),
        decreases old(self).size() - old(self).rank_spec(x as int),
    {
        let ghost p0 = self.parent@;
        let ghost rk = self.rank@;
        proof {
            lemma_root_props(p0, rk, x as int);
            lemma_root_unfold(p0, rk, x as int);
        }
        let p = self.parent[x];
        if p != x {
            let r = self.find(p);
            let ghost p1 = self.parent@;
            let ghost s1 = *self;
            proof {
                assert(r as int == root_of(p0, rk, x as int));
                lemma_root_props(p0, rk, x as int);
            }
            self.parent.set(x, r);
            proof {
                let p2 = self.parent@;
                assert(self.rank@ =~= rk) by {
                    assert forall|z: int| 0 <= z < rk.len() implies self.rank@[z] == rk[z] by {
                        assert(s1.rank_spec(z) == old(self).rank_spec(z));
                    }
                }
                assert forall|y: int| 0 <= y < p0.len() implies #[trigger] p2[y] == p0[y] || p2[y]
                    == root_of(p0, rk, y) by {
                    if y != x {
                        assert(s1.parent_spec(y) == old(self).parent_spec(y) || s1.parent_spec(y) == old(self).find_spec(y));
                    }
                }
                assert(forest_shape(p2, rk)) by {
                    assert forall|y: int| 0 <= y < p2.len() && #[trigger] p2[y] != y implies rk[y] < rk[p2[y] as int] by {
                        if p2[y] != p0[y] {
                            lemma_root_props(p0, rk, y);
                            if p0[y] == y {
                                assert(root_of(p0, rk, y) == y);
                            }
                        }
                    }
                    assert forall|y: int| 0 <= y < p2.len() implies (#[trigger] p2[y]) < p2.len() by {
                        if p2[y] != p0[y] {
                            lemma_root_props(p0, rk, y);
                        }
                    }
                }
                assert(roots(p2) =~= roots(p0)) by {
                    assert forall|y: int| 0 <= y < p2.len() implies (p2[y] == y <==> p0[y] == y) by {
                        lemma_root_props(p0, rk, y);
                        if p0[y] != y && p2[y] == root_of(p0, rk, y) {
                            assert(rk[y] < rk[root_of(p0, rk, y)]);
                        }
                    }
                }
                assert forall|z: int| 0 <= z < p0.len() implies root_of(p2, rk, z) == root_of(p0, rk, z) by {
                    lemma_compress_roots(p0, p2, rk, z);
                }
            }
        }
        self.parent[x]
    }

    /// Merges the sets of `x` and `y`. Returns `false` when they were already
    /// one set. The root of lower rank is linked under the other; on equal
    /// ranks `x`'s root stays and its rank grows by one.
    pub fn union(&mut self, x: usize, y: usize) -> (merged: bool)
        requires
            old(self).wf(),
            x < old(self).size(),
            y < old(self).size(),
        ensures
            final(self).wf(),
            final(self).size() == old(self).size(),
            merged == (old(self).find_spec(x as int) != old(self).find_spec(y as int)),
            final(self).find_spec(x as int) == final(self).find_spec(y as int),
            ({
                let rx = old(self).find_spec(x as int);
                let ry = old(self).find_spec(y as int);
                let (w, l) = if old(self).rank_spec(rx) < old(self).rank_spec(ry) {
                    (ry, rx)
                } else {
                    (rx, ry)
                };
                &&& forall|z: int|
                    0 <= z < old(self).size() ==> #[trigger] final(self).find_spec(z) == if merged
                        && old(self).find_spec(z) == l {
                        w
                    } else {
                        old(self).find_spec(z)
                    }
                &&& forall|z: int|
                    0 <= z < old(self).size() ==> #[trigger] final(self).rank_spec(z) == if merged
                        && z == w && old(self).rank_spec(rx) == old(self).rank_spec(ry) {
                        old(self).rank_spec(z) + 1
                    } else {
                        old(self).rank_spec(z)
                    }
            }),
    {
        let ghost s0 = *self;
        let rx = self.find(x);
        let ghost s1 = *self;
        let ry = self.find(y);
        let ghost s2 = *self;
        let ghost p2 = self.parent@;
        let ghost rk2 = self.rank@;
        proof {
            lemma_root_props(s0.parent@, s0.rank@, x as int);
            lemma_root_props(s0.parent@, s0.rank@, y as int);
            assert(rx as int == s2.find_spec(x as int)) by {
                assert(s1.find_spec(x as int) == s0.find_spec(x as int));
            }
            assert(ry as int == s2.find_spec(y as int));
            assert(ry as int == s0.find_spec(y as int)) by {
                assert(s1.find_spec(y as int) == s0.find_spec(y as int));
            }
            assert forall|z: int| 0 <= z < s0.size() implies #[trigger] s2.find_spec(z) == s0.find_spec(z) by {
                assert(s1.find_spec(z) == s0.find_spec(z));
            }
            assert forall|z: int| 0 <= z < s0.size() implies #[trigger] s2.rank_spec(z) == s0.rank_spec(z) by {
                assert(s1.rank_spec(z) == s0.rank_spec(z));
            }
            lemma_root_props(p2, rk2, x as int);
            lemma_root_props(p2, rk2, y as int);
        }
        if rx == ry {
            return false;
        }
        proof {
            lemma_roots_finite(p2);
            assert(roots(p2).contains(rx as int));
            assert(roots(p2).contains(ry as int));
            assert(set![rx as int, ry as int].len() == 2);
            vstd::set_lib::lemma_len_subset(set![rx as int, ry as int], roots(p2));
        }
        let (w, l) = if self.rank[rx] < self.rank[ry] {
            (ry, rx)
        } else {
            (rx, ry)
        };
        let equal = self.rank[rx] == self.rank[ry];
        self.parent.set(l, w);
        if equal {
            let rw = self.rank[w];
            let plen = self.parent.len();
            proof {
                assert(rk2[w as int] + roots(p2).len() <= p2.len());
                assert(p2.len() == plen);
            }
            self.rank.set(w, rw + 1);
        }
        proof {
            let p3 = self.parent@;
            let rk3 = self.rank@;
            assert(forest_shape(p3, rk3)) by {
                assert forall|z: int| 0 <= z < p3.len() && #[trigger] p3[z] != z implies rk3[z] < rk3[p3[z] as int] by {
                    if z != l as int {
                        assert(p3[z] == p2[z]);
                        if p2[z] as int == w as int {
                        }
                    }
                }
                assert forall|z: int| 0 <= z < rk3.len() implies (#[trigger] rk3[z]) <= rk3.len() by {
                    assert(rk2[z] + roots(p2).len() <= p2.len());
                }
            }
            assert(roots(p3) =~= roots(p2).remove(l as int));
            lemma_roots_finite(p2);
            assert forall|z: int| 0 <= z < rk3.len() implies #[trigger] rk3[z] + roots(p3).len() <= p3.len() by {
                assert(rk2[z] + roots(p2).len() <= p2.len());
            }
            assert forall|z: int| 0 <= z < p3.len() implies root_of(p3, rk3, z) == (if root_of(p2, rk2, z) == l as int {
                w as int
            } else {
                root_of(p2, rk2, z)
            }) by {
                lemma_link_roots(p2, rk2, p3, rk3, l as int, w as int, z);
            }
            assert(s2.rank_spec(rx as int) == s0.rank_spec(rx as int));
            assert(s2.rank_spec(ry as int) == s0.rank_spec(ry as int));
            assert(equal == (s0.rank_spec(rx as int) == s0.rank_spec(ry as int)));
            assert((w, l) == (if s0.rank_spec(rx as int) < s0.rank_spec(ry as int) { (ry, rx) } else { (rx, ry) }));
            assert forall|z: int| 0 <= z < s0.size() implies #[trigger] self.find_spec(z) == (if s0.find_spec(z) == l as int {
                w as int
            } else {
                s0.find_spec(z)
            }) by {
                assert(s2.find_spec(z) == s0.find_spec(z));
            }
            assert forall|z: int| 0 <= z < s0.size() implies #[trigger] self.rank_spec(z) == (if z == w as int && equal {
                s0.rank_spec(z) + 1
            } else {
                s0.rank_spec(z)
            }) by {
                assert(s2.rank_spec(z) == s0.rank_spec(z));
            }
        }
        true
    }
}

} // verus!
