//! The tree that a Steiner search returns: its nodes and undirected edges,
//! with membership, connectivity and canonical edge listing.

use vstd::prelude::*;

use crate::connect::{contains_str, linked, reach_within, reachable_from};
use crate::graph::{add_name, edge_list_view, names_after};
use crate::orient::add_names;
use crate::orient::{ordered_pair, sorted_pair};
use crate::text::{str_views, chars_of, lemma_lex_asymmetric, lemma_lex_irreflexive, lemma_lex_total, lemma_lex_transitive, lex_less, lex_lt, str_eq};

verus! {

/// Nodes and undirected weighted edges of a Steiner tree, in the order in
/// which they were given.
pub struct SteinerTree<W> {
    nodes: Vec<String>,
    edges: Vec<(String, String, W)>,
}

impl<W> SteinerTree<W> {
    /// The node names, in order.
    pub closed spec fn node_list(&self) -> Seq<Seq<char>> {
        str_views(self.nodes@)
    }

    /// The edges as `(a, b, weight)`, in order.
    pub closed spec fn edge_list(&self) -> Seq<(Seq<char>, Seq<char>, W)> {
        edge_list_view(self.edges@)
    }

    /// The tree with these nodes and edges.
    pub fn new(nodes: Vec<String>, edges: Vec<(String, String, W)>) -> (t: Self)
        ensures
            t.node_list() == str_views(nodes@),
            t.edge_list() == edge_list_view(edges@),
    {
        SteinerTree { nodes, edges }
    }

    /// Number of nodes.
    pub fn node_count(&self) -> (n: usize)
        ensures
            n == self.node_list().len(),
    {
        self.nodes.len()
    }

    /// Number of edges.
    pub fn edge_count(&self) -> (n: usize)
        ensures
            n == self.edge_list().len(),
    {
        self.edges.len()
    }

    /// All edges as `(a, b, weight)`, each once, in the order given.
    pub fn edges(&self) -> (r: &[(String, String, W)])
        ensures
            edge_list_view(r@) == self.edge_list(),
    {
        self.edges.as_slice()
    }

    /// All node names, in the order given.
    pub fn node_ids(&self) -> (r: &[String])
        ensures
            str_views(r@) == self.node_list(),
    {
        self.nodes.as_slice()
    }
}

impl<W> SteinerTree<W> {
    /// `x` is a node of the tree or an end of one of its edges.
    pub open spec fn in_tree(&self, x: Seq<char>) -> bool {
        self.node_list().contains(x) || exists|q: int|
            0 <= q < self.edge_list().len() && ((#[trigger] self.edge_list()[q]).0 == x
                || self.edge_list()[q].1 == x)
    }

    /// Whether `node_id` is a node of the tree or an end of one of its edges.
    pub fn contains_node(&self, node_id: &str) -> (r: bool)
        ensures
            r == self.in_tree(node_id@),
    {
        let mut i: usize = 0;
        while i < self.nodes.len()
            invariant
                i <= self.nodes@.len(),
                forall|k: int| 0 <= k < i ==> self.nodes@[k]@ != node_id@,
            decreases self.nodes@.len() - i,
        {
            if str_eq(self.nodes[i].as_str(), node_id) {
                assert(self.node_list()[i as int] == node_id@);
                return true;
            }
            i = i + 1;
        }
        let mut q: usize = 0;
        while q < self.edges.len()
            invariant
                q <= self.edges@.len(),
                forall|k: int| 0 <= k < q ==> self.edges@[k].0@ != node_id@ && self.edges@[k].1@ != node_id@,
            decreases self.edges@.len() - q,
        {
            if str_eq(self.edges[q].0.as_str(), node_id) || str_eq(self.edges[q].1.as_str(), node_id) {
                assert(self.edge_list()[q as int] == (self.edges@[q as int].0@, self.edges@[q as int].1@, self.edges@[q as int].2));
                return true;
            }
            q = q + 1;
        }
        proof {
            if self.node_list().contains(node_id@) {
                let k = self.node_list().index_of(node_id@);
                assert(self.nodes@[k]@ == node_id@);
            }
            assert forall|k: int| 0 <= k < self.edge_list().len() implies !((#[trigger] self.edge_list()[k]).0 == node_id@
                || self.edge_list()[k].1 == node_id@) by {
                assert(self.edge_list()[k] == (self.edges@[k].0@, self.edges@[k].1@, self.edges@[k].2));
            }
        }
        false
    }

    /// Whether `src` and `tgt` are both in the tree and joined by a path of
    /// its edges (a node is joined to itself).
    pub fn is_connected(&self, src: &str, tgt: &str) -> (r: bool)
        ensures
            r == (self.in_tree(src@) && self.in_tree(tgt@) && linked(self.edge_list(), src@, tgt@)),
    {
        if !self.contains_node(src) || !self.contains_node(tgt) {
            return false;
        }
        if str_eq(src, tgt) {
            assert(reach_within(self.edge_list(), src@, tgt@, 0));
            return true;
        }
        let reached = reachable_from(self.edges.as_slice(), src);
        contains_str(&reached, tgt)
    }
}

/// Strict lexicographic order on pairs of names.
pub open spec fn pair_lt(a: (Seq<char>, Seq<char>), b: (Seq<char>, Seq<char>)) -> bool {
    lex_lt(a.0, b.0) || (a.0 == b.0 && lex_lt(a.1, b.1))
}

/// Each edge's ends as a sorted pair.
pub open spec fn edge_pairs<W>(edges: Seq<(Seq<char>, Seq<char>, W)>) -> Seq<(Seq<char>, Seq<char>)> {
    edges.map_values(|e: (Seq<char>, Seq<char>, W)| ordered_pair(e.0, e.1))
}

/// The views of a list of string pairs.
pub open spec fn pair_views(v: Seq<(String, String)>) -> Seq<(Seq<char>, Seq<char>)> {
    v.map_values(|p: (String, String)| (p.0@, p.1@))
}

pub(crate) proof fn lemma_pair_order(a: (Seq<char>, Seq<char>), b: (Seq<char>, Seq<char>))
    ensures
        a == b || pair_lt(a, b) || pair_lt(b, a),
        !(pair_lt(a, b) && pair_lt(b, a)),
        !pair_lt(a, a),
{
    lemma_lex_total(a.0, b.0);
    lemma_lex_total(a.1, b.1);
    lemma_lex_asymmetric(a.0, b.0);
    lemma_lex_asymmetric(a.1, b.1);
    lemma_lex_irreflexive(a.0);
    lemma_lex_irreflexive(a.1);
}

pub(crate) proof fn lemma_pair_transitive(a: (Seq<char>, Seq<char>), b: (Seq<char>, Seq<char>), c: (Seq<char>, Seq<char>))
    requires
        pair_lt(a, b),
        pair_lt(b, c),
    ensures
        pair_lt(a, c),
{
    if lex_lt(a.0, b.0) && lex_lt(b.0, c.0) {
        lemma_lex_transitive(a.0, b.0, c.0);
    } else if a.0 == b.0 && b.0 == c.0 {
        lemma_lex_irreflexive(a.0);
        lemma_lex_transitive(a.1, b.1, c.1);
    }
}

fn pair_less(a: &(String, String), b: &(String, String)) -> (r: bool)
    ensures
        r == pair_lt((a.0@, a.1@), (b.0@, b.1@)),
{
    let a0 = chars_of(a.0.as_str());
    let b0 = chars_of(b.0.as_str());
    if lex_less(&a0, &b0) {
        return true;
    }
    if lex_less(&b0, &a0) {
        proof {
            lemma_lex_asymmetric(a.0@, b.0@);
            if a.0@ == b.0@ {
                lemma_lex_irreflexive(a.0@);
            }
        }
        return false;
    }
    proof {
        lemma_lex_total(a.0@, b.0@);
    }
    let a1 = chars_of(a.1.as_str());
    let b1 = chars_of(b.1.as_str());
    lex_less(&a1, &b1)
}

/// Connectivity does not depend on the order of its two ends.
pub proof fn law_is_connected_symmetric<W>(t: SteinerTree<W>, a: Seq<char>, b: Seq<char>)
    ensures
        (t.in_tree(a) && t.in_tree(b) && linked(t.edge_list(), a, b)) == (t.in_tree(b) && t.in_tree(a)
            && linked(t.edge_list(), b, a)),
{
    if linked(t.edge_list(), a, b) {
        crate::connect::lemma_linked_symmetric(t.edge_list(), a, b);
    }
    if linked(t.edge_list(), b, a) {
        crate::connect::lemma_linked_symmetric(t.edge_list(), b, a);
    }
}

proof fn lemma_push_contains<A>(s: Seq<A>, x: A, y: A)
    ensures
        s.push(x).contains(y) <==> (s.contains(y) || y == x),
{
    if s.contains(y) {
        let k = s.index_of(y);
        assert(s.push(x)[k] == y);
    }
    if y == x {
        assert(s.push(x)[s.len() as int] == y);
    }
    if s.push(x).contains(y) {
        let k = s.push(x).index_of(y);
        if k < s.len() {
            assert(s[k] == y);
        }
    }
}

impl<W> SteinerTree<W> {
    /// The edges as sorted pairs `(min, max)` of their ends, in increasing
    /// order, each pair once.
    pub fn sorted_edges(&self) -> (r: Vec<(String, String)>)
        ensures
            forall|p: int, q: int|
                0 <= p < q < r@.len() ==> pair_lt(
                    #[trigger] pair_views(r@)[p],
                    #[trigger] pair_views(r@)[q],
                ),
            forall|x: (Seq<char>, Seq<char>)|
                pair_views(r@).contains(x) <==> edge_pairs(self.edge_list()).contains(x),
    {
        let ghost ep = edge_pairs(self.edge_list());
        let mut out: Vec<(String, String)> = Vec::new();
        let mut i: usize = 0;
        while i < self.edges.len()
            invariant
                i <= self.edges@.len(),
                ep == edge_pairs(self.edge_list()),
                forall|p: int, q: int|
                    0 <= p < q < out@.len() ==> pair_lt(
                        #[trigger] pair_views(out@)[p],
                        #[trigger] pair_views(out@)[q],
                    ),
                forall|x: (Seq<char>, Seq<char>)|
                    pair_views(out@).contains(x) <==> ep.take(i as int).contains(x),
            decreases self.edges@.len() - i,
        {
            let e = &self.edges[i];
            let pr = sorted_pair(e.0.as_str(), e.1.as_str());
            let ghost x = (pr.0@, pr.1@);
            let ghost ov = pair_views(out@);
            proof {
                assert(self.edge_list()[i as int] == (e.0@, e.1@, e.2));
                assert(ep[i as int] == x);
            }
            let mut p: usize = 0;
            while p < out.len()
                invariant
                    p <= out@.len(),
                    ov == pair_views(out@),
                    x == (pr.0@, pr.1@),
                    forall|k: int| 0 <= k < p ==> pair_lt(#[trigger] ov[k], x),
                ensures
                    p <= out@.len(),
                    forall|k: int| 0 <= k < p ==> pair_lt(#[trigger] ov[k], x),
                    p < out@.len() ==> !pair_lt(ov[p as int], x),
                decreases out@.len() - p,
            {
                if !pair_less(&out[p], &pr) {
                    break;
                }
                p = p + 1;
            }
            let dup = p < out.len() && !pair_less(&pr, &out[p]);
            proof {
                assert(ep.take(i + 1) =~= ep.take(i as int).push(x));
                if p < out@.len() {
                    lemma_pair_order(ov[p as int], x);
                }
            }
            if !dup {
                out.insert(p, pr);
                proof {
                    let nv = pair_views(out@);
                    assert(nv =~= ov.insert(p as int, x));
                    ov.insert_ensures(p as int, x);
                    assert forall|a: int, b: int| 0 <= a < b < nv.len() implies pair_lt(#[trigger] nv[a], #[trigger] nv[b]) by {
                        if b < p {
                        } else if a < p && b == p {
                        } else if a < p {
                            assert(nv[b] == ov[b - 1]);
                            if b - 1 > p {
                                assert(pair_lt(ov[p as int], ov[b - 1]));
                                lemma_pair_transitive(x, ov[p as int], ov[b - 1]);
                            }
                            lemma_pair_transitive(ov[a], x, ov[b - 1]);
                        } else if a == p {
                            assert(nv[b] == ov[b - 1]);
                            if b - 1 > p {
                                assert(pair_lt(ov[p as int], ov[b - 1]));
                                lemma_pair_transitive(x, ov[p as int], ov[b - 1]);
                            }
                        } else {
                            assert(nv[a] == ov[a - 1]);
                            assert(nv[b] == ov[b - 1]);
                        }
                    }
                    assert forall|y: (Seq<char>, Seq<char>)| nv.contains(y) <==> ep.take(i + 1).contains(y) by {
                        lemma_push_contains(ep.take(i as int), x, y);
                        if nv.contains(y) {
                            let k = nv.index_of(y);
                            if k < p {
                                assert(ov[k] == y);
                            } else if k > p {
                                assert(ov[k - 1] == y);
                            }
                        }
                        if ov.contains(y) {
                            let k = ov.index_of(y);
                            if k < p {
                                assert(nv[k] == y);
                            } else {
                                assert(nv[k + 1] == y);
                            }
                        }
                        if y == x {
                            assert(nv[p as int] == y);
                        }
                    }
                }
            } else {
                proof {
                    assert(ov[p as int] == x);
                    assert forall|y: (Seq<char>, Seq<char>)| ov.contains(y) <==> ep.take(i + 1).contains(y) by {
                        lemma_push_contains(ep.take(i as int), x, y);
                        if y == x {
                            assert(ov[p as int] == y);
                        }
                    }
                }
            }
            i = i + 1;
        }
        proof {
            assert(ep.take(self.edges@.len() as int) =~= ep);
        }
        out
    }
}

/// The entries `(neighbour, weight)` of node `x`: for each edge in order,
/// one per end at `x` (a loop at `x` gives two).
pub open spec fn tree_entries<W>(edges: Seq<(Seq<char>, Seq<char>, W)>, x: Seq<char>) -> Seq<(Seq<char>, W)>
    decreases edges.len(),
{
    if edges.len() == 0 {
        Seq::empty()
    } else {
        let e = edges.last();
        tree_entries(edges.drop_last(), x) + (if e.0 == x {
            seq![(e.1, e.2)]
        } else {
            Seq::empty()
        }) + (if e.1 == x {
            seq![(e.0, e.2)]
        } else {
            Seq::empty()
        })
    }
}

/// The views of an adjacency list's entries.
pub open spec fn entry_views<W>(l: Seq<(String, W)>) -> Seq<(Seq<char>, W)> {
    l.map_values(|e: (String, W)| (e.0@, e.1))
}

/// The keys of an adjacency list.
pub open spec fn adj_keys<W>(adj: Seq<(String, Vec<(String, W)>)>) -> Seq<Seq<char>> {
    adj.map_values(|p: (String, Vec<(String, W)>)| p.0@)
}

proof fn lemma_tree_entries_absent<W>(start: Seq<Seq<char>>, edges: Seq<(Seq<char>, Seq<char>, W)>, x: Seq<char>)
    requires
        !names_after(start, edges).contains(x),
    ensures
        tree_entries(edges, x) == Seq::<(Seq<char>, W)>::empty(),
    decreases edges.len(),
{
    if edges.len() > 0 {
        let d = edges.drop_last();
        let m = names_after(start, d);
        let m1 = add_name(m, edges.last().0);
        let m2 = add_name(m1, edges.last().1);
        assert(!m.contains(x)) by {
            if m.contains(x) {
                let k = m.index_of(x);
                assert(m1[k] == x);
                assert(m2[k] == x);
            }
        }
        assert(edges.last().0 != x) by {
            if edges.last().0 == x {
                if m.contains(x) {
                } else {
                    assert(m1[m.len() as int] == x);
                    assert(m2[m.len() as int] == x);
                }
            }
        }
        assert(edges.last().1 != x) by {
            if edges.last().1 == x {
                if !m1.contains(x) {
                    assert(m2[m1.len() as int] == x);
                }
            }
        }
        lemma_tree_entries_absent(start, d, x);
    }
}

/// The slot of the key `x`, appended with an empty list when missing.
fn adj_slot<W>(adj: &mut Vec<(String, Vec<(String, W)>)>, x: &String) -> (a: usize)
    ensures
        adj_keys(final(adj)@) == add_name(adj_keys(old(adj)@), x@),
        a < final(adj)@.len(),
        final(adj)@[a as int].0@ == x@,
        forall|b: int| 0 <= b < old(adj)@.len() ==> #[trigger] final(adj)@[b] == old(adj)@[b],
        final(adj)@.len() == old(adj)@.len() || (final(adj)@.len() == old(adj)@.len() + 1 && a
            == old(adj)@.len() && final(adj)@[a as int].1@.len() == 0),
        adj_keys(old(adj)@).no_duplicates() ==> adj_keys(final(adj)@).no_duplicates(),
{
    let mut a: usize = 0;
    while a < adj.len()
        invariant
            a <= adj@.len(),
            adj@ == old(adj)@,
            forall|b: int| 0 <= b < a ==> (#[trigger] adj@[b]).0@ != x@,
        decreases adj@.len() - a,
    {
        if str_eq(adj[a].0.as_str(), x.as_str()) {
            proof {
                assert(adj_keys(adj@)[a as int] == x@);
            }
            return a;
        }
        a = a + 1;
    }
    proof {
        assert(!adj_keys(adj@).contains(x@)) by {
            if adj_keys(adj@).contains(x@) {
                let k = adj_keys(adj@).index_of(x@);
                assert(adj@[k].0@ == x@);
            }
        }
    }
    let ghost a0 = adj@;
    adj.push((x.clone(), Vec::new()));
    proof {
        assert(adj_keys(adj@) =~= adj_keys(a0).push(x@));
        if adj_keys(a0).no_duplicates() {
            assert forall|i: int, j: int| 0 <= i < j < adj@.len() implies adj_keys(adj@)[i] != adj_keys(adj@)[j] by {
                if j == a0.len() {
                    assert(adj_keys(a0)[i] == adj_keys(adj@)[i]);
                }
            }
        }
    }
    a
}

/// Appends `e` to the list in slot `a`.
fn adj_push<W>(adj: &mut Vec<(String, Vec<(String, W)>)>, a: usize, e: (String, W))
    requires
        a < old(adj)@.len(),
    ensures
        final(adj)@.len() == old(adj)@.len(),
        final(adj)@[a as int].0 == old(adj)@[a as int].0,
        final(adj)@[a as int].1@ == old(adj)@[a as int].1@.push(e),
        forall|b: int| 0 <= b < old(adj)@.len() && b != a ==> #[trigger] final(adj)@[b] == old(adj)@[b],
{
    let (k, mut l) = adj.remove(a);
    l.push(e);
    adj.insert(a, (k, l));
}

impl<W: Copy> SteinerTree<W> {
    /// The undirected adjacency lists: every node, then every edge end not
    /// yet listed, in order, each with its `(neighbour, weight)` entries in
    /// the order of the edges.
    pub fn adjacency(&self) -> (adj: Vec<(String, Vec<(String, W)>)>)
        ensures
            adj_keys(adj@) == names_after(add_names(Seq::<Seq<char>>::empty(), self.node_list()), self.edge_list()),
            forall|k: int| 0 <= k < adj@.len() ==> entry_views((#[trigger] adj@[k]).1@) == tree_entries(
                self.edge_list(),
                adj@[k].0@,
            ),
    {
        let mut adj: Vec<(String, Vec<(String, W)>)> = Vec::new();
        let ghost nv = self.node_list();
        let ghost ev = self.edge_list();
        let mut i: usize = 0;
        proof {
            assert(adj_keys(adj@) =~= Seq::<Seq<char>>::empty());
            assert(nv.take(0) =~= Seq::<Seq<char>>::empty());
        }
        while i < self.nodes.len()
            invariant
                i <= self.nodes@.len(),
                nv == self.node_list(),
                nv == str_views(self.nodes@),
                adj_keys(adj@) == add_names(Seq::<Seq<char>>::empty(), nv.take(i as int)),
                adj_keys(adj@).no_duplicates(),
                forall|k: int| 0 <= k < adj@.len() ==> (#[trigger] adj@[k]).1@.len() == 0,
            decreases self.nodes@.len() - i,
        {
            let ghost a0 = adj@;
            adj_slot(&mut adj, &self.nodes[i]);
            proof {
                assert(nv.take(i + 1).drop_last() =~= nv.take(i as int));
                assert(nv.take(i + 1).last() == self.nodes@[i as int]@);
                assert forall|k: int| 0 <= k < adj@.len() implies (#[trigger] adj@[k]).1@.len() == 0 by {
                    if k < a0.len() {
                        assert(adj@[k] == a0[k]);
                    }
                }
            }
            i = i + 1;
        }
        proof {
            assert(nv.take(self.nodes@.len() as int) =~= nv);
            assert(ev.take(0) =~= Seq::<(Seq<char>, Seq<char>, W)>::empty());
        }
        let ghost start = adj_keys(adj@);
        let mut q: usize = 0;
        while q < self.edges.len()
            invariant
                q <= self.edges@.len(),
                ev == self.edge_list(),
                ev == edge_list_view(self.edges@),
                start == add_names(Seq::<Seq<char>>::empty(), nv),
                adj_keys(adj@) == names_after(start, ev.take(q as int)),
                adj_keys(adj@).no_duplicates(),
                forall|k: int| 0 <= k < adj@.len() ==> entry_views((#[trigger] adj@[k]).1@) == tree_entries(
                    ev.take(q as int),
                    adj@[k].0@,
                ),
            decreases self.edges@.len() - q,
        {
            let e = &self.edges[q];
            let ghost tq = ev.take(q as int);
            let ghost t1 = ev.take(q + 1);
            proof {
                assert(t1.drop_last() =~= tq);
                assert(t1.last() == (e.0@, e.1@, e.2));
            }
            let ghost s0 = adj@;
            let a = adj_slot(&mut adj, &e.0);
            let ghost s1 = adj@;
            adj_push(&mut adj, a, (e.1.clone(), e.2));
            let ghost s2 = adj@;
            let b = adj_slot(&mut adj, &e.1);
            let ghost s3 = adj@;
            adj_push(&mut adj, b, (e.0.clone(), e.2));
            proof {
                assert(adj_keys(s2) =~= adj_keys(s1));
                assert(adj_keys(adj@) =~= adj_keys(s3));
                assert forall|k: int| 0 <= k < adj@.len() implies entry_views((#[trigger] adj@[k]).1@) == tree_entries(
                    t1,
                    adj@[k].0@,
                ) by {
                    let x = adj@[k].0@;
                    let base: Seq<(Seq<char>, W)> = if k < s0.len() {
                        entry_views(s0[k].1@)
                    } else {
                        Seq::empty()
                    };
                    if k < s0.len() {
                        assert(s1[k] == s0[k]);
                        assert(adj_keys(s0)[k] == x) by {
                            if k != a as int {
                                assert(s2[k] == s1[k]);
                            }
                            if k < s2.len() {
                                assert(s3[k] == s2[k]);
                            }
                            if k != b as int {
                                assert(adj@[k] == s3[k]);
                            }
                        }
                        assert(base == tree_entries(tq, x));
                    } else {
                        assert(!names_after(start, tq).contains(x)) by {
                            if names_after(start, tq).contains(x) {
                                let j = adj_keys(s0).index_of(x);
                                assert(s1[j] == s0[j]);
                                if j != a as int {
                                    assert(s2[j] == s1[j]);
                                }
                                assert(s3[j] == s2[j]);
                                if j != b as int {
                                    assert(adj@[j] == s3[j]);
                                }
                                assert(adj_keys(adj@)[j] == x);
                                assert(adj_keys(adj@)[k] == x);
                            }
                        }
                        lemma_tree_entries_absent(start, tq, x);
                    }
                    // the list in slot k after each step
                    let l1: Seq<(Seq<char>, W)> = if k < s1.len() { entry_views(s1[k].1@) } else { Seq::empty() };
                    assert(l1 == base) by {
                        if k < s0.len() {
                        } else if k < s1.len() {
                            assert(s1[k].1@.len() == 0);
                            assert(entry_views(s1[k].1@) =~= Seq::<(Seq<char>, W)>::empty());
                        }
                    }
                    let l2: Seq<(Seq<char>, W)> = if k < s2.len() { entry_views(s2[k].1@) } else { Seq::empty() };
                    assert(l2 == l1 + (if k == a as int { seq![(e.1@, e.2)] } else { Seq::empty() })) by {
                        if k == a as int {
                            assert(entry_views(s2[k].1@) =~= entry_views(s1[k].1@).push((e.1@, e.2)));
                            assert(l1 + seq![(e.1@, e.2)] =~= entry_views(s1[k].1@).push((e.1@, e.2)));
                        } else if k < s2.len() {
                            assert(s2[k] == s1[k]);
                            assert(l1 + Seq::<(Seq<char>, W)>::empty() =~= l1);
                        } else {
                            assert(l1 + Seq::<(Seq<char>, W)>::empty() =~= l1);
                        }
                    }
                    let l3: Seq<(Seq<char>, W)> = entry_views(s3[k].1@);
                    assert(l3 == l2) by {
                        if k < s2.len() {
                            assert(s3[k] == s2[k]);
                        } else {
                            assert(s3[k].1@.len() == 0);
                            assert(l3 =~= Seq::<(Seq<char>, W)>::empty());
                        }
                    }
                    assert(entry_views(adj@[k].1@) == l3 + (if k == b as int { seq![(e.0@, e.2)] } else { Seq::empty() })) by {
                        if k == b as int {
                            assert(entry_views(adj@[k].1@) =~= l3.push((e.0@, e.2)));
                            assert(l3 + seq![(e.0@, e.2)] =~= l3.push((e.0@, e.2)));
                        } else {
                            assert(adj@[k] == s3[k]);
                            assert(l3 + Seq::<(Seq<char>, W)>::empty() =~= l3);
                        }
                    }
                    assert((k == a as int) == (x == e.0@)) by {
                        assert(adj@[a as int].0@ == e.0@) by {
                            assert(s2[a as int].0 == s1[a as int].0);
                            assert(s3[a as int] == s2[a as int]);
                            if a != b {
                                assert(adj@[a as int] == s3[a as int]);
                            }
                        }
                        assert(adj_keys(adj@)[a as int] == e.0@);
                        assert(adj_keys(adj@)[k] == x);
                    }
                    assert((k == b as int) == (x == e.1@)) by {
                        assert(adj@[b as int].0 == s3[b as int].0);
                        assert(adj_keys(adj@)[b as int] == e.1@);
                        assert(adj_keys(adj@)[k] == x);
                    }
                    assert(tree_entries(t1, x) == tree_entries(tq, x) + (if e.0@ == x {
                        seq![(e.1@, e.2)]
                    } else {
                        Seq::empty()
                    }) + (if e.1@ == x {
                        seq![(e.0@, e.2)]
                    } else {
                        Seq::empty()
                    }));
                }
            }
            q = q + 1;
        }
        proof {
            assert(ev.take(self.edges@.len() as int) =~= ev);
        }
        adj
    }
}

} // verus!
