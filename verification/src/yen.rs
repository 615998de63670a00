//! Pieces of the k-shortest-simple-paths search that work on paths as
//! lists of node names, and the order-keeping encoding of costs by which
//! its candidate buffer is sorted.

use vstd::prelude::*;

use crate::error::TerrainError;
use crate::text::{str_eq, str_views};

verus! {

/// The views of a list of paths.
pub open spec fn path_views(paths: Seq<Vec<String>>) -> Seq<Seq<Seq<char>>> {
    paths.map_values(|p: Vec<String>| str_views(p@))
}

/// For each accepted path, in order, that starts with `root` and goes on
/// past it, the edge by which it leaves the root.
pub open spec fn diverging_edges(accepted: Seq<Seq<Seq<char>>>, root: Seq<Seq<char>>) -> Seq<
    (Seq<char>, Seq<char>),
>
    decreases accepted.len(),
{
    if accepted.len() == 0 {
        Seq::empty()
    } else {
        let rest = diverging_edges(accepted.drop_last(), root);
        let a = accepted.last();
        let i = root.len() as int;
        if a.len() > i && a.take(i) == root {
            rest.push((a[i - 1], a[i]))
        } else {
            rest
        }
    }
}

/// Whether `path` starts with `root`.
fn starts_with(path: &Vec<String>, root: &[String]) -> (r: bool)
    ensures
        r == (root@.len() <= path@.len() && str_views(path@).take(root@.len() as int) == str_views(root@)),
{
    if root.len() > path.len() {
        return false;
    }
    let mut j: usize = 0;
    while j < root.len()
        invariant
            root@.len() <= path@.len(),
            j <= root@.len(),
            forall|k: int| 0 <= k < j ==> path@[k]@ == root@[k]@,
        decreases root@.len() - j,
    {
        if !str_eq(path[j].as_str(), root[j].as_str()) {
            proof {
                assert(str_views(path@).take(root@.len() as int)[j as int] != str_views(root@)[j as int]);
            }
            return false;
        }
        j = j + 1;
    }
    proof {
        assert(str_views(path@).take(root@.len() as int) =~= str_views(root@));
    }
    true
}

/// The edges that a spur search from the end of `root` must not use: for
/// every accepted path that starts with `root` and goes on past it, the
/// edge by which it leaves the root, in the order of the paths.
pub fn spur_ignored_edges(accepted: &Vec<Vec<String>>, root: &[String]) -> (r: Vec<(String, String)>)
    requires
        root@.len() >= 1,
    ensures
        r@.map_values(|e: (String, String)| (e.0@, e.1@)) == diverging_edges(path_views(accepted@), str_views(root@)),
{
    let ghost av = path_views(accepted@);
    let ghost rv = str_views(root@);
    let i = root.len();
    let mut r: Vec<(String, String)> = Vec::new();
    let mut q: usize = 0;
    while q < accepted.len()
        invariant
            q <= accepted@.len(),
            i == root@.len(),
            i >= 1,
            av == path_views(accepted@),
            rv == str_views(root@),
            r@.map_values(|e: (String, String)| (e.0@, e.1@)) == diverging_edges(av.take(q as int), rv),
        decreases accepted@.len() - q,
    {
        let a = &accepted[q];
        proof {
            assert(av.take(q + 1).drop_last() =~= av.take(q as int));
            assert(av.take(q + 1).last() == str_views(a@));
        }
        let ghost r0 = r@;
        if a.len() > i && starts_with(a, root) {
            r.push((a[i - 1].clone(), a[i].clone()));
            proof {
                assert(r@.map_values(|e: (String, String)| (e.0@, e.1@)) =~= r0.map_values(
                    |e: (String, String)| (e.0@, e.1@),
                ).push((str_views(a@)[i - 1], str_views(a@)[i as int])));
            }
        }
        q = q + 1;
    }
    proof {
        assert(av.take(accepted@.len() as int) =~= av);
    }
    r
}

/// The key under which a cost's bit pattern sorts as an unsigned integer in
/// the order of the costs: non-negative costs get the top bit set, negative
/// ones have all bits flipped.
pub open spec fn order_key(bits: u64) -> u64 {
    if bits >> 63u64 == 0 {
        bits | 0x8000_0000_0000_0000u64
    } else {
        !bits
    }
}

/// The bit pattern that a key was made from.
pub open spec fn key_bits(key: u64) -> u64 {
    if key >> 63u64 != 0 {
        key & 0x7fff_ffff_ffff_ffffu64
    } else {
        !key
    }
}

/// The sort key of a cost's bit pattern.
pub fn total_order_bits(bits: u64) -> (key: u64)
    ensures
        key == order_key(bits),
{
    if bits >> 63u64 == 0 {
        bits | 0x8000_0000_0000_0000u64
    } else {
        !bits
    }
}

/// The cost bit pattern of a sort key.
pub fn from_total_order_bits(key: u64) -> (bits: u64)
    ensures
        bits == key_bits(key),
{
    if key >> 63u64 != 0 {
        key & 0x7fff_ffff_ffff_ffffu64
    } else {
        !key
    }
}

/// Decoding a key gives back the bit pattern it was made from, and every
/// key is made from the pattern it decodes to.
pub proof fn law_order_key_round_trip(bits: u64, key: u64)
    ensures
        key_bits(order_key(bits)) == bits,
        order_key(key_bits(key)) == key,
{
    assert(bits >> 63u64 == 0 ==> (bits | 0x8000_0000_0000_0000u64) >> 63u64 != 0 && ((bits
        | 0x8000_0000_0000_0000u64) & 0x7fff_ffff_ffff_ffffu64) == bits) by (bit_vector);
    assert(bits >> 63u64 != 0 ==> (!bits) >> 63u64 == 0 && !(!bits) == bits) by (bit_vector);
    assert(key >> 63u64 != 0 ==> (key & 0x7fff_ffff_ffff_ffffu64) >> 63u64 == 0 && ((key
        & 0x7fff_ffff_ffff_ffffu64) | 0x8000_0000_0000_0000u64) == key) by (bit_vector);
    assert(key >> 63u64 == 0 ==> (!key) >> 63u64 != 0 && !(!key) == key) by (bit_vector);
}

/// Keys sort as the costs do: among non-negative patterns in the order of
/// the patterns, among negative ones (sign bit set) in the reverse order of
/// the patterns, and every negative before every non-negative.
pub proof fn law_order_key_monotone(a: u64, b: u64)
    ensures
        a >> 63u64 == 0 && b >> 63u64 == 0 && a <= b ==> order_key(a) <= order_key(b),
        a >> 63u64 != 0 && b >> 63u64 != 0 && a <= b ==> order_key(b) <= order_key(a),
        a >> 63u64 != 0 && b >> 63u64 == 0 ==> order_key(a) < order_key(b),
{
    assert(a >> 63u64 == 0 && b >> 63u64 == 0 && a <= b ==> (a | 0x8000_0000_0000_0000u64) <= (b
        | 0x8000_0000_0000_0000u64)) by (bit_vector);
    assert(a >> 63u64 != 0 && b >> 63u64 != 0 && a <= b ==> !b <= !a) by (bit_vector);
    assert(a >> 63u64 != 0 && b >> 63u64 == 0 ==> !a < (b | 0x8000_0000_0000_0000u64)) by (bit_vector);
}

// ── The search loop ─────────────────────────────────────────────────────────

/// A buffered candidate as the search sees it: its cost key, its arrival
/// number and its path.
pub type Candidate = (u64, nat, Seq<Seq<char>>);

/// Some entry of `buf` holds the path `p`.
pub open spec fn in_buffer(buf: Seq<Candidate>, p: Seq<Seq<char>>) -> bool {
    exists|i: int| 0 <= i < buf.len() && (#[trigger] buf[i]).2 == p
}

/// The buffer after offering it `cands` in order: a path already buffered
/// is dropped, any other is buffered under the next arrival number. Also
/// gives the next arrival number.
pub open spec fn add_candidates(buf: Seq<Candidate>, counter: nat, cands: Seq<(u64, Seq<Seq<char>>)>) -> (Seq<Candidate>, nat)
    decreases cands.len(),
{
    if cands.len() == 0 {
        (buf, counter)
    } else {
        let (b, c) = add_candidates(buf, counter, cands.drop_last());
        let x = cands.last();
        if in_buffer(b, x.1) {
            (b, c)
        } else {
            (b.push((x.0, c, x.1)), c + 1)
        }
    }
}

/// The candidates that the spur searches of one round give: for each
/// search `j` that found a spur path, its key and the path that runs along
/// the first `j` nodes of `base` and then along the spur path.
pub open spec fn found_candidates(base: Seq<Seq<char>>, found: Seq<Option<(u64, Seq<Seq<char>>)>>) -> Seq<(u64, Seq<Seq<char>>)>
    decreases found.len(),
{
    if found.len() == 0 {
        Seq::empty()
    } else {
        let rest = found_candidates(base, found.drop_last());
        match found.last() {
            Some(f) => rest.push((f.0, base.take(found.len() - 1) + f.1)),
            None => rest,
        }
    }
}

/// `(a, x)` comes before `(b, y)`: smaller key, or equal keys and earlier
/// arrival.
pub open spec fn cand_before(a: Candidate, b: Candidate) -> bool {
    a.0 < b.0 || (a.0 == b.0 && a.1 < b.1)
}

/// Entry `m` of `buf` comes before every other entry.
pub open spec fn is_least(buf: Seq<Candidate>, m: int) -> bool {
    &&& 0 <= m < buf.len()
    &&& forall|j: int| 0 <= j < buf.len() && j != m ==> cand_before(buf[m], #[trigger] buf[j])
}

/// The views of spur search results.
pub open spec fn found_views(found: Seq<Option<(u64, Vec<String>)>>) -> Seq<Option<(u64, Seq<Seq<char>>)>> {
    found.map_values(
        |f: Option<(u64, Vec<String>)>|
            match f {
                Some(x) => Some((x.0, str_views(x.1@))),
                None => None,
            },
    )
}

/// The state of a search for the `k` cheapest simple paths from `source`
/// to `target` (Yen's method): the paths accepted so far, in order, and the
/// buffer of candidates, each under its cost key and arrival number.
pub struct YenSearch {
    source: String,
    target: String,
    k: usize,
    accepted: Vec<Vec<String>>,
    keys: Ghost<Seq<u64>>,
    buffer: Vec<(u64, usize, Vec<String>)>,
    counter: usize,
    done: bool,
}

impl YenSearch {
    pub closed spec fn source_spec(&self) -> Seq<char> {
        self.source@
    }

    pub closed spec fn target_spec(&self) -> Seq<char> {
        self.target@
    }

    pub closed spec fn k_spec(&self) -> nat {
        self.k as nat
    }

    /// The accepted paths, in the order they were accepted.
    pub closed spec fn accepted_paths(&self) -> Seq<Seq<Seq<char>>> {
        path_views(self.accepted@)
    }

    /// The cost keys of the accepted paths.
    pub closed spec fn accepted_keys(&self) -> Seq<u64> {
        self.keys@
    }

    /// The buffered candidates.
    pub closed spec fn buffered(&self) -> Seq<Candidate> {
        self.buffer@.map_values(|e: (u64, usize, Vec<String>)| (e.0, e.1 as nat, str_views(e.2@)))
    }

    /// The next arrival number.
    pub closed spec fn counter_spec(&self) -> nat {
        self.counter as nat
    }

    /// The search has ended.
    pub closed spec fn done_spec(&self) -> bool {
        self.done
    }

    /// Well-formedness: arrival numbers in the buffer are distinct and below
    /// the counter, no path is buffered twice, one key per accepted path,
    /// and fewer than `k` paths are accepted while the search goes on.
    pub closed spec fn wf(&self) -> bool {
        let b = self.buffered();
        &&& forall|i: int| 0 <= i < b.len() ==> (#[trigger] b[i]).1 < self.counter
        &&& forall|i: int, j: int| 0 <= i < j < b.len() ==> (#[trigger] b[i]).1 != (#[trigger] b[j]).1
        &&& forall|i: int, j: int| 0 <= i < j < b.len() ==> (#[trigger] b[i]).2 != (#[trigger] b[j]).2
        &&& self.keys@.len() == self.accepted@.len()
        &&& !self.done ==> self.accepted@.len() < self.k
        &&& self.accepted@.len() <= self.k
    }

    /// No buffered key is below the key of the last accepted path.
    pub open spec fn keys_settled(&self) -> bool {
        self.accepted_keys().len() > 0 ==> forall|i: int|
            0 <= i < self.buffered().len() ==> self.accepted_keys().last() <= (#[trigger] self.buffered()[i]).0
    }

    /// The path that the next round branches off: the last accepted one,
    /// or none before the first.
    pub open spec fn base(&self) -> Seq<Seq<char>> {
        if self.accepted_paths().len() == 0 {
            Seq::empty()
        } else {
            self.accepted_paths().last()
        }
    }

    /// The spur searches of the next round: `(root, nodes to avoid, edges
    /// to avoid)`. Before the first path, one search from the source with
    /// nothing to avoid; after that, for each node `j` of the last accepted
    /// path but its end, the root is the path up to and including node `j`,
    /// the nodes before it are avoided, and so are the edges by which the
    /// accepted paths that share the root leave it.
    pub open spec fn requests(&self) -> Seq<(Seq<Seq<char>>, Seq<Seq<char>>, Seq<(Seq<char>, Seq<char>)>)> {
        if self.accepted_paths().len() == 0 {
            seq![(seq![self.source_spec()], Seq::empty(), Seq::empty())]
        } else {
            let p = self.base();
            Seq::new(
                if p.len() == 0 { 0 } else { (p.len() - 1) as nat },
                |j: int| (p.take(j + 1), p.take(j), diverging_edges(self.accepted_paths(), p.take(j + 1))),
            )
        }
    }

    /// A new search for the `k` cheapest paths from `source` to `target`;
    /// with `k` zero it has already ended.
    pub fn new(source: &str, target: &str, k: usize) -> (s: Self)
        ensures
            s.wf(),
            s.source_spec() == source@,
            s.target_spec() == target@,
            s.k_spec() == k,
            s.accepted_paths().len() == 0,
            s.buffered().len() == 0,
            s.counter_spec() == 0,
            s.done_spec() == (k == 0),
    {
        let s = YenSearch {
            source: source.to_owned(),
            target: target.to_owned(),
            k,
            accepted: Vec::new(),
            keys: Ghost(Seq::empty()),
            buffer: Vec::new(),
            counter: 0,
            done: k == 0,
        };
        proof {
            assert(s.buffered() =~= Seq::<Candidate>::empty());
            assert(s.accepted_paths() =~= Seq::<Seq<Seq<char>>>::empty());
        }
        s
    }

    /// The arrival number the next buffered candidate gets.
    pub fn counter(&self) -> (r: usize)
        ensures
            r == self.counter_spec(),
    {
        self.counter
    }

    /// Whether the search has ended.
    pub fn is_done(&self) -> (r: bool)
        ensures
            r == self.done_spec(),
    {
        self.done
    }
}

fn copy_path(p: &Vec<String>) -> (r: Vec<String>)
    ensures
        str_views(r@) == str_views(p@),
{
    let mut r: Vec<String> = Vec::new();
    let mut i: usize = 0;
    while i < p.len()
        invariant
            i <= p@.len(),
            str_views(r@) == str_views(p@).take(i as int),
        decreases p@.len() - i,
    {
        let ghost r0 = r@;
        r.push(p[i].clone());
        proof {
            assert(str_views(r@) =~= str_views(r0).push(p@[i as int]@));
            assert(str_views(p@).take(i + 1) =~= str_views(p@).take(i as int).push(p@[i as int]@));
        }
        i = i + 1;
    }
    proof {
        assert(str_views(p@).take(p@.len() as int) =~= str_views(p@));
    }
    r
}

fn same_path(a: &Vec<String>, b: &Vec<String>) -> (r: bool)
    ensures
        r == (str_views(a@) == str_views(b@)),
{
    if a.len() != b.len() {
        proof {
            assert(str_views(a@).len() != str_views(b@).len());
        }
        return false;
    }
    let mut i: usize = 0;
    while i < a.len()
        invariant
            a@.len() == b@.len(),
            i <= a@.len(),
            forall|k: int| 0 <= k < i ==> a@[k]@ == b@[k]@,
        decreases a@.len() - i,
    {
        if !str_eq(a[i].as_str(), b[i].as_str()) {
            proof {
                assert(str_views(a@)[i as int] != str_views(b@)[i as int]);
            }
            return false;
        }
        i = i + 1;
    }
    proof {
        assert(str_views(a@) =~= str_views(b@));
    }
    true
}

/// The spur searches of the search's next round (see `requests`), with
/// names as strings.
pub fn yen_spur_requests(s: &YenSearch) -> (r: Vec<(Vec<String>, Vec<String>, Vec<(String, String)>)>)
    ensures
        r@.len() == s.requests().len(),
        forall|j: int|
            0 <= j < r@.len() ==> (str_views((#[trigger] r@[j]).0@), str_views(r@[j].1@), r@[j].2@.map_values(
                |e: (String, String)| (e.0@, e.1@),
            )) == s.requests()[j],
{
    let mut r: Vec<(Vec<String>, Vec<String>, Vec<(String, String)>)> = Vec::new();
    if s.accepted.len() == 0 {
        let mut root: Vec<String> = Vec::new();
        root.push(s.source.clone());
        r.push((root, Vec::new(), Vec::new()));
        proof {
            assert(str_views(r@[0].0@) =~= seq![s.source_spec()]);
            assert(str_views(r@[0].1@) =~= Seq::<Seq<char>>::empty());
            assert(r@[0].2@.map_values(|e: (String, String)| (e.0@, e.1@)) =~= Seq::<(Seq<char>, Seq<char>)>::empty());
        }
        return r;
    }
    let p = &s.accepted[s.accepted.len() - 1];
    proof {
        assert(s.base() == str_views(p@));
    }
    if p.len() == 0 {
        return r;
    }
    let mut before: Vec<String> = Vec::new();
    let mut j: usize = 0;
    while j < p.len() - 1
        invariant
            p@.len() >= 1,
            j + 1 <= p@.len(),
            s.accepted_paths().len() > 0,
            s.base() == str_views(p@),
            str_views(before@) == str_views(p@).take(j as int),
            r@.len() == j,
            forall|i: int|
                0 <= i < j ==> (str_views((#[trigger] r@[i]).0@), str_views(r@[i].1@), r@[i].2@.map_values(
                    |e: (String, String)| (e.0@, e.1@),
                )) == s.requests()[i],
        decreases p@.len() - j,
    {
        let ignore_nodes = copy_path(&before);
        let ghost b0 = before@;
        before.push(p[j].clone());
        proof {
            assert(str_views(before@) =~= str_views(b0).push(p@[j as int]@));
            assert(str_views(p@).take(j + 1) =~= str_views(p@).take(j as int).push(p@[j as int]@));
        }
        let root = copy_path(&before);
        let edges = spur_ignored_edges(&s.accepted, root.as_slice());
        let ghost r0 = r@;
        r.push((root, ignore_nodes, edges));
        proof {
            assert forall|i: int|
                0 <= i < j + 1 implies (str_views((#[trigger] r@[i]).0@), str_views(r@[i].1@), r@[i].2@.map_values(
                    |e: (String, String)| (e.0@, e.1@),
                )) == s.requests()[i] by {
                if i < j {
                    assert(r@[i] == r0[i]);
                }
            }
        }
        j = j + 1;
    }
    r
}

proof fn lemma_add_candidates_keys(buf: Seq<Candidate>, counter: nat, cands: Seq<(u64, Seq<Seq<char>>)>, lo: u64)
    requires
        forall|i: int| 0 <= i < buf.len() ==> lo <= (#[trigger] buf[i]).0,
        forall|j: int| 0 <= j < cands.len() ==> lo <= (#[trigger] cands[j]).0,
    ensures
        forall|i: int|
            0 <= i < add_candidates(buf, counter, cands).0.len() ==> lo <= (#[trigger] add_candidates(buf, counter, cands).0[i]).0,
    decreases cands.len(),
{
    if cands.len() > 0 {
        let d = cands.drop_last();
        assert forall|j: int| 0 <= j < d.len() implies lo <= (#[trigger] d[j]).0 by {
            assert(d[j] == cands[j]);
        }
        lemma_add_candidates_keys(buf, counter, d, lo);
        let r = add_candidates(buf, counter, d);
        let x = cands.last();
        assert(lo <= cands[cands.len() - 1].0);
        let res = add_candidates(buf, counter, cands).0;
        assert(res == if in_buffer(r.0, x.1) { r.0 } else { r.0.push((x.0, r.1, x.1)) });
        assert forall|i: int| 0 <= i < res.len() implies lo <= (#[trigger] res[i]).0 by {
            if i < r.0.len() {
                assert(res[i] == r.0[i]);
            }
        }
    }
}

fn in_buffer_exec(buffer: &Vec<(u64, usize, Vec<String>)>, p: &Vec<String>) -> (r: bool)
    ensures
        r == in_buffer(buffer@.map_values(|e: (u64, usize, Vec<String>)| (e.0, e.1 as nat, str_views(e.2@))), str_views(p@)),
{
    let ghost b = buffer@.map_values(|e: (u64, usize, Vec<String>)| (e.0, e.1 as nat, str_views(e.2@)));
    let mut i: usize = 0;
    while i < buffer.len()
        invariant
            i <= buffer@.len(),
            b == buffer@.map_values(|e: (u64, usize, Vec<String>)| (e.0, e.1 as nat, str_views(e.2@))),
            forall|j: int| 0 <= j < i ==> (#[trigger] b[j]).2 != str_views(p@),
        decreases buffer@.len() - i,
    {
        if same_path(&buffer[i].2, p) {
            assert(b[i as int].2 == str_views(p@));
            return true;
        }
        i = i + 1;
    }
    false
}

/// One round of the search: the results of the round's spur searches (in
/// the order of `yen_spur_requests`, each the cost key and the spur path
/// when one was found) are offered to the buffer as candidates, and the
/// candidate with the least key (the earliest arrival among equal keys) is
/// accepted. Returns whether the search has ended: the buffer was empty,
/// or `k` paths are accepted.
pub fn yen_step(s: &mut YenSearch, found: Vec<Option<(u64, Vec<String>)>>) -> (done: bool)
    requires
        old(s).wf(),
        !old(s).done_spec(),
        found@.len() == old(s).requests().len(),
        old(s).counter_spec() + found@.len() <= usize::MAX,
    ensures
        ({
            let cands = found_candidates(old(s).base(), found_views(found@));
            let b1 = add_candidates(old(s).buffered(), old(s).counter_spec(), cands).0;
            let c1 = add_candidates(old(s).buffered(), old(s).counter_spec(), cands).1;
            &&& final(s).wf()
            &&& final(s).source_spec() == old(s).source_spec()
            &&& final(s).target_spec() == old(s).target_spec()
            &&& final(s).k_spec() == old(s).k_spec()
            &&& final(s).counter_spec() == c1
            &&& final(s).done_spec() == done
            &&& final(s).accepted_paths().len() <= final(s).k_spec()
            &&& b1.len() == 0 ==> {
                &&& done
                &&& final(s).accepted_paths() == old(s).accepted_paths()
                &&& final(s).accepted_keys() == old(s).accepted_keys()
                &&& final(s).buffered() == b1
            }
            &&& b1.len() > 0 ==> exists|m: int| {
                &&& #[trigger] is_least(b1, m)
                &&& final(s).accepted_paths() == old(s).accepted_paths().push(b1[m].2)
                &&& final(s).accepted_keys() == old(s).accepted_keys().push(b1[m].0)
                &&& final(s).buffered() == b1.remove(m)
                &&& done == (final(s).accepted_paths().len() == final(s).k_spec())
            }
            &&& b1.len() > 0 ==> final(s).keys_settled()
            &&& (old(s).keys_settled() && old(s).accepted_keys().len() > 0 && b1.len() > 0 && (forall|j: int|
                0 <= j < cands.len() ==> old(s).accepted_keys().last() <= (#[trigger] cands[j]).0))
                ==> old(s).accepted_keys().last() <= final(s).accepted_keys().last()
        }),
{
    let ghost s0 = *s;
    let ghost base = s0.base();
    let ghost fv = found_views(found@);
    let empty: Vec<String> = Vec::new();
    let has_base = s.accepted.len() > 0;
    let bl = s.accepted.len();
    proof {
        assert(has_base ==> base == str_views(s.accepted@[bl - 1]@));
        assert(!has_base ==> found@.len() == 1);
        assert(has_base && str_views(s.accepted@[bl - 1]@).len() > 0 ==> found@.len() == str_views(s.accepted@[bl - 1]@).len() - 1);
        assert(has_base && str_views(s.accepted@[bl - 1]@).len() == 0 ==> found@.len() == 0);
        assert(fv.take(0) =~= Seq::<Option<(u64, Seq<Seq<char>>)>>::empty());
    }
    let mut i: usize = 0;
    while i < found.len()
        invariant
            i <= found@.len(),
            found@.len() == s0.requests().len(),
            s0.counter_spec() + found@.len() <= usize::MAX,
            s.counter <= s0.counter_spec() + i,
            has_base == (s0.accepted_paths().len() > 0),
            bl == s0.accepted_paths().len(),
            has_base ==> base == str_views(s.accepted@[bl - 1]@),
            !has_base ==> found@.len() == 1,
            base == s0.base(),
            fv == found_views(found@),
            s.accepted == s0.accepted,
            s.keys == s0.keys,
            s.source == s0.source,
            s.target == s0.target,
            s.k == s0.k,
            s.done == s0.done,
            !s.done,
            has_base ==> i <= base.len(),
            (s.buffered(), s.counter_spec()) == add_candidates(s0.buffered(), s0.counter_spec(), found_candidates(base, fv.take(i as int))),
            s.wf(),
        decreases found@.len() - i,
    {
        proof {
            assert(fv.take(i + 1).drop_last() =~= fv.take(i as int));
            assert(fv.take(i + 1).last() == fv[i as int]);
        }
        match &found[i] {
            Some(f) => {
                let mut cand: Vec<String> = Vec::new();
                if has_base {
                    let p = &s.accepted[bl - 1];
                    let mut q: usize = 0;
                    while q < i
                        invariant
                            q <= i,
                            i <= p@.len(),
                            str_views(cand@) == str_views(p@).take(q as int),
                        decreases i - q,
                    {
                        let ghost c0 = cand@;
                        cand.push(p[q].clone());
                        proof {
                            assert(str_views(cand@) =~= str_views(c0).push(p@[q as int]@));
                            assert(str_views(p@).take(q + 1) =~= str_views(p@).take(q as int).push(p@[q as int]@));
                        }
                        q = q + 1;
                    }
                }
                let ghost pre = cand@;
                proof {
                    if !has_base {
                        assert(str_views(pre) =~= base.take(i as int));
                    }
                }
                let spur = &f.1;
                let mut q: usize = 0;
                while q < spur.len()
                    invariant
                        q <= spur@.len(),
                        str_views(cand@) == str_views(pre) + str_views(spur@).take(q as int),
                    decreases spur@.len() - q,
                {
                    let ghost c0 = cand@;
                    cand.push(spur[q].clone());
                    proof {
                        assert(str_views(cand@) =~= str_views(c0).push(spur@[q as int]@));
                        assert(str_views(spur@).take(q + 1) =~= str_views(spur@).take(q as int).push(spur@[q as int]@));
                    }
                    q = q + 1;
                }
                proof {
                    assert(str_views(spur@).take(spur@.len() as int) =~= str_views(spur@));
                    assert(fv[i as int] == Some((f.0, str_views(spur@))));
                    assert(str_views(cand@) == base.take(i as int) + str_views(spur@));
                }
                let ghost cs = found_candidates(base, fv.take(i as int));
                let ghost x = (f.0, base.take(i as int) + str_views(spur@));
                proof {
                    assert(found_candidates(base, fv.take(i + 1)) == cs.push(x));
                    assert(cs.push(x).drop_last() =~= cs);
                    assert(cs.push(x).last() == x);
                }
                let dup = in_buffer_exec(&s.buffer, &cand);
                if !dup {
                    let ghost bb = s.buffered();
                    s.buffer.push((f.0, s.counter, cand));
                    s.counter = s.counter + 1;
                    proof {
                        assert(s.buffered() =~= bb.push((f.0, (s.counter - 1) as nat, str_views(cand@))));
                    }
                }
            },
            None => {
                proof {
                    assert(found_candidates(base, fv.take(i + 1)) == found_candidates(base, fv.take(i as int)));
                }
            },
        }
        i = i + 1;
    }
    proof {
        assert(fv.take(found@.len() as int) =~= fv);
    }
    let ghost b1 = s.buffered();
    if s.buffer.len() == 0 {
        s.done = true;
        return true;
    }
    let mut m: usize = 0;
    let mut j: usize = 1;
    while j < s.buffer.len()
        invariant
            b1 == s.buffered(),
            b1.len() > 0,
            m < j,
            j <= b1.len(),
            forall|x: int| 0 <= x < j && x != m ==> cand_before(b1[m as int], #[trigger] b1[x]),
            forall|x: int, y: int| 0 <= x < y < b1.len() ==> (#[trigger] b1[x]).1 != (#[trigger] b1[y]).1,
        decreases b1.len() - j,
    {
        let (kj, cj, _) = &s.buffer[j];
        let (km, cm, _) = &s.buffer[m];
        proof {
            assert(b1[j as int].0 == *kj && b1[j as int].1 == *cj as nat);
            assert(b1[m as int].0 == *km && b1[m as int].1 == *cm as nat);
        }
        if *kj < *km || (*kj == *km && *cj < *cm) {
            proof {
                assert forall|x: int| 0 <= x < j + 1 && x != j implies cand_before(b1[j as int], #[trigger] b1[x]) by {
                    if x != m {
                        assert(cand_before(b1[m as int], b1[x]));
                    }
                }
            }
            m = j;
        } else {
            proof {
                assert(b1[m as int].1 != b1[j as int].1);
            }
        }
        j = j + 1;
    }
    let ghost sp = *s;
    let e = s.buffer.remove(m);
    proof {
        assert(is_least(b1, m as int));
        assert(s.buffered() =~= b1.remove(m as int)) by {
            assert forall|x: int| 0 <= x < s.buffered().len() implies s.buffered()[x] == b1.remove(m as int)[x] by {
                if x < m {
                    assert(s.buffer@[x] == sp.buffer@[x]);
                } else {
                    assert(s.buffer@[x] == sp.buffer@[x + 1]);
                }
            }
        }
        assert(b1[m as int] == (e.0, e.1 as nat, str_views(e.2@)));
    }
    let ghost ap = s.accepted@;
    s.accepted.push(e.2);
    proof {
        s.keys = Ghost(s.keys@.push(e.0));
        assert(path_views(s.accepted@) =~= path_views(ap).push(b1[m as int].2));
    }
    let d = s.accepted.len() == s.k;
    s.done = d;
    proof {
        let b2 = s.buffered();
        assert forall|x: int| 0 <= x < b2.len() implies (#[trigger] b2[x]).1 < s.counter by {
            if x < m {
                assert(b2[x] == b1[x]);
            } else {
                assert(b2[x] == b1[x + 1]);
            }
        }
        assert forall|x: int, y: int| 0 <= x < y < b2.len() implies (#[trigger] b2[x]).1 != (#[trigger] b2[y]).1 && b2[x].2 != b2[y].2 by {
            let x1 = if x < m { x } else { x + 1 };
            let y1 = if y < m { y } else { y + 1 };
            assert(b2[x] == b1[x1]);
            assert(b2[y] == b1[y1]);
        }
        let cands = found_candidates(s0.base(), found_views(found@));
        if s0.keys_settled() && s0.accepted_keys().len() > 0 && (forall|jj: int|
            0 <= jj < cands.len() ==> s0.accepted_keys().last() <= (#[trigger] cands[jj]).0) {
            lemma_add_candidates_keys(s0.buffered(), s0.counter_spec(), cands, s0.accepted_keys().last());
            assert(b1 == add_candidates(s0.buffered(), s0.counter_spec(), cands).0);
            assert(s0.accepted_keys().last() <= add_candidates(s0.buffered(), s0.counter_spec(), cands).0[m as int].0);
        }
        assert forall|x: int| 0 <= x < b2.len() implies s.keys@.last() <= (#[trigger] b2[x]).0 by {
            let x1 = if x < m { x } else { x + 1 };
            assert(b2[x] == b1[x1]);
            assert(cand_before(b1[m as int], b1[x1]));
        }
    }
    d
}

/// The outcome of a search: the accepted paths, in order (never more than
/// `k`); `NoPath` from the source to the target when `k` is not zero and
/// none was accepted.
pub fn yen_result(s: &YenSearch) -> (r: Result<Vec<Vec<String>>, TerrainError>)
    requires
        s.wf(),
    ensures
        match r {
            Ok(v) => path_views(v@) == s.accepted_paths() && (s.accepted_paths().len() > 0 || s.k_spec() == 0)
                && v@.len() <= s.k_spec(),
            Err(e) => s.accepted_paths().len() == 0 && s.k_spec() > 0 && (match e {
                TerrainError::NoPath { from, to } => from@ == s.source_spec() && to@ == s.target_spec(),
                _ => false,
            }),
        },
{
    if s.accepted.len() == 0 && s.k > 0 {
        return Err(TerrainError::NoPath { from: s.source.clone(), to: s.target.clone() });
    }
    let mut out: Vec<Vec<String>> = Vec::new();
    let mut i: usize = 0;
    while i < s.accepted.len()
        invariant
            i <= s.accepted@.len(),
            path_views(out@) == path_views(s.accepted@).take(i as int),
        decreases s.accepted@.len() - i,
    {
        let ghost o0 = out@;
        out.push(copy_path(&s.accepted[i]));
        proof {
            assert(path_views(out@) =~= path_views(o0).push(str_views(s.accepted@[i as int]@)));
            assert(path_views(s.accepted@).take(i + 1) =~= path_views(s.accepted@).take(i as int).push(
                str_views(s.accepted@[i as int]@),
            ));
        }
        i = i + 1;
    }
    proof {
        assert(path_views(s.accepted@).take(s.accepted@.len() as int) =~= path_views(s.accepted@));
    }
    Ok(out)
}

} // verus!
