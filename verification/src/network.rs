//! Network identifiers and the topology part of a pipe network: which node
//! each pipe joins, and the adjacency lists built from that.

use vstd::prelude::*;

use crate::text::str_eq;

verus! {

/// Unique identifier for a network node; any string, kept as given.
#[derive(Debug, Clone, PartialEq, Eq, Hash)]
pub struct NodeId(pub String);

/// Unique identifier for a network pipe; any string, kept as given.
#[derive(Debug, Clone, PartialEq, Eq, Hash)]
pub struct PipeId(pub String);

/// Copies a string (std's `str::to_owned`, whose result vstd specifies).
fn owned(s: &str) -> (r: String)
    ensures
        r@ == s@,
{
    s.to_owned()
}

impl NodeId {
    /// The id holding `s`.
    pub fn new(s: &str) -> (id: NodeId)
        ensures
            id.0@ == s@,
    {
        NodeId(owned(s))
    }

    /// The id's text.
    pub fn as_str(&self) -> (s: &str)
        ensures
            s@ == self.0@,
    {
        self.0.as_str()
    }
}

impl PipeId {
    /// The id holding `s`.
    pub fn new(s: &str) -> (id: PipeId)
        ensures
            id.0@ == s@,
    {
        PipeId(owned(s))
    }

    /// The id's text.
    pub fn as_str(&self) -> (s: &str)
        ensures
            s@ == self.0@,
    {
        self.0.as_str()
    }
}

/// The adjacency entries that the pipes in `ends` give the node `k`, in pipe
/// order: `(other end, pipe index)`, the entry of a pipe's start end before
/// that of its end end.
pub open spec fn incident(ends: Seq<(Seq<char>, Seq<char>)>, k: Seq<char>) -> Seq<(Seq<char>, nat)>
    decreases ends.len(),
{
    if ends.len() == 0 {
        Seq::empty()
    } else {
        let i = (ends.len() - 1) as nat;
        let (a, b) = ends.last();
        incident(ends.drop_last(), k) + (if a == k {
            seq![(b, i)]
        } else {
            Seq::empty()
        }) + (if b == k {
            seq![(a, i)]
        } else {
            Seq::empty()
        })
    }
}

/// The endpoint names of each pipe.
pub open spec fn end_names(ends: Seq<(NodeId, NodeId)>) -> Seq<(Seq<char>, Seq<char>)> {
    ends.map_values(|e: (NodeId, NodeId)| (e.0.0@, e.1.0@))
}

/// The view of an adjacency list.
pub open spec fn entries_view(l: Seq<(NodeId, usize)>) -> Seq<(Seq<char>, nat)> {
    l.map_values(|e: (NodeId, usize)| (e.0.0@, e.1 as nat))
}

/// The number of entries over all lists.
pub open spec fn total_entries(adj: Seq<(NodeId, Vec<(NodeId, usize)>)>) -> nat
    decreases adj.len(),
{
    if adj.len() == 0 {
        0
    } else {
        total_entries(adj.drop_last()) + adj.last().1@.len()
    }
}

/// The number of entries that `ends` gives the names of `keys`.
pub open spec fn sum_incident(ends: Seq<(Seq<char>, Seq<char>)>, keys: Seq<Seq<char>>) -> nat
    decreases keys.len(),
{
    if keys.len() == 0 {
        0
    } else {
        sum_incident(ends, keys.drop_last()) + incident(ends, keys.last()).len()
    }
}

/// How often `x` occurs in `keys`.
pub open spec fn occurrences(keys: Seq<Seq<char>>, x: Seq<char>) -> nat
    decreases keys.len(),
{
    if keys.len() == 0 {
        0
    } else {
        occurrences(keys.drop_last(), x) + if keys.last() == x { 1nat } else { 0nat }
    }
}

proof fn lemma_sum_incident_step(ends: Seq<(Seq<char>, Seq<char>)>, keys: Seq<Seq<char>>)
    requires
        ends.len() > 0,
    ensures
        sum_incident(ends, keys) == sum_incident(ends.drop_last(), keys) + occurrences(keys, ends.last().0)
            + occurrences(keys, ends.last().1),
    decreases keys.len(),
{
    if keys.len() > 0 {
        lemma_sum_incident_step(ends, keys.drop_last());
    }
}

proof fn lemma_occurs_once(keys: Seq<Seq<char>>, x: Seq<char>)
    requires
        keys.no_duplicates(),
        keys.contains(x),
    ensures
        occurrences(keys, x) == 1,
    decreases keys.len(),
{
    let d = keys.drop_last();
    if keys.last() == x {
        if d.contains(x) {
            let i = d.index_of(x);
            assert(keys[i] == keys[keys.len() - 1]);
        }
        lemma_occurs_none(d, x);
    } else {
        let i = keys.index_of(x);
        assert(d[i] == x);
        lemma_occurs_once(d, x);
    }
}

proof fn lemma_occurs_none(keys: Seq<Seq<char>>, x: Seq<char>)
    requires
        !keys.contains(x),
    ensures
        occurrences(keys, x) == 0,
    decreases keys.len(),
{
    if keys.len() > 0 {
        let d = keys.drop_last();
        assert(keys[keys.len() - 1] == keys.last());
        if d.contains(x) {
            let i = d.index_of(x);
            assert(keys[i] == x);
        }
        lemma_occurs_none(d, x);
    }
}

/// Over keys that hold every end once, each pipe counts twice.
proof fn lemma_sum_incident_all(ends: Seq<(Seq<char>, Seq<char>)>, keys: Seq<Seq<char>>)
    requires
        keys.no_duplicates(),
        forall|i: int| 0 <= i < ends.len() ==> keys.contains((#[trigger] ends[i]).0) && keys.contains(ends[i].1),
    ensures
        sum_incident(ends, keys) == 2 * ends.len(),
    decreases ends.len(),
{
    if ends.len() == 0 {
        lemma_sum_incident_empty(ends, keys);
    } else {
        let d = ends.drop_last();
        assert forall|i: int| 0 <= i < d.len() implies keys.contains((#[trigger] d[i]).0) && keys.contains(d[i].1) by {
            assert(d[i] == ends[i]);
        }
        lemma_sum_incident_all(d, keys);
        lemma_sum_incident_step(ends, keys);
        assert(ends[ends.len() - 1] == ends.last());
        lemma_occurs_once(keys, ends.last().0);
        lemma_occurs_once(keys, ends.last().1);
    }
}

proof fn lemma_sum_incident_empty(ends: Seq<(Seq<char>, Seq<char>)>, keys: Seq<Seq<char>>)
    requires
        ends.len() == 0,
    ensures
        sum_incident(ends, keys) == 0,
    decreases keys.len(),
{
    if keys.len() > 0 {
        lemma_sum_incident_empty(ends, keys.drop_last());
    }
}

proof fn lemma_end_incident(ends: Seq<(Seq<char>, Seq<char>)>, i: int)
    requires
        0 <= i < ends.len(),
    ensures
        incident(ends, ends[i].0).len() > 0,
        incident(ends, ends[i].1).len() > 0,
    decreases ends.len(),
{
    if i < ends.len() - 1 {
        assert(ends.drop_last()[i] == ends[i]);
        lemma_end_incident(ends.drop_last(), i);
    }
}

proof fn lemma_total_entries(ends: Seq<(NodeId, NodeId)>, adj: Seq<(NodeId, Vec<(NodeId, usize)>)>)
    requires
        forall|a: int, b: int| 0 <= a < b < adj.len() ==> (#[trigger] adj[a]).0.0@ != (#[trigger] adj[b]).0.0@,
        forall|a: int| 0 <= a < adj.len() ==> entries_view((#[trigger] adj[a]).1@) == incident(end_names(ends), adj[a].0.0@),
        forall|k: Seq<char>|
            (forall|a: int| 0 <= a < adj.len() ==> (#[trigger] adj[a]).0.0@ != k) ==> incident(end_names(ends), k).len() == 0,
    ensures
        total_entries(adj) == 2 * ends.len(),
{
    let en = end_names(ends);
    let keys = adj.map_values(|e: (NodeId, Vec<(NodeId, usize)>)| e.0.0@);
    assert(keys.no_duplicates()) by {
        assert forall|a: int, b: int| 0 <= a < keys.len() && 0 <= b < keys.len() && a != b implies keys[a] != keys[b] by {
            if a < b {
                assert(adj[a].0.0@ != adj[b].0.0@);
            } else {
                assert(adj[b].0.0@ != adj[a].0.0@);
            }
        }
    }
    assert forall|i: int| 0 <= i < en.len() implies keys.contains((#[trigger] en[i]).0) && keys.contains(en[i].1) by {
        lemma_end_incident(en, i);
        if !keys.contains(en[i].0) {
            assert forall|a: int| 0 <= a < adj.len() implies (#[trigger] adj[a]).0.0@ != en[i].0 by {
                assert(keys[a] == adj[a].0.0@);
            }
        }
        if !keys.contains(en[i].1) {
            assert forall|a: int| 0 <= a < adj.len() implies (#[trigger] adj[a]).0.0@ != en[i].1 by {
                assert(keys[a] == adj[a].0.0@);
            }
        }
    }
    lemma_sum_incident_all(en, keys);
    lemma_total_is_sum(ends, adj);
}

proof fn lemma_total_is_sum(ends: Seq<(NodeId, NodeId)>, adj: Seq<(NodeId, Vec<(NodeId, usize)>)>)
    requires
        forall|a: int| 0 <= a < adj.len() ==> entries_view((#[trigger] adj[a]).1@) == incident(end_names(ends), adj[a].0.0@),
    ensures
        total_entries(adj) == sum_incident(end_names(ends), adj.map_values(|e: (NodeId, Vec<(NodeId, usize)>)| e.0.0@)),
    decreases adj.len(),
{
    if adj.len() > 0 {
        let d = adj.drop_last();
        assert forall|a: int| 0 <= a < d.len() implies entries_view((#[trigger] d[a]).1@) == incident(end_names(ends), d[a].0.0@) by {
            assert(d[a] == adj[a]);
        }
        lemma_total_is_sum(ends, d);
        let keys = adj.map_values(|e: (NodeId, Vec<(NodeId, usize)>)| e.0.0@);
        assert(keys.drop_last() =~= d.map_values(|e: (NodeId, Vec<(NodeId, usize)>)| e.0.0@));
        assert(adj[adj.len() - 1] == adj.last());
        assert(entries_view(adj.last().1@).len() == adj.last().1@.len());
    }
}

fn copy_id(id: &NodeId) -> (r: NodeId)
    ensures
        r.0@ == id.0@,
{
    NodeId(id.0.clone())
}

/// Finds the slot of `key` in `keys`, appending the key (with an empty list)
/// when it is not there.
fn slot_of(keys: &mut Vec<NodeId>, lists: &mut Vec<Vec<(NodeId, usize)>>, key: &NodeId) -> (a: usize)
    requires
        old(keys)@.len() == old(lists)@.len(),
    ensures
        final(keys)@.len() == final(lists)@.len(),
        a < final(keys)@.len(),
        final(keys)@[a as int].0@ == key.0@,
        forall|b: int| 0 <= b < old(keys)@.len() ==> #[trigger] final(keys)@[b] == old(keys)@[b],
        forall|b: int| 0 <= b < old(lists)@.len() ==> #[trigger] final(lists)@[b] == old(lists)@[b],
        final(keys)@.len() == old(keys)@.len() || (final(keys)@.len() == old(keys)@.len() + 1
            && a == old(keys)@.len() && final(lists)@[a as int]@.len() == 0 && forall|b: int|
            0 <= b < old(keys)@.len() ==> (#[trigger] old(keys)@[b]).0@ != key.0@),
{
    let mut a: usize = 0;
    while a < keys.len()
        invariant
            a <= keys@.len(),
            keys@ == old(keys)@,
            lists@ == old(lists)@,
            old(keys)@.len() == old(lists)@.len(),
            forall|b: int| 0 <= b < a ==> (#[trigger] keys@[b]).0@ != key.0@,
        decreases keys@.len() - a,
    {
        if str_eq(keys[a].as_str(), key.as_str()) {
            return a;
        }
        a = a + 1;
    }
    keys.push(copy_id(key));
    lists.push(Vec::new());
    a
}

/// Appends `e` to list `a`.
fn push_to(lists: &mut Vec<Vec<(NodeId, usize)>>, a: usize, e: (NodeId, usize))
    requires
        a < old(lists)@.len(),
    ensures
        final(lists)@.len() == old(lists)@.len(),
        final(lists)@[a as int]@ == old(lists)@[a as int]@.push(e),
        forall|b: int| 0 <= b < old(lists)@.len() && b != a ==> #[trigger] final(lists)@[b] == old(lists)@[b],
{
    lists[a].push(e);
}

/// The adjacency lists of a network whose pipe `i` joins `ends[i].0` to
/// `ends[i].1`: one entry per node that some pipe touches (no node twice),
/// listing `(neighbour, pipe index)` for every pipe at the node, in pipe
/// order.
pub fn build_adjacency(ends: &Vec<(NodeId, NodeId)>) -> (adj: Vec<(NodeId, Vec<(NodeId, usize)>)>)
    ensures
        forall|a: int, b: int|
            0 <= a < b < adj@.len() ==> (#[trigger] adj@[a]).0.0@ != (#[trigger] adj@[b]).0.0@,
        forall|a: int|
            0 <= a < adj@.len() ==> entries_view((#[trigger] adj@[a]).1@) == incident(
                end_names(ends@),
                adj@[a].0.0@,
            ),
        forall|a: int| 0 <= a < adj@.len() ==> (#[trigger] adj@[a]).1@.len() > 0,
        forall|k: Seq<char>|
            (forall|a: int| 0 <= a < adj@.len() ==> (#[trigger] adj@[a]).0.0@ != k) ==> incident(
                end_names(ends@),
                k,
            ).len() == 0,
        total_entries(adj@) == 2 * ends@.len(),
{
    let mut keys: Vec<NodeId> = Vec::new();
    let mut lists: Vec<Vec<(NodeId, usize)>> = Vec::new();
    let mut i: usize = 0;
    while i < ends.len()
        invariant
            i <= ends@.len(),
            keys@.len() == lists@.len(),
            forall|a: int, b: int|
                0 <= a < b < keys@.len() ==> (#[trigger] keys@[a]).0@ != (#[trigger] keys@[b]).0@,
            forall|a: int|
                0 <= a < keys@.len() ==> entries_view((#[trigger] lists@[a])@) == incident(
                    end_names(ends@.take(i as int)),
                    keys@[a].0@,
                ),
            forall|a: int| 0 <= a < keys@.len() ==> (#[trigger] lists@[a])@.len() > 0,
            forall|k: Seq<char>|
                (forall|a: int| 0 <= a < keys@.len() ==> (#[trigger] keys@[a]).0@ != k) ==> incident(
                    end_names(ends@.take(i as int)),
                    k,
                ).len() == 0,
        decreases ends@.len() - i,
    {
        let ghost e0 = end_names(ends@.take(i as int));
        let ghost e1 = end_names(ends@.take(i + 1));
        let ghost sname = ends@[i as int].0.0@;
        let ghost tname = ends@[i as int].1.0@;
        proof {
            assert(e1.drop_last() =~= e0);
            assert(e1.last() == (sname, tname));
        }
        let ghost keys0 = keys@;
        let ghost lists0 = lists@;
        let a = slot_of(&mut keys, &mut lists, &ends[i].0);
        let ghost la = lists@;
        let ea = (copy_id(&ends[i].1), i);
        push_to(&mut lists, a, ea);
        let ghost keys1 = keys@;
        let ghost lists1 = lists@;
        let b = slot_of(&mut keys, &mut lists, &ends[i].1);
        let ghost lb = lists@;
        let eb = (copy_id(&ends[i].0), i);
        push_to(&mut lists, b, eb);
        proof {
            assert forall|k: Seq<char>| #[trigger] incident(e1, k) == incident(e0, k) + (if sname == k {
                seq![(tname, i as nat)]
            } else {
                Seq::empty()
            }) + (if tname == k {
                seq![(sname, i as nat)]
            } else {
                Seq::empty()
            }) by {}
            // keys stay distinct
            assert forall|x: int, y: int|
                0 <= x < y < keys@.len() implies (#[trigger] keys@[x]).0@ != (#[trigger] keys@[y]).0@ by {
                if y < keys0.len() {
                    assert(keys@[x] == keys0[x] && keys@[y] == keys0[y]);
                } else if y < keys1.len() {
                    assert(keys@[x] == keys1[x] && keys@[y] == keys1[y]);
                } else if x < keys1.len() {
                    assert(keys@[x] == keys1[x]);
                }
            }
            assert forall|x: int| 0 <= x < keys@.len() implies entries_view((#[trigger] lists@[x])@) == incident(e1, keys@[x].0@) by {
                let k = keys@[x].0@;
                if x < keys0.len() {
                    assert(keys1[x] == keys0[x]);
                    assert(entries_view(lists0[x]@) == incident(e0, k));
                } else {
                    assert forall|y: int| 0 <= y < keys0.len() implies (#[trigger] keys0[y]).0@ != k by {
                        if x < keys1.len() {
                        } else {
                            assert(keys1[y] == keys0[y]);
                        }
                    }
                    assert(incident(e0, k).len() == 0);
                    assert(incident(e0, k) =~= Seq::<(Seq<char>, nat)>::empty());
                }
                let l0 = if x < keys0.len() { lists0[x]@ } else { Seq::<(NodeId, usize)>::empty() };
                let l1 = if x < keys1.len() { lists1[x]@ } else { Seq::<(NodeId, usize)>::empty() };
                let w0 = entries_view(l0);
                let w1 = entries_view(l1);
                if x < keys1.len() {
                    if x < keys0.len() {
                        assert(la[x] == lists0[x]);
                    } else {
                        assert(la[x]@.len() == 0);
                    }
                    if x == a as int {
                        assert(l1 =~= l0.push(ea));
                        assert(w1 =~= w0.push((tname, i as nat)));
                    } else {
                        assert(lists1[x] == la[x]);
                        assert(l1 == l0);
                    }
                    assert(w1 == w0 + (if sname == k { seq![(tname, i as nat)] } else { Seq::empty() }));
                    assert(lb[x] == lists1[x]);
                } else {
                    assert(lb[x]@.len() == 0);
                    assert(w1 =~= w0);
                }
                if x == b as int {
                    assert(lists@[x]@ =~= l1.push(eb));
                    assert(entries_view(lists@[x]@) =~= w1.push((sname, i as nat)));
                } else {
                    assert(lists@[x] == lb[x]);
                    assert(lists@[x]@ == l1);
                }
                assert(entries_view(lists@[x]@) =~= incident(e1, k));
            }
            assert forall|x: int| 0 <= x < keys@.len() implies (#[trigger] lists@[x])@.len() > 0 by {
                if x != b as int && x != a as int {
                    if x < keys0.len() {
                        assert(lists@[x] == lists0[x]);
                    }
                } else if x == b as int {
                } else {
                    assert(lists1[x]@.len() > 0);
                }
            }
            assert forall|k: Seq<char>|
                (forall|x: int| 0 <= x < keys@.len() ==> (#[trigger] keys@[x]).0@ != k) implies incident(e1, k).len() == 0 by {
                assert(keys@[a as int].0@ == sname);
                assert(keys@[b as int].0@ == tname);
                assert forall|x: int| 0 <= x < keys0.len() implies (#[trigger] keys0[x]).0@ != k by {
                    assert(keys@[x] == keys0[x]);
                }
            }
        }
        i = i + 1;
    }
    proof {
        assert(ends@.take(ends@.len() as int) =~= ends@);
    }
    let ghost keys_f = keys@;
    let ghost lists_f = lists@;
    let mut adj: Vec<(NodeId, Vec<(NodeId, usize)>)> = Vec::new();
    while keys.len() > 0
        invariant
            keys@.len() == lists@.len(),
            adj@.len() + keys@.len() == keys_f.len(),
            forall|x: int| 0 <= x < adj@.len() ==> (#[trigger] adj@[x]).0 == keys_f[x] && adj@[x].1 == lists_f[x],
            forall|x: int| 0 <= x < keys@.len() ==> (#[trigger] keys@[x]) == keys_f[x + adj@.len()] && lists@[x] == lists_f[x + adj@.len()],
        decreases keys@.len(),
    {
        let k = keys.remove(0);
        let l = lists.remove(0);
        adj.push((k, l));
    }
    proof {
        assert forall|x: int| 0 <= x < adj@.len() implies (#[trigger] adj@[x]).0 == keys_f[x] && adj@[x].1 == lists_f[x] by {}
        assert forall|k: Seq<char>|
            (forall|x: int| 0 <= x < adj@.len() ==> (#[trigger] adj@[x]).0.0@ != k) implies incident(end_names(ends@), k).len() == 0 by {
            assert forall|x: int| 0 <= x < keys_f.len() implies (#[trigger] keys_f[x]).0@ != k by {
                assert(adj@[x].0 == keys_f[x]);
            }
        }
        lemma_total_entries(ends@, adj@);
    }
    adj
}

/// The position of the first node whose id is `id`, if any (a linear scan,
/// as a network lookup by id does).
pub fn find_node_index(ids: &Vec<NodeId>, id: &NodeId) -> (r: Option<usize>)
    ensures
        match r {
            Some(i) => i < ids@.len() && ids@[i as int].0@ == id.0@ && forall|j: int|
                0 <= j < i ==> (#[trigger] ids@[j]).0@ != id.0@,
            None => forall|j: int| 0 <= j < ids@.len() ==> (#[trigger] ids@[j]).0@ != id.0@,
        },
{
    let mut i: usize = 0;
    while i < ids.len()
        invariant
            i <= ids@.len(),
            forall|j: int| 0 <= j < i ==> (#[trigger] ids@[j]).0@ != id.0@,
        decreases ids@.len() - i,
    {
        if str_eq(ids[i].as_str(), id.as_str()) {
            return Some(i);
        }
        i = i + 1;
    }
    None
}

} // verus!
