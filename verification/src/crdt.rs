//! The conflict-free merge discipline of the replicated table engine.
//!
//! Every table row is wrapped in an [`Entry`] carrying a logical write
//! timestamp, the identifier of the originating node, and a tombstone flag.
//! Two entries for the same key are merged by taking the one with the higher
//! timestamp; ties are broken by the fixed total order on node identifiers.
//! A tombstone therefore beats a non-tombstone only by timestamp, never by
//! its tombstone status alone. Merge is idempotent, and — for entries whose
//! (timestamp, node) stamps are distinct — commutative and associative, so
//! every replica converges to the same value whatever the delivery order.

use vstd::prelude::*;

verus! {

/// Mathematical model of a table entry: payload bytes plus merge metadata.
pub struct EntryV {
    pub timestamp: u64,
    pub node: u64,
    pub deleted: bool,
    pub value: Seq<u8>,
}

/// A table entry as stored and shipped between replicas: opaque payload
/// bytes plus the metadata that drives the merge.
pub struct Entry {
    /// Logical write timestamp (monotone per key at the writer).
    pub timestamp: u64,
    /// Identifier of the originating node, the tie breaker.
    pub node: u64,
    /// Tombstone flag: a deletion is a write, never a physical removal.
    pub deleted: bool,
    /// Serialized row payload; empty for tombstones.
    pub value: Vec<u8>,
}

impl View for Entry {
    type V = EntryV;

    open spec fn view(&self) -> EntryV {
        EntryV {
            timestamp: self.timestamp,
            node: self.node,
            deleted: self.deleted,
            value: self.value@,
        }
    }
}

/// `a` strictly supersedes `b`: later timestamp, or same timestamp and a
/// greater originating node identifier. The tombstone flag and the payload
/// play no part in the order.
pub open spec fn wins(a: EntryV, b: EntryV) -> bool {
    ||| a.timestamp > b.timestamp
    ||| (a.timestamp == b.timestamp && a.node > b.node)
}

/// Two entries carry the same (timestamp, node) write stamp.
pub open spec fn same_stamp(a: EntryV, b: EntryV) -> bool {
    a.timestamp == b.timestamp && a.node == b.node
}

/// Deterministic merge of two entries for the same key: the superseding
/// entry, whole. When neither strictly supersedes the other (equal stamps)
/// the first argument is kept.
pub open spec fn merge_v(a: EntryV, b: EntryV) -> EntryV {
    if wins(b, a) {
        b
    } else {
        a
    }
}

/// Merge of a non-empty sequence of entries for one key, folded left.
pub open spec fn merge_all(s: Seq<EntryV>) -> EntryV
    recommends
        s.len() > 0,
    decreases s.len(),
{
    if s.len() <= 1 {
        s[0]
    } else {
        merge_v(merge_all(s.drop_last()), s.last())
    }
}

/// No two entries of `s` carry the same write stamp.
pub open spec fn distinct_stamps(s: Seq<EntryV>) -> bool {
    forall|i: int, j: int|
        0 <= i < s.len() && 0 <= j < s.len() && i != j ==> !same_stamp(s[i], s[j])
}

/// Executable merge: returns the superseding entry, exactly as [`merge_v`]
/// says. Local persistence at a replica applies this to the incoming entry
/// and whatever the replica already holds, so reordered or duplicated
/// delivery cannot lose the newest write.
pub fn merge(a: Entry, b: Entry) -> (r: Entry)
    ensures
        r@ == merge_v(a@, b@),
{
    if b.timestamp > a.timestamp || (b.timestamp == a.timestamp && b.node > a.node) {
        b
    } else {
        a
    }
}

/// A copy of a byte vector, element by element.
pub fn clone_bytes(v: &Vec<u8>) -> (r: Vec<u8>)
    ensures
        r@ == v@,
{
    let mut r: Vec<u8> = Vec::new();
    let n = v.len();
    for i in 0..n
        invariant
            n == v.len(),
            r@ == v@.take(i as int),
    {
        r.push(v[i]);
        proof {
            assert(r@ =~= v@.take(i as int + 1));
        }
    }
    proof {
        assert(v@.take(n as int) =~= v@);
    }
    r
}

/// A copy of an entry, byte for byte.
pub fn clone_entry(e: &Entry) -> (r: Entry)
    ensures
        r@ == e@,
{
    Entry {
        timestamp: e.timestamp,
        node: e.node,
        deleted: e.deleted,
        value: clone_bytes(&e.value),
    }
}

/// Merging an entry with itself changes nothing.
pub proof fn lemma_merge_idempotent(a: EntryV)
    ensures
        merge_v(a, a) == a,
{
}

/// Merge does not depend on the order of its two arguments, for entries
/// with distinct write stamps (two distinct writes never share a stamp: the
/// timestamp tie is broken by the originating node).
pub proof fn lemma_merge_commutative(a: EntryV, b: EntryV)
    requires
        !same_stamp(a, b) || a == b,
    ensures
        merge_v(a, b) == merge_v(b, a),
{
}

/// Merge does not depend on grouping.
pub proof fn lemma_merge_associative(a: EntryV, b: EntryV, c: EntryV)
    ensures
        merge_v(merge_v(a, b), c) == merge_v(a, merge_v(b, c)),
{
}

/// Tombstones carry no precedence of their own: which of two entries
/// survives a merge is decided by (timestamp, node) alone, and setting or
/// clearing either tombstone flag cannot change which side wins. A
/// tombstone beats an older write and loses to a newer one, exactly as any
/// other entry would.
pub proof fn lemma_tombstone_no_precedence(a: EntryV, b: EntryV, d1: bool, d2: bool)
    ensures
        merge_v(EntryV { deleted: d1, ..a }, EntryV { deleted: d2, ..b }) == (if wins(b, a) {
            EntryV { deleted: d2, ..b }
        } else {
            EntryV { deleted: d1, ..a }
        }),
{
}

/// The folded merge of a non-empty sequence is one of its elements, and no
/// element supersedes it.
pub proof fn lemma_merge_all_is_max(s: Seq<EntryV>)
    requires
        s.len() > 0,
    ensures
        s.contains(merge_all(s)),
        forall|i: int| 0 <= i < s.len() ==> !wins(#[trigger] s[i], merge_all(s)),
    decreases s.len(),
{
    if s.len() > 1 {
        lemma_merge_all_is_max(s.drop_last());
        let m = merge_all(s.drop_last());
        assert(s.drop_last().contains(m));
        let k = choose|k: int| 0 <= k < s.drop_last().len() && s.drop_last()[k] == m;
        assert(s[k] == m);
        assert(s[s.len() - 1] == s.last());
        assert forall|i: int| 0 <= i < s.len() implies !wins(#[trigger] s[i], merge_all(s)) by {
            if i < s.len() - 1 {
                assert(s.drop_last()[i] == s[i]);
            }
        }
    } else {
        assert(s[0] == s.last());
    }
}

/// If some element `e` of the sequence supersedes (or equals) every element,
/// the folded merge returns exactly `e`.
pub proof fn lemma_merge_all_of_dominant(s: Seq<EntryV>, e: EntryV)
    requires
        s.contains(e),
        forall|i: int| 0 <= i < s.len() ==> s[i] == e || wins(e, #[trigger] s[i]),
    ensures
        merge_all(s) == e,
{
    lemma_merge_all_is_max(s);
    let m = merge_all(s);
    let k = choose|k: int| 0 <= k < s.len() && s[k] == m;
    let j = choose|j: int| 0 <= j < s.len() && s[j] == e;
    assert(!wins(s[j], m));
}

/// Convergence: the folded merge of a non-empty set of entries with
/// distinct write stamps does not depend on the order in which they were
/// delivered. Any two delivery orders of the same entries — any two
/// sequences with equal multisets — merge to the same value, so after a
/// full anti-entropy pass every replica holds an identical entry.
pub proof fn lemma_merge_convergence(s1: Seq<EntryV>, s2: Seq<EntryV>)
    requires
        s1.len() > 0,
        s1.to_multiset() == s2.to_multiset(),
        distinct_stamps(s1),
    ensures
        merge_all(s1) == merge_all(s2),
{
    s1.to_multiset_ensures();
    s2.to_multiset_ensures();
    assert(s2.len() == s1.len());
    lemma_merge_all_is_max(s1);
    lemma_merge_all_is_max(s2);
    let m1 = merge_all(s1);
    let m2 = merge_all(s2);
    assert(s1.to_multiset().count(m1) > 0);
    assert(s2.to_multiset().count(m1) > 0);
    assert(s2.contains(m1));
    assert(s2.to_multiset().count(m2) > 0);
    assert(s1.to_multiset().count(m2) > 0);
    assert(s1.contains(m2));
    let i = choose|i: int| 0 <= i < s1.len() && s1[i] == m1;
    let j = choose|j: int| 0 <= j < s1.len() && s1[j] == m2;
    let p = choose|p: int| 0 <= p < s2.len() && s2[p] == m1;
    assert(!wins(s1[j], m1));
    assert(!wins(s2[p], m2));
    assert(same_stamp(m1, m2));
    if i != j {
        assert(!same_stamp(s1[i], s1[j]));
    }
}

} // verus!
