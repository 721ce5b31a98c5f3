//! A node-local table keyspace: the rows one replica holds for one table.
//!
//! Rows are keyed by (partition key, sort key); the pair is unique per
//! store. Local persistence is always merge-then-persist: an incoming entry
//! is merged with whatever the store already holds for its key, so a replica
//! applying the same stream of writes in any order, with duplicates, ends at
//! the same state.

use vstd::prelude::*;

use crate::crdt::{clone_entry, merge, merge_v, same_stamp, Entry, EntryV};

verus! {

/// One stored row: its two-part key and the entry it currently holds.
pub struct Row {
    pub pk: u64,
    pub sk: u64,
    pub entry: Entry,
}

/// The rows a single replica holds for one table.
pub struct Store {
    rows: Vec<Row>,
}

/// The mapping a sequence of rows denotes: each (partition key, sort key)
/// pair to the entry of the last row bearing it.
pub open spec fn rows_map(rows: Seq<Row>) -> Map<(u64, u64), EntryV>
    decreases rows.len(),
{
    if rows.len() == 0 {
        Map::empty()
    } else {
        rows_map(rows.drop_last()).insert((rows.last().pk, rows.last().sk), rows.last().entry@)
    }
}

/// What merge-then-persist does to a replica's mapping: the key ends up
/// bound to the merge of the incoming entry with what was there, or to the
/// incoming entry alone if the key was absent.
pub open spec fn merge_inserted(
    m: Map<(u64, u64), EntryV>,
    pk: u64,
    sk: u64,
    e: EntryV,
) -> Map<(u64, u64), EntryV> {
    if m.contains_key((pk, sk)) {
        m.insert((pk, sk), merge_v(m[(pk, sk)], e))
    } else {
        m.insert((pk, sk), e)
    }
}

/// No two rows share a (partition key, sort key) pair.
pub open spec fn rows_unique(rows: Seq<Row>) -> bool {
    forall|i: int, j: int|
        0 <= i < rows.len() && 0 <= j < rows.len() && i != j ==> (
        #[trigger] rows[i].pk,
        rows[i].sk,
        ) != (#[trigger] rows[j].pk, rows[j].sk)
}

/// With unique keys, the denoted map has exactly the rows' keys in its
/// domain and maps each to that row's entry.
proof fn lemma_rows_map_index(rows: Seq<Row>)
    requires
        rows_unique(rows),
    ensures
        forall|k: (u64, u64)|
            rows_map(rows).contains_key(k) <==> exists|i: int|
                0 <= i < rows.len() && (#[trigger] rows[i].pk, rows[i].sk) == k,
        forall|i: int|
            0 <= i < rows.len() ==> rows_map(rows).contains_key(((#[trigger] rows[i].pk, rows[i].sk)))
                && rows_map(rows)[(rows[i].pk, rows[i].sk)] == rows[i].entry@,
    decreases rows.len(),
{
    if rows.len() > 0 {
        let head = rows.drop_last();
        assert(rows_unique(head)) by {
            assert(forall|i: int| 0 <= i < head.len() ==> head[i] == rows[i]);
        }
        lemma_rows_map_index(head);
        assert forall|k: (u64, u64)| rows_map(rows).contains_key(k) implies exists|i: int|
            0 <= i < rows.len() && (#[trigger] rows[i].pk, rows[i].sk) == k by {
            if k != (rows.last().pk, rows.last().sk) {
                assert(rows_map(rows) == rows_map(head).insert(
                    (rows.last().pk, rows.last().sk),
                    rows.last().entry@,
                ));
                assert(rows_map(head).contains_key(k));
                let i = choose|i: int| 0 <= i < head.len() && (#[trigger] head[i].pk, head[i].sk) == k;
                assert(head[i] == rows[i]);
                assert((rows[i].pk, rows[i].sk) == k);
            } else {
                assert((rows[rows.len() - 1].pk, rows[rows.len() - 1].sk) == k);
            }
        }
        assert forall|i: int| 0 <= i < rows.len() implies rows_map(rows).contains_key(
            ((#[trigger] rows[i].pk, rows[i].sk)),
        ) && rows_map(rows)[(rows[i].pk, rows[i].sk)] == rows[i].entry@ by {
            if i < rows.len() - 1 {
                assert(head[i] == rows[i]);
                assert((rows[i].pk, rows[i].sk) != (rows.last().pk, rows.last().sk));
            }
        }
    }
}

/// Updating the row at position `i` with a row of the same key updates the
/// denoted map at that key.
proof fn lemma_rows_map_update(rows: Seq<Row>, i: int, r: Row)
    requires
        rows_unique(rows),
        0 <= i < rows.len(),
        (r.pk, r.sk) == (rows[i].pk, rows[i].sk),
    ensures
        rows_map(rows.update(i, r)) =~= rows_map(rows).insert((r.pk, r.sk), r.entry@),
        rows_unique(rows.update(i, r)),
    decreases rows.len(),
{
    let upd = rows.update(i, r);
    assert(rows_unique(upd)) by {
        assert(forall|j: int| 0 <= j < rows.len() && j != i ==> upd[j] == rows[j]);
    }
    if i == rows.len() - 1 {
        assert(upd.drop_last() =~= rows.drop_last());
        assert(upd.last() == r);
    } else {
        let head = rows.drop_last();
        assert(rows_unique(head)) by {
            assert(forall|j: int| 0 <= j < head.len() ==> head[j] == rows[j]);
        }
        assert(upd.drop_last() =~= head.update(i, r));
        lemma_rows_map_update(head, i, r);
        assert(upd.last() == rows.last());
        assert((rows.last().pk, rows.last().sk) != (r.pk, r.sk));
    }
}

impl Store {
    /// The mapping this store holds, from (partition key, sort key) to entry.
    pub closed spec fn view(&self) -> Map<(u64, u64), EntryV> {
        rows_map(self.rows@)
    }

    /// Internal shape: keys are unique.
    pub closed spec fn wf(&self) -> bool {
        rows_unique(self.rows@)
    }

    /// An empty keyspace.
    pub fn new() -> (r: Store)
        ensures
            r.wf(),
            r@ == Map::<(u64, u64), EntryV>::empty(),
    {
        Store { rows: Vec::new() }
    }

    /// The entry this replica holds for a key, if any.
    pub fn get(&self, pk: u64, sk: u64) -> (r: Option<&Entry>)
        requires
            self.wf(),
        ensures
            match r {
                Some(e) => self@.contains_key((pk, sk)) && e@ == self@[(pk, sk)],
                None => !self@.contains_key((pk, sk)),
            },
    {
        proof {
            lemma_rows_map_index(self.rows@);
        }
        let n = self.rows.len();
        for i in 0..n
            invariant
                n == self.rows.len(),
                self.wf(),
                forall|j: int| 0 <= j < i ==> (#[trigger] self.rows@[j].pk, self.rows@[j].sk) != (pk, sk),
                forall|j: int|
                    0 <= j < self.rows@.len() ==> rows_map(self.rows@).contains_key(
                        ((#[trigger] self.rows@[j].pk, self.rows@[j].sk)),
                    ) && rows_map(self.rows@)[(self.rows@[j].pk, self.rows@[j].sk)]
                        == self.rows@[j].entry@,
                rows_map(self.rows@).contains_key((pk, sk)) ==> exists|j: int|
                    0 <= j < self.rows@.len() && (#[trigger] self.rows@[j].pk, self.rows@[j].sk)
                        == (pk, sk),
        {
            if self.rows[i].pk == pk && self.rows[i].sk == sk {
                return Some(&self.rows[i].entry);
            }
        }
        None
    }

    /// Merge-then-persist: the entry the store ends up holding for the key
    /// is the merge of the incoming entry with what it held before, or the
    /// incoming entry itself if the key was absent. This is what a replica
    /// does for every write it receives, whether from a client write
    /// fan-out, a read repair, or an anti-entropy pull.
    pub fn merge_insert(&mut self, pk: u64, sk: u64, e: Entry)
        requires
            old(self).wf(),
        ensures
            final(self).wf(),
            final(self)@ == merge_inserted(old(self)@, pk, sk, e@),
    {
        proof {
            lemma_rows_map_index(self.rows@);
        }
        let ghost rows0 = self.rows@;
        let n = self.rows.len();
        for i in 0..n
            invariant
                n == self.rows.len(),
                self.rows@ == rows0,
                rows0 == old(self).rows@,
                rows_unique(rows0),
                forall|j: int| 0 <= j < i ==> (#[trigger] rows0[j].pk, rows0[j].sk) != (pk, sk),
                forall|j: int|
                    0 <= j < rows0.len() ==> rows_map(rows0).contains_key(
                        ((#[trigger] rows0[j].pk, rows0[j].sk)),
                    ) && rows_map(rows0)[(rows0[j].pk, rows0[j].sk)] == rows0[j].entry@,
                rows_map(rows0).contains_key((pk, sk)) ==> exists|j: int|
                    0 <= j < rows0.len() && (#[trigger] rows0[j].pk, rows0[j].sk) == (pk, sk),
        {
            if self.rows[i].pk == pk && self.rows[i].sk == sk {
                let stored = self.rows.remove(i);
                let merged = merge(stored.entry, e);
                self.rows.insert(i, Row { pk, sk, entry: merged });
                proof {
                    assert(self.rows@ =~= rows0.update(i as int, self.rows@[i as int]));
                    assert((rows0[i as int].pk, rows0[i as int].sk) == (pk, sk));
                    assert(rows_map(rows0).contains_key((pk, sk)));
                    assert(rows_map(rows0)[(rows0[i as int].pk, rows0[i as int].sk)]
                        == rows0[i as int].entry@);
                    assert(self.rows@[i as int].entry@ == merge_v(rows0[i as int].entry@, e@));
                    lemma_rows_map_update(rows0, i as int, self.rows@[i as int]);
                    assert(rows_map(self.rows@) =~= rows_map(rows0).insert(
                        (pk, sk),
                        merge_v(rows0[i as int].entry@, e@),
                    ));
                    assert(old(self)@ == rows_map(rows0));
                    assert(old(self)@[(pk, sk)] == rows0[i as int].entry@);
                    assert(merge_v(old(self)@[(pk, sk)], e@) == merge_v(
                        rows0[i as int].entry@,
                        e@,
                    ));
                }
                return ;
            }
        }
        self.rows.push(Row { pk, sk, entry: e });
        proof {
            assert(self.rows@.drop_last() =~= rows0);
            assert(rows_unique(self.rows@)) by {
                assert(forall|j: int| 0 <= j < rows0.len() ==> self.rows@[j] == rows0[j]);
            }
        }
    }

    /// Anti-entropy pull: merge every row the peer holds into this store.
    /// Afterwards this store holds, for every key either side knew, the
    /// merge of the two sides — the peer's rows where this store had none,
    /// and the winning entry where both held the key.
    pub fn sync_from(&mut self, other: &Store)
        requires
            old(self).wf(),
            other.wf(),
        ensures
            final(self).wf(),
            final(self)@ == merged_maps(old(self)@, other@),
    {
        proof {
            lemma_rows_map_index(other.rows@);
            assert(self@ =~= merged_maps(old(self)@, rows_map(other.rows@.take(0))));
        }
        let n = other.rows.len();
        for i in 0..n
            invariant
                n == other.rows.len(),
                self.wf(),
                other.wf(),
                self@ == merged_maps(old(self)@, rows_map(other.rows@.take(i as int))),
        {
            let row = &other.rows[i];
            let e = clone_entry(&row.entry);
            let ghost pre = rows_map(other.rows@.take(i as int));
            let ghost cur = self@;
            proof {
                assert(other.rows@.take(i as int + 1).drop_last() =~= other.rows@.take(i as int));
                assert(other.rows@.take(i as int + 1).last() == other.rows@[i as int]);
                lemma_rows_map_prefix_fresh(other.rows@, i as int);
            }
            self.merge_insert(row.pk, row.sk, e);
            proof {
                let key = (other.rows@[i as int].pk, other.rows@[i as int].sk);
                let post = pre.insert(key, other.rows@[i as int].entry@);
                assert(rows_map(other.rows@.take(i as int + 1)) == post);
                if old(self)@.contains_key(key) {
                    assert(cur[key] == old(self)@[key]);
                }
                assert(self@ =~= merged_maps(old(self)@, post));
            }
        }
        proof {
            assert(other.rows@.take(n as int) =~= other.rows@);
        }
    }

    /// Tombstone compaction: physically remove every tombstone written at
    /// least `horizon` ago. The horizon is chosen to exceed the maximum
    /// anti-entropy lag, so every peer has seen the deletion before the
    /// marker disappears; live rows and fresh tombstones are untouched.
    pub fn compact_tombstones(&mut self, now: u64, horizon: u64)
        requires
            old(self).wf(),
        ensures
            final(self).wf(),
            final(self)@ == compacted(old(self)@, now, horizon),
    {
        let ghost rows0 = self.rows@;
        proof {
            lemma_rows_map_index(rows0);
        }
        let mut kept: Vec<Row> = Vec::new();
        let n = self.rows.len();
        for i in 0..n
            invariant
                n == self.rows.len(),
                self.rows@ == rows0,
                rows0 == old(self).rows@,
                rows_unique(rows0),
                rows_unique(kept@),
                forall|j: int|
                    0 <= j < kept@.len() ==> exists|t: int|
                        0 <= t < i && (rows0[t].pk, rows0[t].sk) == ((#[trigger] kept@[j]).pk,
                        kept@[j].sk),
                rows_map(kept@) == compacted(rows_map(rows0.take(i as int)), now, horizon),
                forall|j: int|
                    0 <= j < rows0.len() ==> rows_map(rows0).contains_key(
                        ((#[trigger] rows0[j].pk, rows0[j].sk)),
                    ) && rows_map(rows0)[(rows0[j].pk, rows0[j].sk)] == rows0[j].entry@,
        {
            let row = &self.rows[i];
            let ghost pre = rows_map(rows0.take(i as int));
            let ghost kept0 = kept@;
            proof {
                assert(rows0.take(i as int + 1).drop_last() =~= rows0.take(i as int));
                assert(rows0.take(i as int + 1).last() == rows0[i as int]);
                lemma_rows_map_prefix_fresh(rows0, i as int);
            }
            let expired = row.entry.deleted && horizon <= now && row.entry.timestamp <= now
                - horizon;
            if !expired {
                kept.push(Row { pk: row.pk, sk: row.sk, entry: clone_entry(&row.entry) });
                proof {
                    assert(kept@.drop_last() =~= kept0);
                    assert(kept@.last().pk == rows0[i as int].pk && kept@.last().sk
                        == rows0[i as int].sk && kept@.last().entry@ == rows0[i as int].entry@);
                    assert(rows_unique(kept@)) by {
                        assert(forall|j: int| 0 <= j < kept0.len() ==> kept@[j] == kept0[j]);
                        assert forall|j: int, l: int|
                            0 <= j < kept@.len() && 0 <= l < kept@.len() && j != l implies (
                            #[trigger] kept@[j].pk,
                            kept@[j].sk,
                            ) != (#[trigger] kept@[l].pk, kept@[l].sk) by {
                            if j == kept@.len() - 1 || l == kept@.len() - 1 {
                                let m = if j == kept@.len() - 1 {
                                    l
                                } else {
                                    j
                                };
                                let t = choose|t: int|
                                    0 <= t < i && (rows0[t].pk, rows0[t].sk) == ((
                                    #[trigger] kept0[m]).pk, kept0[m].sk);
                                assert((rows0[t].pk, rows0[t].sk) != (
                                    rows0[i as int].pk,
                                    rows0[i as int].sk,
                                ));
                            }
                        }
                    }
                    assert((rows0[i as int].pk, rows0[i as int].sk) == (kept@[kept@.len()
                        - 1].pk, kept@[kept@.len() - 1].sk));
                    assert(rows_map(kept@) =~= compacted(
                        rows_map(rows0.take(i as int + 1)),
                        now,
                        horizon,
                    ));
                }
            } else {
                proof {
                    assert(rows_map(kept@) =~= compacted(
                        rows_map(rows0.take(i as int + 1)),
                        now,
                        horizon,
                    ));
                }
            }
        }
        proof {
            assert(rows0.take(n as int) =~= rows0);
        }
        self.rows = kept;
    }

    /// The sort keys this replica holds within `[lo, hi)` of a partition,
    /// in no particular order, each once.
    pub fn range_sort_keys(&self, pk: u64, lo: u64, hi: u64) -> (r: Vec<u64>)
        requires
            self.wf(),
        ensures
            forall|sk: u64|
                r@.contains(sk) <==> self@.contains_key((pk, sk)) && lo <= sk < hi,
            forall|t1: int, t2: int|
                0 <= t1 < r@.len() && 0 <= t2 < r@.len() && t1 != t2 ==> #[trigger] r@[t1]
                    != #[trigger] r@[t2],
    {
        proof {
            lemma_rows_map_index(self.rows@);
        }
        let mut r: Vec<u64> = Vec::new();
        let n = self.rows.len();
        for i in 0..n
            invariant
                n == self.rows.len(),
                self.wf(),
                forall|j: int|
                    0 <= j < self.rows@.len() ==> rows_map(self.rows@).contains_key(
                        ((#[trigger] self.rows@[j].pk, self.rows@[j].sk)),
                    ),
                forall|sk: u64|
                    rows_map(self.rows@).contains_key((pk, sk)) ==> exists|j: int|
                        0 <= j < self.rows@.len() && (#[trigger] self.rows@[j].pk,
                        self.rows@[j].sk) == (pk, sk),
                forall|t: int|
                    0 <= t < r@.len() ==> lo <= #[trigger] r@[t] < hi && has_row_upto(
                        self.rows@,
                        i as int,
                        pk,
                        r@[t],
                    ),
                forall|j: int|
                    0 <= j < i && self.rows@[j].pk == pk && lo <= (#[trigger] self.rows@[j]).sk
                        < hi ==> r@.contains(self.rows@[j].sk),
                forall|t1: int, t2: int|
                    0 <= t1 < r@.len() && 0 <= t2 < r@.len() && t1 != t2 ==> #[trigger] r@[t1]
                        != #[trigger] r@[t2],
        {
            let ghost r0 = r@;
            let row = &self.rows[i];
            if row.pk == pk && lo <= row.sk && row.sk < hi {
                r.push(row.sk);
                proof {
                    assert(r@[r@.len() - 1] == self.rows@[i as int].sk);
                    assert(forall|t: int| 0 <= t < r0.len() ==> r@[t] == r0[t]);
                    assert(has_row_upto(self.rows@, i as int + 1, pk, self.rows@[i as int].sk))
                        by {
                        assert(self.rows@[i as int].pk == pk);
                    }
                    assert(!r0.contains(self.rows@[i as int].sk)) by {
                        if r0.contains(self.rows@[i as int].sk) {
                            let t = choose|t: int|
                                0 <= t < r0.len() && r0[t] == self.rows@[i as int].sk;
                            let j = choose|j: int|
                                0 <= j < i && #[trigger] self.rows@[j].pk == pk
                                    && self.rows@[j].sk == r0[t];
                            assert((self.rows@[j].pk, self.rows@[j].sk) == (
                                self.rows@[i as int].pk,
                                self.rows@[i as int].sk,
                            ));
                        }
                    }
                    assert forall|t1: int, t2: int|
                        0 <= t1 < r@.len() && 0 <= t2 < r@.len() && t1 != t2 implies
                        #[trigger] r@[t1] != #[trigger] r@[t2] by {
                        if t1 == r@.len() - 1 || t2 == r@.len() - 1 {
                            let m = if t1 == r@.len() - 1 {
                                t2
                            } else {
                                t1
                            };
                            assert(r0.contains(r0[m]));
                        }
                    }
                    assert forall|j: int|
                        0 <= j < i + 1 && self.rows@[j].pk == pk && lo <= (
                        #[trigger] self.rows@[j]).sk < hi implies r@.contains(self.rows@[j].sk) by {
                        if j < i {
                            let t = choose|t: int| 0 <= t < r0.len() && r0[t] == self.rows@[j].sk;
                            assert(r@[t] == self.rows@[j].sk);
                        } else {
                            assert(r@[r@.len() - 1] == self.rows@[j].sk);
                        }
                    }
                }
            }
            proof {
                assert forall|t: int| 0 <= t < r@.len() implies lo <= #[trigger] r@[t] < hi
                    && has_row_upto(self.rows@, i as int + 1, pk, r@[t]) by {
                    if t < r0.len() {
                        assert(r@[t] == r0[t]);
                        assert(has_row_upto(self.rows@, i as int, pk, r0[t]));
                        let j = choose|j: int|
                            0 <= j < i && #[trigger] self.rows@[j].pk == pk && self.rows@[j].sk
                                == r0[t];
                        assert(has_row_upto(self.rows@, i as int + 1, pk, r@[t]));
                    }
                }
            }
        }
        proof {
            assert forall|sk: u64| r@.contains(sk) implies self@.contains_key((pk, sk)) && lo <= sk
                < hi by {
                let t = choose|t: int| 0 <= t < r@.len() && r@[t] == sk;
                let j = choose|j: int|
                    0 <= j < n && #[trigger] self.rows@[j].pk == pk && self.rows@[j].sk == sk;
                assert(rows_map(self.rows@).contains_key((self.rows@[j].pk, self.rows@[j].sk)));
            }
            assert forall|sk: u64| self@.contains_key((pk, sk)) && lo <= sk < hi implies
                r@.contains(sk) by {
                let j = choose|j: int|
                    0 <= j < self.rows@.len() && (#[trigger] self.rows@[j].pk, self.rows@[j].sk)
                        == (pk, sk);
            }
        }
        r
    }

    /// A copy of this keyspace, row for row.
    pub fn duplicate(&self) -> (r: Store)
        requires
            self.wf(),
        ensures
            r.wf(),
            r@ == self@,
    {
        let mut r = Store::new();
        r.sync_from(self);
        proof {
            assert(r@ =~= self@);
        }
        r
    }

    /// The number of rows held (tombstones included).
    pub fn len(&self) -> (r: usize)
        requires
            self.wf(),
        ensures
            r == self@.dom().len(),
    {
        proof {
            lemma_rows_map_len(self.rows@);
        }
        self.rows.len()
    }
}

/// The key at position `i` of a unique row sequence is not among the first
/// `i` positions' keys.
proof fn lemma_rows_map_prefix_fresh(rows: Seq<Row>, i: int)
    requires
        rows_unique(rows),
        0 <= i < rows.len(),
    ensures
        !rows_map(rows.take(i)).contains_key((rows[i].pk, rows[i].sk)),
{
    let head = rows.take(i);
    assert(rows_unique(head)) by {
        assert(forall|j: int| 0 <= j < head.len() ==> head[j] == rows[j]);
    }
    lemma_rows_map_index(head);
    if rows_map(head).contains_key((rows[i].pk, rows[i].sk)) {
        let j = choose|j: int|
            0 <= j < head.len() && (#[trigger] head[j].pk, head[j].sk) == (rows[i].pk, rows[i].sk);
        assert(rows[j] == head[j]);
    }
}

/// What tombstone compaction leaves: every row except the tombstones
/// written at least `horizon` ago.
pub open spec fn compacted(
    m: Map<(u64, u64), EntryV>,
    now: u64,
    horizon: u64,
) -> Map<(u64, u64), EntryV> {
    Map::new(
        |k: (u64, u64)| m.contains_key(k) && !(m[k].deleted && m[k].timestamp + horizon <= now),
        |k: (u64, u64)| m[k],
    )
}

/// What a full anti-entropy pass leaves on the pulling side: for every key
/// either replica knew, the merge of what the two held.
pub open spec fn merged_maps(
    a: Map<(u64, u64), EntryV>,
    b: Map<(u64, u64), EntryV>,
) -> Map<(u64, u64), EntryV> {
    Map::new(
        |k: (u64, u64)| a.contains_key(k) || b.contains_key(k),
        |k: (u64, u64)|
            if a.contains_key(k) && b.contains_key(k) {
                merge_v(a[k], b[k])
            } else if b.contains_key(k) {
                b[k]
            } else {
                a[k]
            },
    )
}

/// Anti-entropy is symmetric: as long as no key is held with the same
/// write stamp but different content on the two sides — which distinct
/// stamps per write guarantee — both replicas end a mutual pass with the
/// same rows.
pub proof fn lemma_sync_commutative(a: Map<(u64, u64), EntryV>, b: Map<(u64, u64), EntryV>)
    requires
        forall|k: (u64, u64)|
            #[trigger] a.contains_key(k) && #[trigger] b.contains_key(k) ==> !same_stamp(
                a[k],
                b[k],
            ) || a[k] == b[k],
    ensures
        merged_maps(a, b) == merged_maps(b, a),
{
    assert(merged_maps(a, b) =~= merged_maps(b, a));
}

/// Pulling from a replica with identical rows changes nothing.
pub proof fn lemma_sync_idempotent(a: Map<(u64, u64), EntryV>)
    ensures
        merged_maps(a, a) == a,
{
    assert(merged_maps(a, a) =~= a);
}

/// Anti-entropy passes may be grouped in any way: syncing against two
/// peers one after the other equals syncing against their merge.
pub proof fn lemma_sync_associative(
    a: Map<(u64, u64), EntryV>,
    b: Map<(u64, u64), EntryV>,
    c: Map<(u64, u64), EntryV>,
)
    ensures
        merged_maps(merged_maps(a, b), c) == merged_maps(a, merged_maps(b, c)),
{
    assert(merged_maps(merged_maps(a, b), c) =~= merged_maps(a, merged_maps(b, c)));
}

/// Some row among the first `upto` bears the key (`pk`, `sk`).
pub open spec fn has_row_upto(rows: Seq<Row>, upto: int, pk: u64, sk: u64) -> bool {
    exists|j: int| 0 <= j < upto && #[trigger] rows[j].pk == pk && rows[j].sk == sk
}

/// With unique keys, the denoted map has one key per row.
proof fn lemma_rows_map_len(rows: Seq<Row>)
    requires
        rows_unique(rows),
    ensures
        rows_map(rows).dom().len() == rows.len(),
        rows_map(rows).dom().finite(),
    decreases rows.len(),
{
    if rows.len() > 0 {
        let head = rows.drop_last();
        assert(rows_unique(head)) by {
            assert(forall|i: int| 0 <= i < head.len() ==> head[i] == rows[i]);
        }
        lemma_rows_map_len(head);
        lemma_rows_map_index(head);
        assert(!rows_map(head).contains_key((rows.last().pk, rows.last().sk)));
    }
}

} // verus!
