//! Sharded, eventually consistent index counters.
//!
//! A counter is a log of uniquely identified delta operations. Each
//! increment is recorded under its operation identifier; replaying the same
//! operation changes nothing, so delivery may duplicate at will. Two
//! replicas' logs merge by union over operation identifiers, and the
//! counter's observable value is the sum of all recorded deltas: complete
//! once every delta has propagated, possibly an undercount before, never
//! an overcount and never a double count.

use vstd::prelude::*;

verus! {

/// One uniquely identified delta operation.
#[derive(Clone, Copy)]
pub struct CounterOp {
    pub op_id: u64,
    pub delta: i64,
}

/// One replica's delta log for one counter key.
pub struct CounterEntry {
    ops: Vec<CounterOp>,
}

/// The mapping a delta log denotes: operation identifier to delta.
pub open spec fn ops_map(ops: Seq<CounterOp>) -> Map<u64, i64>
    decreases ops.len(),
{
    if ops.len() == 0 {
        Map::empty()
    } else {
        ops_map(ops.drop_last()).insert(ops.last().op_id, ops.last().delta)
    }
}

/// No two recorded operations share an identifier.
pub open spec fn ops_unique(ops: Seq<CounterOp>) -> bool {
    forall|i: int, j: int|
        0 <= i < ops.len() && 0 <= j < ops.len() && i != j ==> #[trigger] ops[i].op_id
            != #[trigger] ops[j].op_id
}

/// The sum of all deltas a counter mapping records.
pub open spec fn map_total(m: Map<u64, i64>) -> int
    recommends
        m.dom().finite(),
    decreases m.dom().len(),
{
    if m.dom().finite() && m.dom().len() > 0 {
        let k = m.dom().choose();
        map_total(m.remove(k)) + m[k]
    } else {
        0
    }
}

/// Taking out any one recorded operation takes exactly its delta out of the
/// sum.
pub proof fn lemma_map_total_remove(m: Map<u64, i64>, k: u64)
    requires
        m.dom().finite(),
        m.contains_key(k),
    ensures
        map_total(m) == map_total(m.remove(k)) + m[k],
    decreases m.dom().len(),
{
    let k0 = m.dom().choose();
    assert(m.dom().contains(k0));
    if k0 != k {
        let m0 = m.remove(k0);
        lemma_map_total_remove(m0, k);
        lemma_map_total_remove(m.remove(k), k0);
        assert(m0.remove(k) =~= m.remove(k).remove(k0));
    }
}

/// Recording a fresh operation adds exactly its delta to the sum.
pub proof fn lemma_map_total_insert(m: Map<u64, i64>, k: u64, v: i64)
    requires
        m.dom().finite(),
        !m.contains_key(k),
    ensures
        map_total(m.insert(k, v)) == map_total(m) + v,
{
    lemma_map_total_remove(m.insert(k, v), k);
    assert(m.insert(k, v).remove(k) =~= m);
}

/// A counter over non-negative deltas is never negative.
pub proof fn lemma_map_total_nonneg(m: Map<u64, i64>)
    requires
        m.dom().finite(),
        forall|k: u64| #[trigger] m.contains_key(k) ==> m[k] >= 0,
    ensures
        map_total(m) >= 0,
    decreases m.dom().len(),
{
    if m.dom().len() > 0 {
        let k = m.dom().choose();
        assert(m.dom().contains(k));
        lemma_map_total_nonneg(m.remove(k));
    }
}

/// With unique identifiers, the denoted mapping indexes the log faithfully.
proof fn lemma_ops_map_index(ops: Seq<CounterOp>)
    requires
        ops_unique(ops),
    ensures
        forall|k: u64|
            ops_map(ops).contains_key(k) <==> exists|i: int|
                0 <= i < ops.len() && #[trigger] ops[i].op_id == k,
        forall|i: int|
            0 <= i < ops.len() ==> ops_map(ops).contains_key(#[trigger] ops[i].op_id) && ops_map(
                ops,
            )[ops[i].op_id] == ops[i].delta,
        ops_map(ops).dom().finite(),
        ops_map(ops).dom().len() == ops.len(),
    decreases ops.len(),
{
    if ops.len() > 0 {
        let head = ops.drop_last();
        assert(ops_unique(head)) by {
            assert(forall|i: int| 0 <= i < head.len() ==> head[i] == ops[i]);
        }
        lemma_ops_map_index(head);
        assert(!ops_map(head).contains_key(ops.last().op_id));
        assert forall|k: u64| ops_map(ops).contains_key(k) implies exists|i: int|
            0 <= i < ops.len() && #[trigger] ops[i].op_id == k by {
            if k != ops.last().op_id {
                let i = choose|i: int| 0 <= i < head.len() && #[trigger] head[i].op_id == k;
                assert(head[i] == ops[i]);
                assert(ops[i].op_id == k);
            } else {
                assert(ops[ops.len() - 1].op_id == k);
            }
        }
        assert forall|i: int| 0 <= i < ops.len() implies ops_map(ops).contains_key(
            #[trigger] ops[i].op_id,
        ) && ops_map(ops)[ops[i].op_id] == ops[i].delta by {
            if i < ops.len() - 1 {
                assert(head[i] == ops[i]);
                assert(ops[i].op_id != ops.last().op_id);
            }
        }
    }
}

impl CounterEntry {
    /// The mapping this log denotes, operation identifier to delta.
    pub closed spec fn view(&self) -> Map<u64, i64> {
        ops_map(self.ops@)
    }

    pub closed spec fn wf(&self) -> bool {
        ops_unique(self.ops@)
    }

    /// The counter's observable value: the sum of every recorded delta.
    pub open spec fn total_spec(&self) -> int {
        map_total(self@)
    }

    /// An empty log: the counter reads zero.
    pub fn new() -> (r: CounterEntry)
        ensures
            r.wf(),
            r@ == Map::<u64, i64>::empty(),
    {
        CounterEntry { ops: Vec::new() }
    }

    /// Whether an operation identifier is already recorded.
    pub fn contains_op(&self, op_id: u64) -> (r: bool)
        requires
            self.wf(),
        ensures
            r == self@.contains_key(op_id),
    {
        proof {
            lemma_ops_map_index(self.ops@);
        }
        let n = self.ops.len();
        for i in 0..n
            invariant
                n == self.ops.len(),
                self.wf(),
                forall|j: int| 0 <= j < i ==> #[trigger] self.ops@[j].op_id != op_id,
                forall|j: int|
                    0 <= j < self.ops@.len() ==> ops_map(self.ops@).contains_key(
                        #[trigger] self.ops@[j].op_id,
                    ),
                ops_map(self.ops@).contains_key(op_id) ==> exists|j: int|
                    0 <= j < self.ops@.len() && #[trigger] self.ops@[j].op_id == op_id,
        {
            if self.ops[i].op_id == op_id {
                return true;
            }
        }
        false
    }

    /// Apply a uniquely identified delta. Replaying an operation identifier
    /// that is already recorded changes nothing — the delta is not applied
    /// twice — so at-least-once delivery never inflates the counter.
    pub fn increment(&mut self, op_id: u64, delta: i64)
        requires
            old(self).wf(),
        ensures
            final(self).wf(),
            final(self)@ == if old(self)@.contains_key(op_id) {
                old(self)@
            } else {
                old(self)@.insert(op_id, delta)
            },
            final(self).total_spec() == if old(self)@.contains_key(op_id) {
                old(self).total_spec()
            } else {
                old(self).total_spec() + delta
            },
    {
        proof {
            lemma_ops_map_index(self.ops@);
        }
        if !self.contains_op(op_id) {
            let ghost ops0 = self.ops@;
            self.ops.push(CounterOp { op_id, delta });
            proof {
                assert(self.ops@.drop_last() =~= ops0);
                assert(ops_unique(self.ops@)) by {
                    assert(forall|j: int| 0 <= j < ops0.len() ==> self.ops@[j] == ops0[j]);
                    assert forall|i: int, j: int|
                        0 <= i < self.ops@.len() && 0 <= j < self.ops@.len() && i != j implies
                        #[trigger] self.ops@[i].op_id != #[trigger] self.ops@[j].op_id by {
                        if i == self.ops@.len() - 1 || j == self.ops@.len() - 1 {
                            assert(!ops_map(ops0).contains_key(op_id));
                        }
                    }
                }
                lemma_map_total_insert(ops_map(ops0), op_id, delta);
            }
        }
    }

    /// Merge another replica's log into this one: the union of the two logs
    /// over operation identifiers, keeping what is already recorded here.
    /// Both replicas record each operation's delta under the same unique
    /// identifier, so which side a shared identifier is kept from cannot
    /// matter.
    pub fn merge_from(&mut self, other: &CounterEntry)
        requires
            old(self).wf(),
            other.wf(),
        ensures
            final(self).wf(),
            final(self)@ == other@.union_prefer_right(old(self)@),
    {
        let n = other.ops.len();
        proof {
            lemma_ops_map_index(other.ops@);
            assert(ops_map(other.ops@.take(0)) =~= Map::<u64, i64>::empty());
            assert(ops_map(other.ops@.take(0)).union_prefer_right(old(self)@) =~= old(self)@);
        }
        for i in 0..n
            invariant
                n == other.ops.len(),
                other.wf(),
                self.wf(),
                forall|j: int|
                    0 <= j < other.ops@.len() ==> ops_map(other.ops@).contains_key(
                        #[trigger] other.ops@[j].op_id,
                    ) && ops_map(other.ops@)[other.ops@[j].op_id] == other.ops@[j].delta,
                self@ == ops_map(other.ops@.take(i as int)).union_prefer_right(old(self)@),
        {
            let ghost pre = ops_map(other.ops@.take(i as int));
            let op = other.ops[i];
            proof {
                assert(other.ops@.take(i as int + 1).drop_last() =~= other.ops@.take(i as int));
                assert(other.ops@.take(i as int + 1).last() == op);
                assert(ops_map(other.ops@.take(i as int + 1)) == pre.insert(op.op_id, op.delta));
            }
            if !self.contains_op(op.op_id) {
                self.increment(op.op_id, op.delta);
                proof {
                    assert(self@ =~= pre.insert(op.op_id, op.delta).union_prefer_right(
                        old(self)@,
                    ));
                }
            } else {
                proof {
                    lemma_ops_map_index_sub(other.ops@, i as int);
                    assert(!pre.contains_key(op.op_id));
                    assert(old(self)@.contains_key(op.op_id));
                    assert(self@ =~= pre.insert(op.op_id, op.delta).union_prefer_right(
                        old(self)@,
                    ));
                }
            }
        }
        proof {
            assert(other.ops@.take(n as int) =~= other.ops@);
        }
    }

    /// The counter's value: the sum of all recorded deltas. Requires the
    /// mathematical sum to fit the result type — a machine limit, not a
    /// semantic one.
    pub fn total(&self) -> (r: i64)
        requires
            self.wf(),
            i64::MIN <= self.total_spec() <= i64::MAX,
        ensures
            r == self.total_spec(),
    {
        proof {
            lemma_ops_map_index(self.ops@);
        }
        let mut acc: i128 = 0;
        let n = self.ops.len();
        for i in 0..n
            invariant
                n == self.ops.len(),
                self.wf(),
                forall|j: int|
                    0 <= j < self.ops@.len() ==> ops_map(self.ops@).contains_key(
                        #[trigger] self.ops@[j].op_id,
                    ) && ops_map(self.ops@)[self.ops@[j].op_id] == self.ops@[j].delta,
                acc == map_total(ops_map(self.ops@.take(i as int))),
                -(i as int) * 0x8000_0000_0000_0000 <= acc <= (i as int) * 0x7fff_ffff_ffff_ffff,
        {
            let ghost pre = ops_map(self.ops@.take(i as int));
            let op = self.ops[i];
            proof {
                assert(self.ops@.take(i as int + 1).drop_last() =~= self.ops@.take(i as int));
                assert(self.ops@.take(i as int + 1).last() == op);
                assert(ops_map(self.ops@.take(i as int + 1)) == pre.insert(op.op_id, op.delta));
                lemma_ops_map_index_sub(self.ops@, i as int);
                assert(!pre.contains_key(op.op_id));
                lemma_ops_map_index_sub_finite(self.ops@, i as int);
                lemma_map_total_insert(pre, op.op_id, op.delta);
            }
            acc = acc + op.delta as i128;
        }
        proof {
            assert(self.ops@.take(n as int) =~= self.ops@);
        }
        acc as i64
    }
}

/// In a log with unique identifiers, the operation at position `i` is not
/// among the first `i` positions.
proof fn lemma_ops_map_index_sub(ops: Seq<CounterOp>, i: int)
    requires
        ops_unique(ops),
        0 <= i < ops.len(),
    ensures
        !ops_map(ops.take(i)).contains_key(ops[i].op_id),
{
    let head = ops.take(i);
    assert(ops_unique(head)) by {
        assert(forall|j: int| 0 <= j < head.len() ==> head[j] == ops[j]);
    }
    lemma_ops_map_index(head);
    if ops_map(head).contains_key(ops[i].op_id) {
        let j = choose|j: int| 0 <= j < head.len() && #[trigger] head[j].op_id == ops[i].op_id;
        assert(ops[j] == head[j]);
    }
}

/// A prefix of a unique log denotes a finite mapping.
proof fn lemma_ops_map_index_sub_finite(ops: Seq<CounterOp>, i: int)
    requires
        ops_unique(ops),
        0 <= i <= ops.len(),
    ensures
        ops_map(ops.take(i)).dom().finite(),
{
    let head = ops.take(i);
    assert(ops_unique(head)) by {
        assert(forall|j: int| 0 <= j < head.len() ==> head[j] == ops[j]);
    }
    lemma_ops_map_index(head);
}

/// Merging two delta logs is symmetric: as long as the two sides agree on
/// the deltas of the operation identifiers they share — which unique
/// identification guarantees — the union does not depend on which side is
/// merged into which.
pub proof fn lemma_counter_merge_commutative(a: Map<u64, i64>, b: Map<u64, i64>)
    requires
        forall|k: u64|
            #[trigger] a.contains_key(k) && #[trigger] b.contains_key(k) ==> a[k] == b[k],
    ensures
        a.union_prefer_right(b) == b.union_prefer_right(a),
{
    assert(a.union_prefer_right(b) =~= b.union_prefer_right(a));
}

/// The observable counter value converges: merged in either order, two
/// agreeing logs sum to the same value.
pub proof fn lemma_counter_value_convergence(a: Map<u64, i64>, b: Map<u64, i64>)
    requires
        forall|k: u64|
            #[trigger] a.contains_key(k) && #[trigger] b.contains_key(k) ==> a[k] == b[k],
    ensures
        map_total(a.union_prefer_right(b)) == map_total(b.union_prefer_right(a)),
{
    lemma_counter_merge_commutative(a, b);
}

} // verus!
