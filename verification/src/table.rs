//! The replicated table engine: quorum writes, quorum reads with merge,
//! deletion by tombstone, read repair, and anti-entropy pull.
//!
//! A [`Cluster`] holds one [`Store`] per node for one table. An operation is
//! handed the replica set responsible for the partition (resolved by ring
//! lookup) and the current reachability of each node; it fans out to the
//! reachable replicas and succeeds only when the configured quorum is met.
//! A shortfall is reported as [`Error::InsufficientReplicas`], never as a
//! silent partial result.

use vstd::prelude::*;
use vstd::set_lib::{lemma_len_subset, lemma_set_disjoint_lens};

use crate::crdt::{
    clone_entry, lemma_merge_all_of_dominant, merge, merge_all, merge_v, wins, Entry, EntryV,
};
use crate::store::{merge_inserted, Store};
use crate::{Error, ShardedParams};

verus! {

/// One replicated table: the node-local keyspaces of every cluster node,
/// and the replication parameters the table was configured with.
pub struct Cluster {
    pub params: ShardedParams,
    pub nodes: Vec<Store>,
}

/// A valid replica set for a cluster of `n` nodes: distinct node indices,
/// each in range.
pub open spec fn replicas_ok(replicas: Seq<usize>, n: int) -> bool {
    &&& forall|k: int| 0 <= k < replicas.len() ==> #[trigger] replicas[k] < n
    &&& forall|k: int, l: int|
        0 <= k < replicas.len() && 0 <= l < replicas.len() && k != l ==> #[trigger] replicas[k]
            != #[trigger] replicas[l]
}

/// How many of the first `j` replicas are reachable: the acknowledgements a
/// fan-out over them would gather.
pub open spec fn acks_upto(replicas: Seq<usize>, reachable: Seq<bool>, j: int) -> int
    decreases j,
{
    if j <= 0 {
        0
    } else {
        acks_upto(replicas, reachable, j - 1) + if reachable[replicas[j - 1] as int] {
            1int
        } else {
            0int
        }
    }
}

/// The node `n` receives a fan-out over `replicas`: it is one of them and
/// currently reachable.
pub open spec fn fan_out_hits(replicas: Seq<usize>, reachable: Seq<bool>, n: int) -> bool {
    exists|k: int| 0 <= k < replicas.len() && #[trigger] replicas[k] == n && reachable[n]
}

impl Cluster {
    /// The mapping node `i` holds for this table.
    pub closed spec fn node_view(&self, i: int) -> Map<(u64, u64), EntryV> {
        self.nodes@[i]@
    }

    pub closed spec fn n_nodes(&self) -> int {
        self.nodes@.len() as int
    }

    pub closed spec fn wf(&self) -> bool {
        &&& self.params.valid()
        &&& forall|i: int| 0 <= i < self.nodes@.len() ==> (#[trigger] self.nodes@[i]).wf()
    }

    /// A fresh table over `n` empty nodes.
    pub fn new(params: ShardedParams, n: usize) -> (r: Cluster)
        requires
            params.valid(),
        ensures
            r.wf(),
            r.params == params,
            r.n_nodes() == n,
            forall|i: int| 0 <= i < n ==> r.node_view(i) == Map::<(u64, u64), EntryV>::empty(),
    {
        let mut nodes: Vec<Store> = Vec::new();
        for i in 0..n
            invariant
                nodes@.len() == i,
                forall|j: int| 0 <= j < i ==> (#[trigger] nodes@[j]).wf(),
                forall|j: int|
                    0 <= j < i ==> #[trigger] nodes@[j]@ == Map::<(u64, u64), EntryV>::empty(),
        {
            nodes.push(Store::new());
        }
        Cluster { params, nodes }
    }

    pub fn node_count(&self) -> (r: usize)
        ensures
            r == self.n_nodes(),
    {
        self.nodes.len()
    }

    /// Fan an entry out to every reachable replica; each replica persists by
    /// merge, never by blind overwrite. Returns the number of
    /// acknowledgements gathered. Unreachable replicas and nodes outside the
    /// replica set are untouched.
    fn fan_out(
        &mut self,
        pk: u64,
        sk: u64,
        entry: &Entry,
        replicas: &Vec<usize>,
        reachable: &Vec<bool>,
    ) -> (acks: usize)
        requires
            old(self).wf(),
            replicas_ok(replicas@, old(self).n_nodes()),
            reachable@.len() == old(self).n_nodes(),
        ensures
            final(self).wf(),
            final(self).params == old(self).params,
            final(self).n_nodes() == old(self).n_nodes(),
            acks == acks_upto(replicas@, reachable@, replicas@.len() as int),
            forall|n: int|
                0 <= n < old(self).n_nodes() ==> final(self).node_view(n) == (
                if fan_out_hits(replicas@, reachable@, n) {
                    merge_inserted(old(self).node_view(n), pk, sk, entry@)
                } else {
                    old(self).node_view(n)
                }),
    {
        let mut acks: usize = 0;
        let m = replicas.len();
        for j in 0..m
            invariant
                m == replicas@.len(),
                self.wf(),
                self.params == old(self).params,
                self.n_nodes() == old(self).n_nodes(),
                replicas_ok(replicas@, old(self).n_nodes()),
                reachable@.len() == old(self).n_nodes(),
                acks == acks_upto(replicas@, reachable@, j as int),
                acks <= j,
                forall|n: int|
                    0 <= n < old(self).n_nodes() ==> self.node_view(n) == (
                    if fan_out_hits(replicas@.take(j as int), reachable@, n) {
                        merge_inserted(old(self).node_view(n), pk, sk, entry@)
                    } else {
                        old(self).node_view(n)
                    }),
        {
            let ghost self0 = *self;
            let n = replicas[j];
            if reachable[n] {
                proof {
                    assert(!fan_out_hits(replicas@.take(j as int), reachable@, n as int));
                }
                let e = clone_entry(entry);
                self.nodes[n].merge_insert(pk, sk, e);
                proof {
                    assert(self.nodes@.len() == self0.nodes@.len());
                    assert(forall|k: int|
                        0 <= k < self0.nodes@.len() && k != n ==> self.nodes@[k]
                            == self0.nodes@[k]);
                    assert(self.nodes@[n as int]@ == merge_inserted(
                        self0.nodes@[n as int]@,
                        pk,
                        sk,
                        entry@,
                    ));
                }
                acks = acks + 1;
            }
            proof {
                assert forall|n0: int| 0 <= n0 < old(self).n_nodes() implies self.node_view(n0)
                    == (if fan_out_hits(replicas@.take(j as int + 1), reachable@, n0) {
                    merge_inserted(old(self).node_view(n0), pk, sk, entry@)
                } else {
                    old(self).node_view(n0)
                }) by {
                    let pre = replicas@.take(j as int);
                    let post = replicas@.take(j as int + 1);
                    assert(self0.node_view(n0) == (if fan_out_hits(pre, reachable@, n0) {
                        merge_inserted(old(self).node_view(n0), pk, sk, entry@)
                    } else {
                        old(self).node_view(n0)
                    }));
                    assert(forall|k: int| 0 <= k < j ==> post[k] == pre[k]);
                    assert(post[j as int] == replicas@[j as int]);
                    if fan_out_hits(post, reachable@, n0) {
                        let k = choose|k: int|
                            0 <= k < post.len() && #[trigger] post[k] == n0 && reachable@[n0];
                        if k < j {
                            assert(fan_out_hits(pre, reachable@, n0));
                        }
                    }
                    if fan_out_hits(pre, reachable@, n0) {
                        let k = choose|k: int|
                            0 <= k < pre.len() && #[trigger] pre[k] == n0 && reachable@[n0];
                        assert(post[k] == n0);
                        assert(fan_out_hits(post, reachable@, n0));
                    }
                }
            }
        }
        proof {
            assert(replicas@.take(m as int) =~= replicas@);
        }
        acks
    }

    /// Quorum write: fan the entry out to the reachable replicas of its
    /// partition and succeed once at least `write_quorum` of them have
    /// persisted it (by merge). The entries persisted at unreachable
    /// replicas' peers remain in place even when the quorum is missed: a
    /// failed write is not rolled back, it merely reports the shortfall.
    pub fn write(
        &mut self,
        pk: u64,
        sk: u64,
        entry: &Entry,
        replicas: &Vec<usize>,
        reachable: &Vec<bool>,
    ) -> (r: Result<(), Error>)
        requires
            old(self).wf(),
            replicas_ok(replicas@, old(self).n_nodes()),
            reachable@.len() == old(self).n_nodes(),
        ensures
            final(self).wf(),
            final(self).params == old(self).params,
            final(self).n_nodes() == old(self).n_nodes(),
            forall|n: int|
                0 <= n < old(self).n_nodes() ==> final(self).node_view(n) == (
                if fan_out_hits(replicas@, reachable@, n) {
                    merge_inserted(old(self).node_view(n), pk, sk, entry@)
                } else {
                    old(self).node_view(n)
                }),
            r is Ok <==> acks_upto(replicas@, reachable@, replicas@.len() as int)
                >= old(self).params.write_quorum,
            r is Err ==> r == Err::<(), Error>(Error::InsufficientReplicas),
    {
        let acks = self.fan_out(pk, sk, entry, replicas, reachable);
        proof {
            lemma_acks_upto_bound(replicas@, reachable@, replicas@.len() as int);
        }
        if acks as u64 >= self.params.write_quorum {
            Ok(())
        } else {
            Err(Error::InsufficientReplicas)
        }
    }

    /// Deletion is a write of a tombstone with a fresh timestamp, never a
    /// physical removal: the tombstone must itself win the merge everywhere
    /// before the row can later be compacted away.
    pub fn delete(
        &mut self,
        pk: u64,
        sk: u64,
        timestamp: u64,
        node: u64,
        replicas: &Vec<usize>,
        reachable: &Vec<bool>,
    ) -> (r: Result<(), Error>)
        requires
            old(self).wf(),
            replicas_ok(replicas@, old(self).n_nodes()),
            reachable@.len() == old(self).n_nodes(),
        ensures
            final(self).wf(),
            final(self).params == old(self).params,
            final(self).n_nodes() == old(self).n_nodes(),
            forall|n: int|
                0 <= n < old(self).n_nodes() ==> final(self).node_view(n) == (
                if fan_out_hits(replicas@, reachable@, n) {
                    merge_inserted(
                        old(self).node_view(n),
                        pk,
                        sk,
                        EntryV { timestamp, node, deleted: true, value: Seq::empty() },
                    )
                } else {
                    old(self).node_view(n)
                }),
            r is Ok <==> acks_upto(replicas@, reachable@, replicas@.len() as int)
                >= old(self).params.write_quorum,
            r is Err ==> r == Err::<(), Error>(Error::InsufficientReplicas),
    {
        let tombstone = Entry { timestamp, node, deleted: true, value: Vec::new() };
        proof {
            assert(tombstone@ == EntryV { timestamp, node, deleted: true, value: Seq::empty() });
        }
        self.write(pk, sk, &tombstone, replicas, reachable)
    }

    /// The entries a quorum read would gather for a key from the first `j`
    /// replicas: one per reachable replica holding the key, in replica-set
    /// order.
    pub open spec fn gathered_upto(
        &self,
        replicas: Seq<usize>,
        reachable: Seq<bool>,
        pk: u64,
        sk: u64,
        j: int,
    ) -> Seq<EntryV>
        decreases j,
    {
        if j <= 0 {
            Seq::empty()
        } else {
            let rest = self.gathered_upto(replicas, reachable, pk, sk, j - 1);
            let n = replicas[j - 1] as int;
            if reachable[n] && self.node_view(n).contains_key((pk, sk)) {
                rest.push(self.node_view(n)[(pk, sk)])
            } else {
                rest
            }
        }
    }

    /// All entries a quorum read would gather for a key.
    pub open spec fn gathered(
        &self,
        replicas: Seq<usize>,
        reachable: Seq<bool>,
        pk: u64,
        sk: u64,
    ) -> Seq<EntryV> {
        self.gathered_upto(replicas, reachable, pk, sk, replicas.len() as int)
    }

    /// Quorum read: collect the entry each reachable replica holds for the
    /// key and return their merge; `None` when no responder holds the key.
    /// Fails with `InsufficientReplicas` when fewer than `read_quorum`
    /// replicas respond — never a partial result.
    pub fn read(
        &self,
        pk: u64,
        sk: u64,
        replicas: &Vec<usize>,
        reachable: &Vec<bool>,
    ) -> (r: Result<Option<Entry>, Error>)
        requires
            self.wf(),
            replicas_ok(replicas@, self.n_nodes()),
            reachable@.len() == self.n_nodes(),
        ensures
            match r {
                Ok(opt) => {
                    &&& acks_upto(replicas@, reachable@, replicas@.len() as int)
                        >= self.params.read_quorum
                    &&& match opt {
                        Some(e) => self.gathered(replicas@, reachable@, pk, sk).len() > 0 && e@
                            == merge_all(self.gathered(replicas@, reachable@, pk, sk)),
                        None => self.gathered(replicas@, reachable@, pk, sk).len() == 0,
                    }
                },
                Err(e) => e == Error::InsufficientReplicas && acks_upto(
                    replicas@,
                    reachable@,
                    replicas@.len() as int,
                ) < self.params.read_quorum,
            },
    {
        let mut acks: usize = 0;
        let mut acc: Option<Entry> = None;
        let m = replicas.len();
        for j in 0..m
            invariant
                m == replicas@.len(),
                self.wf(),
                replicas_ok(replicas@, self.n_nodes()),
                reachable@.len() == self.n_nodes(),
                acks == acks_upto(replicas@, reachable@, j as int),
                acks <= j,
                match acc {
                    Some(e) => self.gathered_upto(replicas@, reachable@, pk, sk, j as int).len()
                        > 0 && e@ == merge_all(
                        self.gathered_upto(replicas@, reachable@, pk, sk, j as int),
                    ),
                    None => self.gathered_upto(replicas@, reachable@, pk, sk, j as int).len() == 0,
                },
        {
            let n = replicas[j];
            if reachable[n] {
                acks = acks + 1;
                let ghost pre = self.gathered_upto(replicas@, reachable@, pk, sk, j as int);
                match self.nodes[n].get(pk, sk) {
                    Some(stored) => {
                        let got = clone_entry(stored);
                        proof {
                            assert(self.gathered_upto(replicas@, reachable@, pk, sk, j as int + 1)
                                == pre.push(got@));
                            if pre.len() > 0 {
                                assert(pre.push(got@).drop_last() =~= pre);
                                assert(merge_all(pre.push(got@)) == merge_v(merge_all(pre), got@));
                            } else {
                                assert(pre.push(got@)[0] == got@);
                            }
                        }
                        acc = match acc {
                            None => Some(got),
                            Some(a) => Some(merge(a, got)),
                        };
                    },
                    None => {
                        proof {
                            assert(self.gathered_upto(replicas@, reachable@, pk, sk, j as int + 1)
                                == pre);
                        }
                    },
                }
            } else {
                proof {
                    assert(self.gathered_upto(replicas@, reachable@, pk, sk, j as int + 1)
                        == self.gathered_upto(replicas@, reachable@, pk, sk, j as int));
                }
            }
        }
        proof {
            lemma_acks_upto_bound(replicas@, reachable@, replicas@.len() as int);
        }
        if acks as u64 >= self.params.read_quorum {
            Ok(acc)
        } else {
            Err(Error::InsufficientReplicas)
        }
    }

    /// Some replica among the first `upto` of the replica set is reachable
    /// and holds the key.
    pub open spec fn held_within(
        &self,
        replicas: Seq<usize>,
        reachable: Seq<bool>,
        pk: u64,
        sk: u64,
        upto: int,
    ) -> bool {
        exists|k: int|
            0 <= k < upto && reachable[#[trigger] replicas[k] as int] && self.node_view(
                replicas[k] as int,
            ).contains_key((pk, sk))
    }

    /// Range read: the quorum-and-merge discipline of [`Self::read`]
    /// applied per key across a sort-key range, returning up to `limit`
    /// merged entries in ascending sort-key order. When fewer than `limit`
    /// entries come back, the range was exhausted: every key in the range
    /// that any reachable replica holds is in the result.
    pub fn read_range(
        &self,
        pk: u64,
        sk_begin: u64,
        sk_end: u64,
        limit: usize,
        replicas: &Vec<usize>,
        reachable: &Vec<bool>,
    ) -> (r: Result<Vec<(u64, Entry)>, Error>)
        requires
            self.wf(),
            replicas_ok(replicas@, self.n_nodes()),
            reachable@.len() == self.n_nodes(),
        ensures
            match r {
                Ok(out) => {
                    &&& acks_upto(replicas@, reachable@, replicas@.len() as int)
                        >= self.params.read_quorum
                    &&& out@.len() <= limit
                    &&& forall|t1: int, t2: int|
                        0 <= t1 < t2 < out@.len() ==> (#[trigger] out@[t1]).0
                            < (#[trigger] out@[t2]).0
                    &&& forall|t: int|
                        0 <= t < out@.len() ==> sk_begin <= (#[trigger] out@[t]).0 < sk_end
                            && self.gathered(replicas@, reachable@, pk, out@[t].0).len() > 0
                            && out@[t].1@ == merge_all(
                            self.gathered(replicas@, reachable@, pk, out@[t].0),
                        )
                    &&& out@.len() < limit ==> forall|sk: u64|
                        sk_begin <= sk < sk_end && #[trigger] self.held_within(
                            replicas@,
                            reachable@,
                            pk,
                            sk,
                            replicas@.len() as int,
                        ) ==> exists|t: int| 0 <= t < out@.len() && (#[trigger] out@[t]).0 == sk
                },
                Err(e) => e == Error::InsufficientReplicas && acks_upto(
                    replicas@,
                    reachable@,
                    replicas@.len() as int,
                ) < self.params.read_quorum,
            },
    {
        // Quorum check first: a shortfall is reported, never a partial scan.
        let mut acks: usize = 0;
        let m = replicas.len();
        for j in 0..m
            invariant
                m == replicas@.len(),
                reachable@.len() == self.n_nodes(),
                replicas_ok(replicas@, self.n_nodes()),
                acks == acks_upto(replicas@, reachable@, j as int),
                acks <= j,
        {
            if reachable[replicas[j]] {
                acks = acks + 1;
            }
        }
        proof {
            lemma_acks_upto_bound(replicas@, reachable@, replicas@.len() as int);
        }
        if (acks as u64) < self.params.read_quorum {
            return Err(Error::InsufficientReplicas);
        }
        // Gather the candidate sort keys every reachable replica holds in
        // the range, deduplicated and ascending.
        let mut cands: Vec<u64> = Vec::new();
        for k in 0..m
            invariant
                m == replicas@.len(),
                self.wf(),
                reachable@.len() == self.n_nodes(),
                replicas_ok(replicas@, self.n_nodes()),
                sorted_strict(cands@),
                forall|sk: u64|
                    #![trigger cands@.contains(sk)]
                    #![trigger self.held_within(replicas@, reachable@, pk, sk, k as int)]
                    cands@.contains(sk) <==> self.held_within(
                        replicas@,
                        reachable@,
                        pk,
                        sk,
                        k as int,
                    ) && sk_begin <= sk < sk_end,
        {
            let n = replicas[k];
            if reachable[n] {
                let keys = self.nodes[n].range_sort_keys(pk, sk_begin, sk_end);
                let ghost cands_before = cands@;
                let kn = keys.len();
                for t in 0..kn
                    invariant
                        kn == keys@.len(),
                        sorted_strict(cands@),
                        forall|sk: u64|
                            keys@.contains(sk) <==> self.node_view(
                                replicas@[k as int] as int,
                            ).contains_key((pk, sk)) && sk_begin <= sk < sk_end,
                        forall|sk: u64|
                            #[trigger] cands@.contains(sk) ==> cands_before.contains(sk) || exists|t2: int|
                                0 <= t2 < t && #[trigger] keys@[t2] == sk,
                        forall|sk: u64|
                            cands_before.contains(sk) || (exists|t2: int|
                                0 <= t2 < t && #[trigger] keys@[t2] == sk) ==> #[trigger] cands@.contains(sk),
                {
                    let ghost cpre = cands@;
                    insert_sorted(&mut cands, keys[t]);
                    proof {
                        assert forall|sk: u64| cands@.contains(sk) implies cands_before.contains(
                            sk,
                        ) || exists|t2: int| 0 <= t2 < t + 1 && #[trigger] keys@[t2] == sk by {
                            assert(cpre.contains(sk) || sk == keys@[t as int]);
                            if sk == keys@[t as int] {
                                assert(keys@[t as int] == sk);
                            } else {
                                assert(cpre.contains(sk));
                                assert(cands_before.contains(sk) || exists|t2: int|
                                    0 <= t2 < t && #[trigger] keys@[t2] == sk);
                                if !cands_before.contains(sk) {
                                    let t2 = choose|t2: int|
                                        0 <= t2 < t && #[trigger] keys@[t2] == sk;
                                    assert(keys@[t2] == sk);
                                }
                            }
                        }
                        assert forall|sk: u64|
                            cands_before.contains(sk) || exists|t2: int|
                                0 <= t2 < t + 1 && #[trigger] keys@[t2] == sk implies
                            cands@.contains(sk) by {
                            if cands_before.contains(sk) {
                                assert(cpre.contains(sk));
                            } else {
                                let t2 = choose|t2: int|
                                    0 <= t2 < t + 1 && #[trigger] keys@[t2] == sk;
                                if t2 < t {
                                    assert(cpre.contains(sk));
                                } else {
                                    assert(sk == keys@[t as int]);
                                }
                            }
                            assert(cpre.contains(sk) || sk == keys@[t as int]);
                        }
                    }
                }
                proof {
                    assert forall|sk: u64| #[trigger] cands@.contains(sk) implies
                        self.held_within(replicas@, reachable@, pk, sk, k as int + 1) && sk_begin
                        <= sk < sk_end by {
                        if cands_before.contains(sk) {
                            assert(self.held_within(replicas@, reachable@, pk, sk, k as int)
                                && sk_begin <= sk < sk_end);
                            let k2 = choose|k2: int|
                                0 <= k2 < k && reachable@[#[trigger] replicas@[k2] as int]
                                    && self.node_view(replicas@[k2] as int).contains_key(
                                    (pk, sk),
                                );
                            assert(reachable@[replicas@[k2] as int]);
                        } else {
                            let t2 = choose|t2: int|
                                0 <= t2 < kn && #[trigger] keys@[t2] == sk;
                            assert(keys@.contains(sk));
                            assert(reachable@[replicas@[k as int] as int] && self.node_view(
                                replicas@[k as int] as int,
                            ).contains_key((pk, sk)));
                        }
                    }
                    assert forall|sk: u64|
                        #[trigger] self.held_within(replicas@, reachable@, pk, sk, k as int + 1)
                            && sk_begin <= sk < sk_end implies cands@.contains(sk) by {
                        let k2 = choose|k2: int|
                            0 <= k2 < k + 1 && reachable@[#[trigger] replicas@[k2] as int]
                                && self.node_view(replicas@[k2] as int).contains_key((pk, sk));
                        if k2 < k {
                            assert(self.held_within(replicas@, reachable@, pk, sk, k as int));
                            assert(cands_before.contains(sk));
                        } else {
                            assert(keys@.contains(sk));
                            let t2 = choose|t2: int| 0 <= t2 < keys@.len() && keys@[t2] == sk;
                            assert(keys@[t2] == sk);
                        }
                    }
                }
            } else {
                proof {
                    assert forall|sk: u64| #[trigger] cands@.contains(sk) implies
                        self.held_within(replicas@, reachable@, pk, sk, k as int + 1) && sk_begin
                        <= sk < sk_end by {
                        assert(self.held_within(replicas@, reachable@, pk, sk, k as int));
                        let k2 = choose|k2: int|
                            0 <= k2 < k && reachable@[#[trigger] replicas@[k2] as int]
                                && self.node_view(replicas@[k2] as int).contains_key((pk, sk));
                        assert(reachable@[replicas@[k2] as int]);
                    }
                    assert forall|sk: u64| #[trigger] self.held_within(
                        replicas@,
                        reachable@,
                        pk,
                        sk,
                        k as int + 1,
                    ) && sk_begin <= sk < sk_end implies cands@.contains(sk) by {
                        let k2 = choose|k2: int|
                            0 <= k2 < k + 1 && reachable@[#[trigger] replicas@[k2] as int]
                                && self.node_view(replicas@[k2] as int).contains_key((pk, sk));
                        assert(k2 < k);
                        assert(self.held_within(replicas@, reachable@, pk, sk, k as int));
                    }
                }
            }
        }
        // Merge per key, in ascending order, up to the limit.
        let take_n = if cands.len() <= limit {
            cands.len()
        } else {
            limit
        };
        let mut out: Vec<(u64, Entry)> = Vec::new();
        for idx in 0..take_n
            invariant
                take_n <= cands@.len(),
                take_n <= limit,
                take_n == if cands@.len() <= limit {
                    cands@.len() as int
                } else {
                    limit as int
                },
                m == replicas@.len(),
                self.wf(),
                reachable@.len() == self.n_nodes(),
                replicas_ok(replicas@, self.n_nodes()),
                sorted_strict(cands@),
                acks_upto(replicas@, reachable@, replicas@.len() as int)
                    >= self.params.read_quorum,
                forall|sk: u64|
                    #![trigger cands@.contains(sk)]
                    #![trigger self.held_within(replicas@, reachable@, pk, sk, replicas@.len() as int)]
                    cands@.contains(sk) <==> self.held_within(
                        replicas@,
                        reachable@,
                        pk,
                        sk,
                        replicas@.len() as int,
                    ) && sk_begin <= sk < sk_end,
                out@.len() == idx,
                forall|t: int| 0 <= t < idx ==> (#[trigger] out@[t]).0 == cands@[t],
                forall|t: int|
                    0 <= t < idx ==> sk_begin <= (#[trigger] out@[t]).0 < sk_end && self.gathered(
                        replicas@,
                        reachable@,
                        pk,
                        out@[t].0,
                    ).len() > 0 && out@[t].1@ == merge_all(
                        self.gathered(replicas@, reachable@, pk, out@[t].0),
                    ),
        {
            let sk = cands[idx];
            proof {
                assert(cands@.contains(sk)) by {
                    assert(cands@[idx as int] == sk);
                }
                let k2 = choose|k2: int|
                    0 <= k2 < replicas@.len() && reachable@[#[trigger] replicas@[k2] as int]
                        && self.node_view(replicas@[k2] as int).contains_key((pk, sk));
                lemma_gathered_sources(
                    self,
                    replicas@,
                    reachable@,
                    pk,
                    sk,
                    replicas@.len() as int,
                );
                assert(self.gathered(replicas@, reachable@, pk, sk).contains(
                    self.node_view(replicas@[k2] as int)[(pk, sk)],
                ));
            }
            match self.read(pk, sk, replicas, reachable) {
                Ok(Some(e)) => {
                    out.push((sk, e));
                },
                _ => {
                    // Unreachable: the key is held by a reachable replica
                    // and the read quorum was already checked.
                    proof {
                        assert(false);
                    }
                },
            }
        }
        proof {
            assert forall|t1: int, t2: int| 0 <= t1 < t2 < out@.len() implies (
            #[trigger] out@[t1]).0 < (#[trigger] out@[t2]).0 by {
                assert(out@[t1].0 == cands@[t1] && out@[t2].0 == cands@[t2]);
            }
            if out.len() < limit {
                assert forall|sk: u64|
                    sk_begin <= sk < sk_end && #[trigger] self.held_within(
                        replicas@,
                        reachable@,
                        pk,
                        sk,
                        replicas@.len() as int,
                    ) implies exists|t: int| 0 <= t < out@.len() && (#[trigger] out@[t]).0
                    == sk by {
                    assert(cands@.contains(sk));
                    let t = choose|t: int| 0 <= t < cands@.len() && cands@[t] == sk;
                    assert(out@[t].0 == cands@[t]);
                }
            }
        }
        Ok(out)
    }

    /// One step of anti-entropy: node `to` pulls every row node `from`
    /// holds for this table and merges it in. An offline-then-recovered
    /// replica, or one added after the fact, catches up this way without
    /// the original writers retrying; a full pass over all pairs leaves
    /// every replica with the per-key merge of everything written.
    pub fn sync_pull(&mut self, to: usize, from: usize)
        requires
            old(self).wf(),
            to < old(self).n_nodes(),
            from < old(self).n_nodes(),
        ensures
            final(self).wf(),
            final(self).params == old(self).params,
            final(self).n_nodes() == old(self).n_nodes(),
            final(self).node_view(to as int) == crate::store::merged_maps(
                old(self).node_view(to as int),
                old(self).node_view(from as int),
            ),
            forall|n: int|
                0 <= n < old(self).n_nodes() && n != to ==> final(self).node_view(n) == old(
                    self,
                ).node_view(n),
    {
        let src = self.nodes[from].duplicate();
        let ghost self0 = *self;
        self.nodes[to].sync_from(&src);
        proof {
            assert(forall|n: int|
                0 <= n < self0.nodes@.len() && n != to ==> self.nodes@[n] == self0.nodes@[n]);
        }
    }

    /// Read repair: push the merged entry a read produced back to the
    /// replicas, so that a responder that held a stale value is brought
    /// current. No quorum applies: it is a best-effort background write.
    pub fn read_repair(
        &mut self,
        pk: u64,
        sk: u64,
        entry: &Entry,
        replicas: &Vec<usize>,
        reachable: &Vec<bool>,
    )
        requires
            old(self).wf(),
            replicas_ok(replicas@, old(self).n_nodes()),
            reachable@.len() == old(self).n_nodes(),
        ensures
            final(self).wf(),
            final(self).params == old(self).params,
            final(self).n_nodes() == old(self).n_nodes(),
            forall|n: int|
                0 <= n < old(self).n_nodes() ==> final(self).node_view(n) == (
                if fan_out_hits(replicas@, reachable@, n) {
                    merge_inserted(old(self).node_view(n), pk, sk, entry@)
                } else {
                    old(self).node_view(n)
                }),
    {
        let _ = self.fan_out(pk, sk, entry, replicas, reachable);
    }
}

/// Strictly ascending sort keys.
pub open spec fn sorted_strict(s: Seq<u64>) -> bool {
    forall|i: int, j: int| 0 <= i < j < s.len() ==> s[i] < s[j]
}

/// Insert a sort key into an ascending list of distinct keys, keeping it
/// ascending; inserting a key already present changes nothing.
fn insert_sorted(v: &mut Vec<u64>, x: u64)
    requires
        sorted_strict(old(v)@),
    ensures
        sorted_strict(final(v)@),
        forall|y: u64| final(v)@.contains(y) <==> old(v)@.contains(y) || y == x,
{
    let n = v.len();
    let mut p: usize = 0;
    while p < n && v[p] < x
        invariant
            n == v.len(),
            v@ == old(v)@,
            p <= n,
            forall|t: int| 0 <= t < p ==> v@[t] < x,
        decreases n - p,
    {
        p = p + 1;
    }
    if p < n && v[p] == x {
        proof {
            assert(v@.contains(x)) by {
                assert(v@[p as int] == x);
            }
        }
        return ;
    }
    let ghost v0 = v@;
    v.insert(p, x);
    proof {
        v0.insert_ensures(p as int, x);
        assert(sorted_strict(v@)) by {
            assert forall|t1: int, t2: int| 0 <= t1 < t2 < v@.len() implies v@[t1] < v@[t2] by {
                if t2 < p {
                } else if t1 > p {
                    assert(v@[t1] == v0[t1 - 1] && v@[t2] == v0[t2 - 1]);
                } else if t1 == p {
                    assert(v@[t2] == v0[t2 - 1]);
                    assert(v0[t2 - 1] >= v0[p as int]);
                    assert(v0[p as int] > x);
                } else if t2 == p {
                    assert(v@[t1] == v0[t1]);
                } else {
                    assert(v@[t1] == v0[t1] && v@[t2] == v0[t2 - 1]);
                    if t2 - 1 == p {
                    } else {
                        assert(v0[t2 - 1] >= v0[p as int]);
                    }
                }
            }
        }
        assert forall|y: u64| v@.contains(y) implies v0.contains(y) || y == x by {
            let t = choose|t: int| 0 <= t < v@.len() && v@[t] == y;
            if t < p {
                assert(v0[t] == y);
            } else if t > p {
                assert(v0[t - 1] == y);
            }
        }
        assert forall|y: u64| v0.contains(y) || y == x implies v@.contains(y) by {
            if v0.contains(y) {
                let t = choose|t: int| 0 <= t < v0.len() && v0[t] == y;
                if t < p {
                    assert(v@[t] == y);
                } else {
                    assert(v@[t + 1] == y);
                }
            } else {
                assert(v@[p as int] == y);
            }
        }
    }
}

/// No fan-out gathers more acknowledgements than it has replicas.
proof fn lemma_acks_upto_bound(replicas: Seq<usize>, reachable: Seq<bool>, j: int)
    requires
        0 <= j,
    ensures
        acks_upto(replicas, reachable, j) <= j,
        0 <= acks_upto(replicas, reachable, j),
    decreases j,
{
    if j > 0 {
        lemma_acks_upto_bound(replicas, reachable, j - 1);
    }
}

/// Everything a quorum read gathers is the entry some reachable replica
/// holds for the key, and every reachable replica holding the key
/// contributes its entry.
proof fn lemma_gathered_sources(
    c: &Cluster,
    replicas: Seq<usize>,
    reachable: Seq<bool>,
    pk: u64,
    sk: u64,
    j: int,
)
    requires
        0 <= j <= replicas.len(),
    ensures
        forall|t: int|
            0 <= t < c.gathered_upto(replicas, reachable, pk, sk, j).len() ==> exists|k: int|
                0 <= k < j && reachable[#[trigger] replicas[k] as int] && c.node_view(
                    replicas[k] as int,
                ).contains_key((pk, sk)) && #[trigger] c.gathered_upto(
                    replicas,
                    reachable,
                    pk,
                    sk,
                    j,
                )[t] == c.node_view(replicas[k] as int)[(pk, sk)],
        forall|k: int|
            0 <= k < j && reachable[#[trigger] replicas[k] as int] && c.node_view(
                replicas[k] as int,
            ).contains_key((pk, sk)) ==> c.gathered_upto(replicas, reachable, pk, sk, j).contains(
                c.node_view(replicas[k] as int)[(pk, sk)],
            ),
    decreases j,
{
    if j > 0 {
        lemma_gathered_sources(c, replicas, reachable, pk, sk, j - 1);
        let rest = c.gathered_upto(replicas, reachable, pk, sk, j - 1);
        let cur = c.gathered_upto(replicas, reachable, pk, sk, j);
        let n = replicas[j - 1] as int;
        assert forall|t: int| 0 <= t < cur.len() implies exists|k: int|
            0 <= k < j && reachable[#[trigger] replicas[k] as int] && c.node_view(
                replicas[k] as int,
            ).contains_key((pk, sk)) && #[trigger] cur[t] == c.node_view(replicas[k] as int)[(
                pk,
                sk,
            )] by {
            if t < rest.len() {
                assert(cur[t] == rest[t]);
                let k = choose|k: int|
                    0 <= k < j - 1 && reachable[#[trigger] replicas[k] as int] && c.node_view(
                        replicas[k] as int,
                    ).contains_key((pk, sk)) && rest[t] == c.node_view(replicas[k] as int)[(
                        pk,
                        sk,
                    )];
                assert(0 <= k < j && reachable[replicas[k] as int] && c.node_view(
                    replicas[k] as int,
                ).contains_key((pk, sk)) && cur[t] == c.node_view(replicas[k] as int)[(pk, sk)]);
            } else {
                assert(reachable[n] && c.node_view(n).contains_key((pk, sk)));
                assert(cur[t] == c.node_view(n)[(pk, sk)]);
                assert(0 <= j - 1 < j && reachable[replicas[j - 1] as int] && c.node_view(
                    replicas[j - 1] as int,
                ).contains_key((pk, sk)) && cur[t] == c.node_view(replicas[j - 1] as int)[(
                    pk,
                    sk,
                )]);
            }
        }
        assert forall|k: int|
            0 <= k < j && reachable[#[trigger] replicas[k] as int] && c.node_view(
                replicas[k] as int,
            ).contains_key((pk, sk)) implies cur.contains(
            c.node_view(replicas[k] as int)[(pk, sk)],
        ) by {
            if k < j - 1 {
                let v = c.node_view(replicas[k] as int)[(pk, sk)];
                let t = choose|t: int| 0 <= t < rest.len() && rest[t] == v;
                if reachable[n] && c.node_view(n).contains_key((pk, sk)) {
                    assert(cur[t] == v);
                } else {
                    assert(cur == rest);
                }
            } else {
                assert(cur.last() == c.node_view(n)[(pk, sk)]);
            }
        }
    }
}

/// Read-after-write: if a write of entry `e` was acknowledged by a write
/// quorum of its replica set, no replica holds anything newer for the key,
/// and a read finds a read quorum of replicas reachable, then the read's
/// merged result is exactly `e` — some acknowledging replica answers every
/// read quorum. `w` is the set of positions (within the replica set) whose
/// nodes persisted `e`.
pub proof fn lemma_read_after_write(
    c: &Cluster,
    pk: u64,
    sk: u64,
    e: EntryV,
    replicas: Seq<usize>,
    reachable: Seq<bool>,
    w: Set<int>,
)
    requires
        c.wf(),
        replicas_ok(replicas, c.n_nodes()),
        replicas.len() == c.params.replication_factor,
        reachable.len() == c.n_nodes(),
        w.subset_of(vstd::set_lib::set_int_range(0, replicas.len() as int)),
        w.len() >= c.params.write_quorum,
        forall|k: int|
            w.contains(k) ==> c.node_view(#[trigger] replicas[k] as int).contains_key((pk, sk))
                && c.node_view(replicas[k] as int)[(pk, sk)] == e,
        Set::new(
            |k: int| 0 <= k < replicas.len() && reachable[replicas[k] as int],
        ).len() >= c.params.read_quorum,
        forall|k: int|
            0 <= k < replicas.len() && reachable[#[trigger] replicas[k] as int] && c.node_view(
                replicas[k] as int,
            ).contains_key((pk, sk)) ==> c.node_view(replicas[k] as int)[(pk, sk)] == e || wins(
                e,
                c.node_view(replicas[k] as int)[(pk, sk)],
            ),
    ensures
        c.gathered(replicas, reachable, pk, sk).len() > 0,
        merge_all(c.gathered(replicas, reachable, pk, sk)) == e,
{
    let positions = vstd::set_lib::set_int_range(0, replicas.len() as int);
    let r = Set::new(|k: int| 0 <= k < replicas.len() && reachable[replicas[k] as int]);
    vstd::set_lib::lemma_int_range(0, replicas.len() as int);
    assert(r.subset_of(positions));
    lemma_len_subset(w, positions);
    lemma_len_subset(r, positions);
    lemma_quorum_overlap(positions, w, r, c.params);
    let k0 = choose|k: int| w.contains(k) && r.contains(k);
    lemma_gathered_sources(c, replicas, reachable, pk, sk, replicas.len() as int);
    let g = c.gathered(replicas, reachable, pk, sk);
    assert(g.contains(c.node_view(replicas[k0] as int)[(pk, sk)]));
    assert(g.contains(e));
    assert forall|t: int| 0 <= t < g.len() implies g[t] == e || wins(e, g[t]) by {
        let k = choose|k: int|
            0 <= k < replicas.len() && reachable[#[trigger] replicas[k] as int] && c.node_view(
                replicas[k] as int,
            ).contains_key((pk, sk)) && g[t] == c.node_view(replicas[k] as int)[(pk, sk)];
    }
    lemma_merge_all_of_dominant(g, e);
}

/// Quorum overlap: when the write and read quorums together exceed the
/// replication factor, any set of `write_quorum` acknowledging replicas and
/// any set of `read_quorum` responding replicas share a node. This is the
/// pigeonhole fact the read-after-write guarantee rests on.
pub proof fn lemma_quorum_overlap(
    replicas: Set<int>,
    w: Set<int>,
    r: Set<int>,
    params: ShardedParams,
)
    requires
        params.valid(),
        replicas.finite(),
        replicas.len() == params.replication_factor,
        w.subset_of(replicas),
        r.subset_of(replicas),
        w.len() >= params.write_quorum,
        r.len() >= params.read_quorum,
    ensures
        exists|n: int| w.contains(n) && r.contains(n),
{
    if !(exists|n: int| w.contains(n) && r.contains(n)) {
        assert(w.disjoint(r));
        lemma_set_disjoint_lens(w, r);
        lemma_len_subset(w.union(r), replicas);
        assert((w + r).len() == w.len() + r.len());
        assert(false);
    }
}

} // verus!
