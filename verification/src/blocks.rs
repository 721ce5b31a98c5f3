//! Content-addressed, deduplicated block storage with derived reference
//! counts.
//!
//! A block is identified by the cryptographic hash of its bytes, so two
//! puts of identical content always resolve to the same identifier and the
//! second put writes nothing: blocks are write-once and immutable. A
//! block's liveness is never tracked imperatively — it is derived by
//! counting the live (non-tombstoned) rows of the block-reference table
//! that point at it — and a block is physically removed only once that
//! count is zero and a grace interval has passed since its last reference
//! was tombstoned, so an in-flight writer that reserved a reference cannot
//! race the deletion. Bytes arriving from a remote replica are hashed and
//! checked before they are stored or returned: corrupt data is rejected,
//! never silently accepted.

use vstd::prelude::*;

use blake2::Digest;

use crate::crdt::clone_bytes;
use crate::Error;

verus! {

/// The digest blake2b-512 assigns to a byte string.
pub uninterp spec fn blake2b512_of(b: Seq<u8>) -> Seq<u8>;

/// Relies on `blake2::Blake2b512` through `digest::Digest::digest`: the
/// 64-byte blake2b-512 digest, a function of the input bytes alone.
#[verifier::external_body]
fn blake2b512(b: &[u8]) -> (r: Vec<u8>)
    ensures
        r@ == blake2b512_of(b@),
        r@.len() == 64,
{
    blake2::Blake2b512::digest(b).to_vec()
}

/// A block identifier: the first 32 bytes of the blake2b-512 digest of the
/// block's bytes.
pub open spec fn block_id_of(b: Seq<u8>) -> Seq<u8> {
    blake2b512_of(b).take(32)
}

/// Compute the identifier content-addressing assigns to these bytes.
pub fn compute_block_id(data: &Vec<u8>) -> (r: Vec<u8>)
    ensures
        r@ == block_id_of(data@),
        r@.len() == 32,
{
    let digest = blake2b512(data.as_slice());
    let mut id: Vec<u8> = Vec::new();
    for i in 0..32usize
        invariant
            digest@.len() == 64,
            id@ == digest@.take(i as int),
    {
        id.push(digest[i]);
        proof {
            assert(id@ =~= digest@.take(i as int + 1));
        }
    }
    proof {
        assert(digest@.take(32) == block_id_of(data@));
    }
    id
}

/// Byte-for-byte comparison of two byte vectors.
pub fn bytes_eq(a: &Vec<u8>, b: &Vec<u8>) -> (r: bool)
    ensures
        r == (a@ == b@),
{
    if a.len() != b.len() {
        return false;
    }
    let n = a.len();
    for i in 0..n
        invariant
            n == a.len(),
            a@.len() == b@.len(),
            forall|j: int| 0 <= j < i ==> a@[j] == b@[j],
    {
        if a[i] != b[i] {
            return false;
        }
    }
    proof {
        assert(a@ =~= b@);
    }
    true
}

/// One locally stored physical block.
pub struct StoredBlock {
    pub id: Vec<u8>,
    pub data: Vec<u8>,
}

/// One row of the block-reference table: a logical row (identified by
/// `row_key`) holding, or having held, a reference to a block. A deleted
/// reference is a tombstone with the timestamp of its deletion, exactly as
/// in the replicated table engine.
pub struct BlockRef {
    pub block: Vec<u8>,
    pub row_key: u64,
    pub deleted: bool,
    pub timestamp: u64,
}

/// The live references the first `j` rows hold on block `id`.
pub open spec fn live_upto(refs: Seq<BlockRef>, id: Seq<u8>, j: int) -> int
    decreases j,
{
    if j <= 0 {
        0
    } else {
        live_upto(refs, id, j - 1) + if refs[j - 1].block@ == id && !refs[j - 1].deleted {
            1int
        } else {
            0int
        }
    }
}

/// The derived reference count of block `id`: how many live rows point at
/// it.
pub open spec fn live_refs(refs: Seq<BlockRef>, id: Seq<u8>) -> int {
    live_upto(refs, id, refs.len() as int)
}

/// Every reference row for block `id` was last written at least `grace`
/// ago: no in-flight writer can still hold a fresher claim on the block.
pub open spec fn refs_expired(refs: Seq<BlockRef>, id: Seq<u8>, now: u64, grace: u64) -> bool {
    forall|i: int|
        0 <= i < refs.len() && (#[trigger] refs[i]).block@ == id ==> refs[i].timestamp + grace
            <= now
}

/// A block may be physically deleted: its derived reference count is zero
/// and the grace interval has elapsed since its references were last
/// touched.
pub open spec fn gc_eligible(refs: Seq<BlockRef>, id: Seq<u8>, now: u64, grace: u64) -> bool {
    live_refs(refs, id) == 0 && refs_expired(refs, id, now, grace)
}

/// The mapping a sequence of stored blocks denotes: identifier to bytes.
pub open spec fn blocks_map(s: Seq<StoredBlock>) -> Map<Seq<u8>, Seq<u8>>
    decreases s.len(),
{
    if s.len() == 0 {
        Map::empty()
    } else {
        blocks_map(s.drop_last()).insert(s.last().id@, s.last().data@)
    }
}

/// No two rows of the reference table speak of the same (block, logical
/// row) pair.
pub open spec fn refs_unique(refs: Seq<BlockRef>) -> bool {
    forall|i: int, j: int|
        0 <= i < refs.len() && 0 <= j < refs.len() && i != j ==> !((#[trigger] refs[i]).block@
            == (#[trigger] refs[j]).block@ && refs[i].row_key == refs[j].row_key)
}

/// No two stored blocks share an identifier, and every stored block's
/// bytes hash to its identifier: the store never holds a corrupt copy.
pub open spec fn blocks_wf(s: Seq<StoredBlock>) -> bool {
    &&& forall|i: int, j: int|
        0 <= i < s.len() && 0 <= j < s.len() && i != j ==> (#[trigger] s[i]).id@
            != (#[trigger] s[j]).id@
    &&& forall|i: int| 0 <= i < s.len() ==> (#[trigger] s[i]).id@ == block_id_of(s[i].data@)
}

/// With unique identifiers, the denoted map indexes the blocks faithfully.
proof fn lemma_blocks_map_index(s: Seq<StoredBlock>)
    requires
        blocks_wf(s),
    ensures
        forall|k: Seq<u8>|
            blocks_map(s).contains_key(k) <==> exists|i: int|
                0 <= i < s.len() && (#[trigger] s[i]).id@ == k,
        forall|i: int|
            0 <= i < s.len() ==> blocks_map(s).contains_key((#[trigger] s[i]).id@) && blocks_map(
                s,
            )[s[i].id@] == s[i].data@,
    decreases s.len(),
{
    if s.len() > 0 {
        let head = s.drop_last();
        assert(blocks_wf(head)) by {
            assert(forall|i: int| 0 <= i < head.len() ==> head[i] == s[i]);
        }
        lemma_blocks_map_index(head);
        assert forall|k: Seq<u8>| blocks_map(s).contains_key(k) implies exists|i: int|
            0 <= i < s.len() && (#[trigger] s[i]).id@ == k by {
            if k != s.last().id@ {
                assert(blocks_map(s) == blocks_map(head).insert(s.last().id@, s.last().data@));
                assert(blocks_map(head).contains_key(k));
                let i = choose|i: int| 0 <= i < head.len() && (#[trigger] head[i]).id@ == k;
                assert(head[i] == s[i]);
                assert(s[i].id@ == k);
            } else {
                assert(s[s.len() - 1].id@ == k);
            }
        }
        assert forall|i: int| 0 <= i < s.len() implies blocks_map(s).contains_key(
            (#[trigger] s[i]).id@,
        ) && blocks_map(s)[s[i].id@] == s[i].data@ by {
            if i < s.len() - 1 {
                assert(head[i] == s[i]);
                assert(s[i].id@ != s.last().id@);
            }
        }
    }
}

/// Removing the block at position `i` removes its key from the denoted
/// map.
proof fn lemma_blocks_map_remove(s: Seq<StoredBlock>, i: int)
    requires
        blocks_wf(s),
        0 <= i < s.len(),
    ensures
        blocks_map(s.remove(i)) =~= blocks_map(s).remove(s[i].id@),
        blocks_wf(s.remove(i)),
    decreases s.len(),
{
    let cut = s.remove(i);
    assert(blocks_wf(cut)) by {
        assert(forall|j: int| 0 <= j < i ==> cut[j] == s[j]);
        assert(forall|j: int| i <= j < cut.len() ==> cut[j] == s[j + 1]);
    }
    lemma_blocks_map_index(s);
    lemma_blocks_map_index(cut);
    assert forall|k: Seq<u8>| #[trigger] blocks_map(cut).contains_key(k) implies blocks_map(
        s,
    ).remove(s[i].id@).contains_key(k) && blocks_map(cut)[k] == blocks_map(s).remove(s[i].id@)[k]
        by {
        let j = choose|j: int| 0 <= j < cut.len() && (#[trigger] cut[j]).id@ == k;
        let j2 = if j < i {
            j
        } else {
            j + 1
        };
        assert(s[j2] == cut[j]);
        assert(j2 != i);
        assert(s[j2].id@ != s[i].id@);
        assert(blocks_map(s)[k] == s[j2].data@);
        assert(blocks_map(cut)[k] == cut[j].data@);
    }
    assert forall|k: Seq<u8>| #[trigger] blocks_map(s).remove(s[i].id@).contains_key(k) implies
        blocks_map(cut).contains_key(k) by {
        let j = choose|j: int| 0 <= j < s.len() && (#[trigger] s[j]).id@ == k;
        assert(j != i);
        let j2 = if j < i {
            j
        } else {
            j - 1
        };
        assert(cut[j2] == s[j]);
    }
}

/// The content-addressed local block store of one node, together with its
/// node-local view of the block-reference table.
pub struct BlockManager {
    blocks: Vec<StoredBlock>,
    refs: Vec<BlockRef>,
}

impl BlockManager {
    /// The blocks physically present: identifier to bytes.
    pub closed spec fn view(&self) -> Map<Seq<u8>, Seq<u8>> {
        blocks_map(self.blocks@)
    }

    /// The rows of the block-reference table this node holds.
    pub closed spec fn refs_view(&self) -> Seq<BlockRef> {
        self.refs@
    }

    pub closed spec fn wf(&self) -> bool {
        blocks_wf(self.blocks@) && refs_unique(self.refs@)
    }

    /// An empty block store.
    pub fn new() -> (r: BlockManager)
        ensures
            r.wf(),
            r@ == Map::<Seq<u8>, Seq<u8>>::empty(),
            r.refs_view() == Seq::<BlockRef>::empty(),
    {
        BlockManager { blocks: Vec::new(), refs: Vec::new() }
    }

    /// Store bytes under their content hash. If a block with this
    /// identifier is already present nothing is written — the store is
    /// write-once and two puts of identical bytes yield one physical block.
    /// Returns the block identifier.
    pub fn put(&mut self, data: Vec<u8>) -> (id: Vec<u8>)
        requires
            old(self).wf(),
        ensures
            final(self).wf(),
            id@ == block_id_of(data@),
            final(self).refs_view() == old(self).refs_view(),
            final(self)@ == if old(self)@.contains_key(block_id_of(data@)) {
                old(self)@
            } else {
                old(self)@.insert(block_id_of(data@), data@)
            },
    {
        let id = compute_block_id(&data);
        proof {
            lemma_blocks_map_index(self.blocks@);
        }
        let n = self.blocks.len();
        for i in 0..n
            invariant
                n == self.blocks.len(),
                self.wf(),
                id@ == block_id_of(data@),
                forall|j: int| 0 <= j < i ==> (#[trigger] self.blocks@[j]).id@ != id@,
                forall|j: int|
                    0 <= j < self.blocks@.len() ==> blocks_map(self.blocks@).contains_key(
                        (#[trigger] self.blocks@[j]).id@,
                    ),
                blocks_map(self.blocks@).contains_key(id@) ==> exists|j: int|
                    0 <= j < self.blocks@.len() && (#[trigger] self.blocks@[j]).id@ == id@,
        {
            if bytes_eq(&self.blocks[i].id, &id) {
                return id;
            }
        }
        let ghost blocks0 = self.blocks@;
        let stored_id = compute_block_id(&data);
        self.blocks.push(StoredBlock { id: stored_id, data });
        proof {
            assert(self.blocks@.drop_last() =~= blocks0);
            assert(blocks_wf(self.blocks@)) by {
                assert(forall|j: int| 0 <= j < blocks0.len() ==> self.blocks@[j] == blocks0[j]);
            }
        }
        id
    }

    /// The bytes locally stored for a block, if any. What comes back is
    /// integral by the store's invariant: its bytes hash to the requested
    /// identifier.
    pub fn get_local(&self, id: &Vec<u8>) -> (r: Option<&Vec<u8>>)
        requires
            self.wf(),
        ensures
            match r {
                Some(data) => self@.contains_key(id@) && data@ == self@[id@] && block_id_of(data@)
                    == id@,
                None => !self@.contains_key(id@),
            },
    {
        proof {
            lemma_blocks_map_index(self.blocks@);
        }
        let n = self.blocks.len();
        for i in 0..n
            invariant
                n == self.blocks.len(),
                self.wf(),
                forall|j: int| 0 <= j < i ==> (#[trigger] self.blocks@[j]).id@ != id@,
                forall|j: int|
                    0 <= j < self.blocks@.len() ==> blocks_map(self.blocks@).contains_key(
                        (#[trigger] self.blocks@[j]).id@,
                    ) && blocks_map(self.blocks@)[self.blocks@[j].id@] == self.blocks@[j].data@,
                blocks_map(self.blocks@).contains_key(id@) ==> exists|j: int|
                    0 <= j < self.blocks@.len() && (#[trigger] self.blocks@[j]).id@ == id@,
        {
            if bytes_eq(&self.blocks[i].id, id) {
                return Some(&self.blocks[i].data);
            }
        }
        None
    }

    /// Accept a block fetched from a remote replica: hash the bytes and
    /// store them only if they match the claimed identifier. A mismatch is
    /// reported as corruption and nothing is stored — corrupt data is never
    /// silently accepted, and by [`Self::get_local`]'s contract never
    /// returned either.
    pub fn receive_remote(&mut self, id: &Vec<u8>, data: Vec<u8>) -> (r: Result<(), Error>)
        requires
            old(self).wf(),
        ensures
            final(self).wf(),
            final(self).refs_view() == old(self).refs_view(),
            r is Ok <==> block_id_of(data@) == id@,
            r is Ok ==> final(self)@ == if old(self)@.contains_key(id@) {
                old(self)@
            } else {
                old(self)@.insert(id@, data@)
            },
            r is Err ==> final(self)@ == old(self)@ && r == Err::<(), Error>(Error::BlockCorrupt),
    {
        let computed = compute_block_id(&data);
        if bytes_eq(&computed, id) {
            let _ = self.put(data);
            Ok(())
        } else {
            Err(Error::BlockCorrupt)
        }
    }

    /// Serve a block read: from the local store when the block is present,
    /// and otherwise from the bytes a remote replica supplied, repairing
    /// the local copy as a side effect. Fails with the not-found error
    /// exactly when the block is not local and no replica supplied bytes,
    /// and with the corruption error exactly when the supplied bytes do not
    /// hash to the identifier — corrupt bytes are neither returned nor
    /// stored. Whatever is returned hashes to the requested identifier.
    pub fn fetch(&mut self, id: &Vec<u8>, remote: Option<&Vec<u8>>) -> (r: Result<Vec<u8>, Error>)
        requires
            old(self).wf(),
        ensures
            final(self).wf(),
            final(self).refs_view() == old(self).refs_view(),
            match r {
                Ok(data) => {
                    &&& block_id_of(data@) == id@
                    &&& final(self)@.contains_key(id@)
                    &&& data@ == final(self)@[id@]
                    &&& final(self)@ == if old(self)@.contains_key(id@) {
                        old(self)@
                    } else {
                        old(self)@.insert(id@, data@)
                    }
                },
                Err(e) => {
                    &&& final(self)@ == old(self)@
                    &&& !old(self)@.contains_key(id@)
                    &&& e == Error::BlockNotFound <==> remote is None
                    &&& e == Error::BlockCorrupt <==> (match remote {
                        Some(bytes) => block_id_of(bytes@) != id@,
                        None => false,
                    })
                },
            },
    {
        let local = match self.get_local(id) {
            Some(data) => Some(clone_bytes(data)),
            None => None,
        };
        match local {
            Some(data) => Ok(data),
            None => match remote {
                Some(bytes) => {
                    let data = clone_bytes(bytes);
                    match self.receive_remote(id, data) {
                        Ok(()) => Ok(clone_bytes(bytes)),
                        Err(e) => Err(e),
                    }
                },
                None => Err(Error::BlockNotFound),
            },
        }
    }

    /// Record that logical row `row_key` holds (or, with `deleted`, has
    /// dropped) a reference to a block. Later timestamps win, exactly as in
    /// the table engine; an older write cannot resurrect or re-kill a
    /// reference.
    pub fn set_ref(&mut self, block: Vec<u8>, row_key: u64, deleted: bool, timestamp: u64)
        requires
            old(self).wf(),
        ensures
            final(self).wf(),
            final(self)@ == old(self)@,
            ({
                let refs0 = old(self).refs_view();
                let refs1 = final(self).refs_view();
                if exists|i: int|
                    0 <= i < refs0.len() && (#[trigger] refs0[i]).block@ == block@
                        && refs0[i].row_key == row_key {
                    let i = choose|i: int|
                        0 <= i < refs0.len() && (#[trigger] refs0[i]).block@ == block@
                            && refs0[i].row_key == row_key;
                    refs1 =~= refs0.update(
                        i,
                        if refs0[i].timestamp >= timestamp {
                            refs0[i]
                        } else {
                            BlockRef { block, row_key, deleted, timestamp }
                        },
                    )
                } else {
                    refs1 =~= refs0.push(BlockRef { block, row_key, deleted, timestamp })
                }
            }),
    {
        let n = self.refs.len();
        for i in 0..n
            invariant
                n == self.refs.len(),
                self.wf(),
                self@ == old(self)@,
                self.refs@ == old(self).refs@,
                forall|j: int|
                    0 <= j < i ==> !((#[trigger] self.refs@[j]).block@ == block@
                        && self.refs@[j].row_key == row_key),
        {
            if bytes_eq(&self.refs[i].block, &block) && self.refs[i].row_key == row_key {
                let ghost refs0 = self.refs@;
                proof {
                    assert(refs0[i as int].block@ == block@ && refs0[i as int].row_key == row_key);
                }
                if self.refs[i].timestamp < timestamp {
                    let _ = self.refs.remove(i);
                    self.refs.insert(i, BlockRef { block, row_key, deleted, timestamp });
                    proof {
                        assert(self.refs@ =~= refs0.update(i as int, self.refs@[i as int]));
                        assert(refs_unique(self.refs@)) by {
                            assert(forall|j: int|
                                0 <= j < refs0.len() && j != i ==> self.refs@[j] == refs0[j]);
                            assert(self.refs@[i as int].block@ == block@
                                && self.refs@[i as int].row_key == row_key);
                        }
                    }
                } else {
                    proof {
                        assert(self.refs@ =~= refs0.update(i as int, refs0[i as int]));
                    }
                }
                proof {
                    let w = choose|w: int|
                        0 <= w < refs0.len() && (#[trigger] refs0[w]).block@ == block@
                            && refs0[w].row_key == row_key;
                    assert(w == i as int);
                }
                return ;
            }
        }
        let ghost refs0 = self.refs@;
        self.refs.push(BlockRef { block, row_key, deleted, timestamp });
        proof {
            assert(refs_unique(self.refs@)) by {
                assert(forall|j: int| 0 <= j < refs0.len() ==> self.refs@[j] == refs0[j]);
                assert(forall|j: int|
                    0 <= j < refs0.len() ==> !((#[trigger] refs0[j]).block@ == block@
                        && refs0[j].row_key == row_key));
            }
        }
    }

    /// The derived reference count: how many live rows of the reference
    /// table point at this block.
    pub fn count_live_refs(&self, id: &Vec<u8>) -> (r: usize)
        requires
            self.wf(),
        ensures
            r == live_refs(self.refs_view(), id@),
    {
        let mut count: usize = 0;
        let n = self.refs.len();
        for j in 0..n
            invariant
                n == self.refs.len(),
                count == live_upto(self.refs@, id@, j as int),
                count <= j,
        {
            if !self.refs[j].deleted && bytes_eq(&self.refs[j].block, id) {
                count = count + 1;
            }
        }
        count
    }

    /// One pass of the resync worker for one block: physically delete it
    /// exactly when its derived reference count is zero and every
    /// reference row for it is older than the grace interval. Returns
    /// whether the block was removed.
    pub fn maybe_cleanup(&mut self, id: &Vec<u8>, now: u64, grace: u64) -> (removed: bool)
        requires
            old(self).wf(),
        ensures
            final(self).wf(),
            final(self).refs_view() == old(self).refs_view(),
            removed <==> old(self)@.contains_key(id@) && gc_eligible(
                old(self).refs_view(),
                id@,
                now,
                grace,
            ),
            final(self)@ == if removed {
                old(self)@.remove(id@)
            } else {
                old(self)@
            },
    {
        let live = self.count_live_refs(id);
        if live != 0 {
            return false;
        }
        let n = self.refs.len();
        for j in 0..n
            invariant
                n == self.refs.len(),
                self.wf(),
                self@ == old(self)@,
                self.refs@ == old(self).refs@,
                forall|i: int|
                    0 <= i < j && (#[trigger] self.refs@[i]).block@ == id@ ==> self.refs@[i].timestamp
                        + grace <= now,
        {
            if bytes_eq(&self.refs[j].block, id) {
                if !(grace <= now && self.refs[j].timestamp <= now - grace) {
                    return false;
                }
            }
        }
        proof {
            lemma_blocks_map_index(self.blocks@);
        }
        let m = self.blocks.len();
        for i in 0..m
            invariant
                m == self.blocks.len(),
                self.wf(),
                self@ == old(self)@,
                self.refs@ == old(self).refs@,
                gc_eligible(self.refs@, id@, now, grace),
                forall|j: int| 0 <= j < i ==> (#[trigger] self.blocks@[j]).id@ != id@,
                forall|j: int|
                    0 <= j < self.blocks@.len() ==> blocks_map(self.blocks@).contains_key(
                        (#[trigger] self.blocks@[j]).id@,
                    ),
                blocks_map(self.blocks@).contains_key(id@) ==> exists|j: int|
                    0 <= j < self.blocks@.len() && (#[trigger] self.blocks@[j]).id@ == id@,
        {
            if bytes_eq(&self.blocks[i].id, id) {
                let ghost blocks0 = self.blocks@;
                let _ = self.blocks.remove(i);
                proof {
                    lemma_blocks_map_remove(blocks0, i as int);
                }
                return true;
            }
        }
        false
    }
}

} // verus!
