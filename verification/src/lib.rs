//! Core logic of a self-healing, geographically distributable object store:
//! the conflict-free merge discipline of the replicated table engine, quorum
//! parameter selection, a content-addressed deduplicating block manager with
//! derived reference counts, sharded eventually-consistent index counters,
//! and rendezvous-hashing ring placement.

use vstd::prelude::*;

pub mod blocks;
pub mod config;
pub mod counter;
pub mod crdt;
pub mod garage;
pub mod ring;
pub mod store;
pub mod table;

verus! {

/// How an operation against the cluster fails. Quorum shortfalls are always
/// surfaced, never silently degraded to a partial result; corrupt block data
/// is never returned.
pub enum Error {
    /// Fewer replicas than the required quorum were reachable.
    InsufficientReplicas,
    /// No replica could supply the requested block.
    BlockNotFound,
    /// A fetched block's bytes do not hash to its claimed identifier.
    BlockCorrupt,
    /// The configured RPC secret is not a 64-digit hex string.
    InvalidRpcSecret,
    /// The configured replication mode is not one of the known modes.
    InvalidReplicationMode,
}

/// Sharded replication parameters for one table: how many nodes hold each
/// partition, and how many acknowledgements a write or a read must gather.
#[derive(Clone, Copy, PartialEq, Eq, Structural)]
pub struct ShardedParams {
    pub replication_factor: u64,
    pub write_quorum: u64,
    pub read_quorum: u64,
}

impl ShardedParams {
    /// Read-after-write visibility requires any write-acknowledging set and
    /// any read-responding set of replicas to intersect, which holds exactly
    /// when the two quorums together exceed the replication factor.
    pub open spec fn valid(self) -> bool {
        &&& 1 <= self.replication_factor
        &&& 1 <= self.write_quorum <= self.replication_factor
        &&& 1 <= self.read_quorum <= self.replication_factor
        &&& self.write_quorum + self.read_quorum > self.replication_factor
    }
}

/// Parameters of a fully replicated table: every node holds every row, and
/// the quorums are derived from the number of simultaneous node faults the
/// table must tolerate.
pub struct FullParams {
    pub n_nodes: u64,
    pub max_faults: u64,
}

impl FullParams {
    pub open spec fn valid(self) -> bool {
        1 <= self.n_nodes && self.max_faults < self.n_nodes
    }

    /// The quorums a tolerated-fault count denotes: a write must reach all
    /// but `max_faults` nodes, and a read must hear from enough nodes that
    /// one of them saw any acknowledged write. The derived parameters always
    /// satisfy the quorum-overlap condition.
    pub fn derive(&self) -> (r: ShardedParams)
        requires
            self.valid(),
        ensures
            r.valid(),
            r.replication_factor == self.n_nodes,
            r.write_quorum == self.n_nodes - self.max_faults,
            r.read_quorum == self.max_faults + 1,
    {
        ShardedParams {
            replication_factor: self.n_nodes,
            write_quorum: self.n_nodes - self.max_faults,
            read_quorum: self.max_faults + 1,
        }
    }
}

} // verus!
