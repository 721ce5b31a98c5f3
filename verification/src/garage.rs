//! The assembled system: configuration checked, replication parameters
//! derived, and every table, counter and the block manager constructed in
//! dependency order (block references before versions before objects).
//! The key/value sub-system is an optional component assembled at startup,
//! present or absent by configuration.

use vstd::prelude::*;

use crate::blocks::BlockManager;
use crate::config::{hex_decoded, hex_ok, mode_of, parse_network_key, ReplicationMode};
use crate::counter::CounterEntry;
use crate::table::Cluster;
use crate::{Error, FullParams, ShardedParams};

verus! {

/// The plain configuration values the system is built from.
pub struct Config {
    /// The shared RPC secret, as a hex string.
    pub rpc_secret: Vec<u8>,
    /// The replication mode name.
    pub replication_mode: Vec<u8>,
    /// How many nodes the cluster starts with.
    pub n_nodes: usize,
    /// Compression level for block payloads; zero disables compression.
    pub compression_level: i64,
    /// Whether the key/value sub-system is assembled.
    pub k2v_enabled: bool,
}

/// The optional key/value sub-system: its item table and its index
/// counter.
pub struct GarageK2V {
    pub item_table: Cluster,
    pub counter: CounterEntry,
}

/// An entire assembled system.
pub struct Garage {
    /// The 32-byte network key decoded from the configured secret.
    pub network_key: Vec<u8>,
    /// The replication mode of this cluster.
    pub replication_mode: ReplicationMode,
    /// Compression level for block payloads, as configured.
    pub compression_level: i64,
    /// Quorums of the sharded metadata tables.
    pub meta_replication: ShardedParams,
    /// Quorums for block-data placement: single-responder reads, since
    /// block bytes are immutable and hash-checked.
    pub data_replication: ShardedParams,
    /// Quorums of the fully replicated control tables.
    pub control_replication: ShardedParams,
    /// The block manager.
    pub block_manager: BlockManager,
    /// Table containing buckets.
    pub bucket_table: Cluster,
    /// Table containing bucket aliases.
    pub bucket_alias_table: Cluster,
    /// Table containing api keys.
    pub key_table: Cluster,
    /// Table containing objects.
    pub object_table: Cluster,
    /// Counter of objects per bucket.
    pub object_counter: CounterEntry,
    /// Table containing object versions.
    pub version_table: Cluster,
    /// Table containing block references (not blocks themselves).
    pub block_ref_table: Cluster,
    /// The optional key/value sub-system.
    pub k2v: Option<GarageK2V>,
}

impl GarageK2V {
    /// Assemble the key/value sub-system over empty tables.
    pub fn new(meta_params: ShardedParams, n_nodes: usize) -> (r: GarageK2V)
        requires
            meta_params.valid(),
        ensures
            r.item_table.wf(),
            r.item_table.params == meta_params,
            r.item_table.n_nodes() == n_nodes,
            r.counter.wf(),
            r.counter@ == Map::<u64, i64>::empty(),
    {
        GarageK2V { item_table: Cluster::new(meta_params, n_nodes), counter: CounterEntry::new() }
    }
}

/// The number of control-table faults tolerated: the mode's tolerated
/// fault count, capped below the node count so a quorum always exists.
pub open spec fn control_faults(mode: ReplicationMode, n_nodes: usize) -> u64 {
    if mode.control_max_faults_spec() < n_nodes {
        mode.control_max_faults_spec()
    } else {
        (n_nodes - 1) as u64
    }
}

impl Garage {
    /// Validate the configuration and assemble the system. Fails with the
    /// invalid-secret error exactly when the RPC secret is not a 64-digit
    /// hex string, and otherwise with the invalid-mode error exactly when
    /// the replication mode is not a known one. On success every table is
    /// empty, the metadata tables carry the mode's quorums, and the control
    /// tables carry quorums derived from the tolerated-fault count.
    pub fn new(config: Config) -> (r: Result<Garage, Error>)
        requires
            config.n_nodes >= 1,
        ensures
            r is Ok <==> hex_ok(config.rpc_secret@) && config.rpc_secret@.len() == 64 && mode_of(
                config.replication_mode@,
            ) is Some,
            match r {
                Ok(g) => {
                    &&& g.network_key@ == hex_decoded(config.rpc_secret@)
                    &&& g.compression_level == config.compression_level
                    &&& Some(g.replication_mode) == mode_of(config.replication_mode@)
                    &&& g.meta_replication.valid()
                    &&& g.meta_replication == g.replication_mode.sharded_params_spec()
                    &&& g.control_replication.valid()
                    &&& g.control_replication.replication_factor == config.n_nodes as u64
                    &&& g.control_replication.write_quorum == config.n_nodes as u64
                        - control_faults(g.replication_mode, config.n_nodes)
                    &&& g.control_replication.read_quorum == control_faults(
                        g.replication_mode,
                        config.n_nodes,
                    ) + 1
                    &&& g.wf()
                    &&& g.object_table.n_nodes() == config.n_nodes
                    &&& g.k2v is Some <==> config.k2v_enabled
                },
                Err(e) => {
                    &&& e == Error::InvalidRpcSecret <==> !(hex_ok(config.rpc_secret@)
                        && config.rpc_secret@.len() == 64)
                    &&& e == Error::InvalidReplicationMode <==> (hex_ok(config.rpc_secret@)
                        && config.rpc_secret@.len() == 64) && mode_of(
                        config.replication_mode@,
                    ) is None
                },
            },
    {
        let network_key = match parse_network_key(config.rpc_secret.as_slice()) {
            Ok(k) => k,
            Err(e) => {
                return Err(e);
            },
        };
        let replication_mode = match ReplicationMode::parse(config.replication_mode.as_slice()) {
            Some(m) => m,
            None => {
                return Err(Error::InvalidReplicationMode);
            },
        };

        let meta_replication = replication_mode.sharded_params();
        let data_replication = replication_mode.data_params();
        let mode_faults = replication_mode.control_max_faults();
        let max_faults = if mode_faults < config.n_nodes as u64 {
            mode_faults
        } else {
            (config.n_nodes - 1) as u64
        };
        let control = FullParams { n_nodes: config.n_nodes as u64, max_faults };
        let control_replication = control.derive();

        let n = config.n_nodes;
        let block_manager = BlockManager::new();

        let bucket_table = Cluster::new(control_replication, n);
        let bucket_alias_table = Cluster::new(control_replication, n);
        let key_table = Cluster::new(control_replication, n);

        let block_ref_table = Cluster::new(meta_replication, n);
        let version_table = Cluster::new(meta_replication, n);
        let object_counter = CounterEntry::new();
        let object_table = Cluster::new(meta_replication, n);

        let k2v = if config.k2v_enabled {
            Some(GarageK2V::new(meta_replication, n))
        } else {
            None
        };

        Ok(Garage {
            network_key,
            replication_mode,
            compression_level: config.compression_level,
            meta_replication,
            data_replication,
            control_replication,
            block_manager,
            bucket_table,
            bucket_alias_table,
            key_table,
            object_table,
            object_counter,
            version_table,
            block_ref_table,
            k2v,
        })
    }

    /// Every component is well formed, all tables span the same nodes, and
    /// the sharded tables share the mode's quorums.
    pub open spec fn wf(&self) -> bool {
        &&& self.network_key@.len() == 32
        &&& self.meta_replication.valid()
        &&& self.control_replication.valid()
        &&& self.block_manager.wf()
        &&& self.bucket_table.wf()
        &&& self.bucket_alias_table.wf()
        &&& self.key_table.wf()
        &&& self.object_table.wf()
        &&& self.object_counter.wf()
        &&& self.version_table.wf()
        &&& self.block_ref_table.wf()
        &&& self.object_table.params == self.meta_replication
        &&& self.version_table.params == self.meta_replication
        &&& self.block_ref_table.params == self.meta_replication
        &&& self.bucket_table.params == self.control_replication
        &&& self.bucket_alias_table.params == self.control_replication
        &&& self.key_table.params == self.control_replication
        &&& match self.k2v {
            Some(k2v) => k2v.item_table.wf() && k2v.counter.wf() && k2v.item_table.params
                == self.meta_replication,
            None => true,
        }
    }
}

} // verus!
