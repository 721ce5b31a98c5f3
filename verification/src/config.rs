//! Configuration parsing: the RPC network key and the replication mode.
//!
//! The network key is configured as a hex string and must decode to exactly
//! 32 bytes; the replication mode is one of a small set of named modes,
//! each of which fixes a replication factor and quorums that satisfy the
//! read-after-write condition.

use vstd::prelude::*;

use crate::{Error, ShardedParams};

verus! {

/// The value of an ASCII hex digit; 16 for a byte that is no hex digit.
pub open spec fn hex_val(c: u8) -> u8 {
    if 48 <= c && c <= 57 {
        (c - 48) as u8
    } else if 97 <= c && c <= 102 {
        (c - 97 + 10) as u8
    } else if 65 <= c && c <= 70 {
        (c - 65 + 10) as u8
    } else {
        16
    }
}

pub open spec fn is_hex_digit(c: u8) -> bool {
    hex_val(c) < 16
}

/// A decodable hex string: even length, hex digits throughout.
pub open spec fn hex_ok(s: Seq<u8>) -> bool {
    s.len() % 2 == 0 && forall|i: int| 0 <= i < s.len() ==> is_hex_digit(#[trigger] s[i])
}

/// The byte a pair of hex digits denotes, high digit first.
pub open spec fn hex_byte(hi: u8, lo: u8) -> u8 {
    (hex_val(hi) * 16 + hex_val(lo)) as u8
}

/// The bytes a hex string denotes.
pub open spec fn hex_decoded(s: Seq<u8>) -> Seq<u8> {
    Seq::new((s.len() / 2) as nat, |i: int| hex_byte(s[2 * i], s[2 * i + 1]))
}

/// Why a hex string failed to decode.
pub enum HexError {
    /// Two digits make a byte; the length was odd.
    OddLength,
    /// The first position holding a byte that is no hex digit.
    InvalidHexCharacter { index: usize },
}

/// Relies on `hex::decode`: an even-length string of ASCII hex digits
/// (either case) decodes to its byte pairs; an odd length is rejected as
/// such, and otherwise the first non-digit position is named.
#[verifier::external_body]
fn hex_decode(s: &[u8]) -> (r: Result<Vec<u8>, HexError>)
    ensures
        r is Ok <==> hex_ok(s@),
        match r {
            Ok(v) => v@ == hex_decoded(s@),
            Err(e) => match e {
                HexError::OddLength => s@.len() % 2 != 0,
                HexError::InvalidHexCharacter { index } => s@.len() % 2 == 0 && index < s@.len()
                    && !is_hex_digit(s@[index as int]) && forall|i: int|
                    0 <= i < index ==> is_hex_digit(#[trigger] s@[i]),
            },
        },
{
    match hex::decode(s) {
        Ok(v) => Ok(v),
        Err(hex::FromHexError::OddLength) => Err(HexError::OddLength),
        Err(hex::FromHexError::InvalidHexCharacter { index, .. }) => Err(
            HexError::InvalidHexCharacter { index },
        ),
        Err(hex::FromHexError::InvalidStringLength) => Err(HexError::OddLength),
    }
}

/// Parse the configured RPC secret: a 64-digit hex string denoting the
/// 32-byte network key. Returns the key bytes, or exactly when the string
/// is no 64-digit hex string, the invalid-secret error.
pub fn parse_network_key(secret: &[u8]) -> (r: Result<Vec<u8>, Error>)
    ensures
        r is Ok <==> hex_ok(secret@) && secret@.len() == 64,
        match r {
            Ok(key) => key@ == hex_decoded(secret@) && key@.len() == 32,
            Err(e) => e == Error::InvalidRpcSecret,
        },
{
    match hex_decode(secret) {
        Ok(key) => {
            if key.len() == 32 {
                Ok(key)
            } else {
                Err(Error::InvalidRpcSecret)
            }
        },
        Err(_) => Err(Error::InvalidRpcSecret),
    }
}

/// The replication mode of a cluster: how many nodes hold each partition
/// of a sharded table.
#[derive(Clone, Copy, Debug, PartialEq, Eq, Structural)]
pub enum ReplicationMode {
    /// A single copy: no redundancy.
    Single,
    /// Two copies; writes wait for both, reads take the first answer.
    TwoWay,
    /// Three copies; writes and reads each wait for two, so every read
    /// overlaps every acknowledged write.
    ThreeWay,
}

/// The mode a configuration string denotes.
pub open spec fn mode_of(s: Seq<u8>) -> Option<ReplicationMode> {
    if s == seq![110u8, 111u8, 110u8, 101u8] || s == seq![49u8] {
        Some(ReplicationMode::Single)
    } else if s == seq![50u8] {
        Some(ReplicationMode::TwoWay)
    } else if s == seq![51u8] {
        Some(ReplicationMode::ThreeWay)
    } else {
        None
    }
}

impl ReplicationMode {
    /// Parse a configured replication mode.
    pub fn parse(s: &[u8]) -> (r: Option<ReplicationMode>)
        ensures
            r == mode_of(s@),
    {
        if s.len() == 4 && s[0] == 110u8 && s[1] == 111u8 && s[2] == 110u8 && s[3] == 101u8 {
            proof {
                assert(s@ =~= seq![110u8, 111u8, 110u8, 101u8]);
            }
            Some(ReplicationMode::Single)
        } else if s.len() == 1 && s[0] == 49u8 {
            proof {
                assert(s@ =~= seq![49u8]);
            }
            Some(ReplicationMode::Single)
        } else if s.len() == 1 && s[0] == 50u8 {
            proof {
                assert(s@ =~= seq![50u8]);
            }
            Some(ReplicationMode::TwoWay)
        } else if s.len() == 1 && s[0] == 51u8 {
            proof {
                assert(s@ =~= seq![51u8]);
            }
            Some(ReplicationMode::ThreeWay)
        } else {
            None
        }
    }

    pub open spec fn replication_factor_spec(self) -> u64 {
        match self {
            ReplicationMode::Single => 1,
            ReplicationMode::TwoWay => 2,
            ReplicationMode::ThreeWay => 3,
        }
    }

    /// How many node faults the control (fully replicated) tables tolerate
    /// under this mode.
    pub open spec fn control_max_faults_spec(self) -> u64 {
        match self {
            ReplicationMode::Single => 0,
            ReplicationMode::TwoWay => 1,
            ReplicationMode::ThreeWay => 1,
        }
    }

    pub fn replication_factor(&self) -> (r: u64)
        ensures
            r == self.replication_factor_spec(),
    {
        match self {
            ReplicationMode::Single => 1,
            ReplicationMode::TwoWay => 2,
            ReplicationMode::ThreeWay => 3,
        }
    }

    pub fn control_max_faults(&self) -> (r: u64)
        ensures
            r == self.control_max_faults_spec(),
    {
        match self {
            ReplicationMode::Single => 0,
            ReplicationMode::TwoWay => 1,
            ReplicationMode::ThreeWay => 1,
        }
    }

    /// The quorums a sharded metadata table carries under this mode.
    pub open spec fn sharded_params_spec(self) -> ShardedParams {
        match self {
            ReplicationMode::Single => ShardedParams {
                replication_factor: 1,
                write_quorum: 1,
                read_quorum: 1,
            },
            ReplicationMode::TwoWay => ShardedParams {
                replication_factor: 2,
                write_quorum: 2,
                read_quorum: 1,
            },
            ReplicationMode::ThreeWay => ShardedParams {
                replication_factor: 3,
                write_quorum: 2,
                read_quorum: 2,
            },
        }
    }

    /// The quorums of a sharded metadata table under this mode. Every mode
    /// yields parameters satisfying the quorum-overlap condition: a
    /// metadata read always sees the latest acknowledged write.
    pub fn sharded_params(&self) -> (r: ShardedParams)
        ensures
            r.valid(),
            r.replication_factor == self.replication_factor_spec(),
            r == self.sharded_params_spec(),
    {
        match self {
            ReplicationMode::Single => ShardedParams {
                replication_factor: 1,
                write_quorum: 1,
                read_quorum: 1,
            },
            ReplicationMode::TwoWay => ShardedParams {
                replication_factor: 2,
                write_quorum: 2,
                read_quorum: 1,
            },
            ReplicationMode::ThreeWay => ShardedParams {
                replication_factor: 3,
                write_quorum: 2,
                read_quorum: 2,
            },
        }
    }

    /// The quorums for block-data placement: same replication factor, but a
    /// single responder satisfies a read, since a block's bytes are
    /// immutable and checked against their content hash on arrival.
    pub fn data_params(&self) -> (r: ShardedParams)
        ensures
            r.replication_factor == self.replication_factor_spec(),
            r.write_quorum == self.sharded_params_write_quorum(),
            r.read_quorum == 1,
    {
        let meta = self.sharded_params();
        ShardedParams {
            replication_factor: meta.replication_factor,
            write_quorum: meta.write_quorum,
            read_quorum: 1,
        }
    }

    pub open spec fn sharded_params_write_quorum(self) -> u64 {
        match self {
            ReplicationMode::Single => 1,
            ReplicationMode::TwoWay => 2,
            ReplicationMode::ThreeWay => 2,
        }
    }
}

} // verus!
