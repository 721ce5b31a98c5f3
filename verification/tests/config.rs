use garage_core::config::{parse_network_key, ReplicationMode};
use garage_core::Error;

#[test]
fn network_key_decodes_64_hex_digits() {
    let mut secret = String::new();
    for i in 0..32 {
        secret.push_str(&format!("{:02x}", i));
    }
    match parse_network_key(secret.as_bytes()) {
        Ok(key) => {
            assert_eq!(key.len(), 32);
            for i in 0..32 {
                assert_eq!(key[i], i as u8);
            }
        },
        Err(_) => panic!("a 64-digit hex secret must parse"),
    }
}

#[test]
fn network_key_accepts_upper_case() {
    let secret = "FF".repeat(32);
    match parse_network_key(secret.as_bytes()) {
        Ok(key) => {
            assert_eq!(key.len(), 32);
            assert!(key.iter().all(|&b| b == 0xff));
        },
        Err(_) => panic!("upper-case hex must parse"),
    }
}

#[test]
fn network_key_rejects_wrong_length() {
    let r = parse_network_key("00".repeat(31).as_bytes());
    assert!(matches!(r, Err(Error::InvalidRpcSecret)));
    let r = parse_network_key(b"abc");
    assert!(matches!(r, Err(Error::InvalidRpcSecret)));
}

#[test]
fn network_key_rejects_non_hex() {
    let mut secret = "00".repeat(32);
    secret.replace_range(10..11, "g");
    let r = parse_network_key(secret.as_bytes());
    assert!(matches!(r, Err(Error::InvalidRpcSecret)));
}

#[test]
fn replication_modes_parse() {
    assert_eq!(ReplicationMode::parse(b"none"), Some(ReplicationMode::Single));
    assert_eq!(ReplicationMode::parse(b"1"), Some(ReplicationMode::Single));
    assert_eq!(ReplicationMode::parse(b"2"), Some(ReplicationMode::TwoWay));
    assert_eq!(ReplicationMode::parse(b"3"), Some(ReplicationMode::ThreeWay));
    assert_eq!(ReplicationMode::parse(b"4"), None);
    assert_eq!(ReplicationMode::parse(b""), None);
}

#[test]
fn three_way_quorums_overlap() {
    let p = ReplicationMode::ThreeWay.sharded_params();
    assert_eq!(p.replication_factor, 3);
    assert_eq!(p.write_quorum, 2);
    assert_eq!(p.read_quorum, 2);
    assert!(p.write_quorum + p.read_quorum > p.replication_factor);
}

#[test]
fn data_params_read_from_any_single_replica() {
    let p = ReplicationMode::ThreeWay.data_params();
    assert_eq!(p.replication_factor, 3);
    assert_eq!(p.read_quorum, 1);
}
