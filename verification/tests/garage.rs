use garage_core::config::ReplicationMode;
use garage_core::garage::{Config, Garage};
use garage_core::Error;

fn valid_config() -> Config {
    Config {
        rpc_secret: "0f".repeat(32).into_bytes(),
        replication_mode: b"3".to_vec(),
        n_nodes: 5,
        compression_level: 1,
        k2v_enabled: false,
    }
}

#[test]
fn garage_assembles_from_valid_config() {
    match Garage::new(valid_config()) {
        Ok(g) => {
            assert_eq!(g.network_key.len(), 32);
            assert_eq!(g.replication_mode, ReplicationMode::ThreeWay);
            assert_eq!(g.meta_replication.replication_factor, 3);
            assert_eq!(g.meta_replication.write_quorum, 2);
            assert_eq!(g.meta_replication.read_quorum, 2);
            assert_eq!(g.data_replication.read_quorum, 1);
            assert_eq!(g.control_replication.replication_factor, 5);
            assert!(g.k2v.is_none());
        },
        Err(_) => panic!("a valid configuration must assemble"),
    }
}

#[test]
fn garage_rejects_bad_secret() {
    let mut config = valid_config();
    config.rpc_secret = b"deadbeef".to_vec();
    assert!(matches!(Garage::new(config), Err(Error::InvalidRpcSecret)));
}

#[test]
fn garage_rejects_unknown_replication_mode() {
    let mut config = valid_config();
    config.replication_mode = b"5".to_vec();
    assert!(matches!(Garage::new(config), Err(Error::InvalidReplicationMode)));
}

#[test]
fn secret_is_checked_before_mode() {
    let mut config = valid_config();
    config.rpc_secret = b"zz".to_vec();
    config.replication_mode = b"5".to_vec();
    assert!(matches!(Garage::new(config), Err(Error::InvalidRpcSecret)));
}

#[test]
fn k2v_is_an_optional_component() {
    let mut config = valid_config();
    config.k2v_enabled = true;
    match Garage::new(config) {
        Ok(g) => assert!(g.k2v.is_some()),
        Err(_) => panic!("a valid configuration must assemble"),
    }
}
