use garage_core::crdt::Entry;
use garage_core::table::Cluster;
use garage_core::{Error, FullParams, ShardedParams};

fn entry(timestamp: u64, node: u64, deleted: bool, value: &[u8]) -> Entry {
    Entry { timestamp, node, deleted, value: value.to_vec() }
}

fn three_way() -> ShardedParams {
    ShardedParams { replication_factor: 3, write_quorum: 2, read_quorum: 2 }
}

#[test]
fn quorum_read_after_write() {
    // Write "foo" = V at ts=100 while node 2 is offline: the write is
    // acknowledged by nodes {0, 1}. Then read while node 1 is offline,
    // hearing {0, 2}: node 0 answers both, so the read returns V.
    let mut cluster = Cluster::new(three_way(), 3);
    let replicas: Vec<usize> = vec![0, 1, 2];
    let write_reachable: Vec<bool> = vec![true, true, false];
    let w = cluster.write(1, 7, &entry(100, 0, false, b"V"), &replicas, &write_reachable);
    assert!(w.is_ok());

    let read_reachable: Vec<bool> = vec![true, false, true];
    match cluster.read(1, 7, &replicas, &read_reachable) {
        Ok(Some(e)) => {
            assert_eq!(e.value, b"V".to_vec());
            assert_eq!(e.timestamp, 100);
            assert!(!e.deleted);
        },
        _ => panic!("read must succeed and find the written value"),
    }
}

#[test]
fn write_fails_below_quorum() {
    // With two of three replicas offline only one acknowledgement can be
    // gathered, below the write quorum of 2: the failure is surfaced.
    let mut cluster = Cluster::new(three_way(), 3);
    let replicas: Vec<usize> = vec![0, 1, 2];
    let reachable: Vec<bool> = vec![true, false, false];
    let w = cluster.write(1, 7, &entry(100, 0, false, b"V"), &replicas, &reachable);
    assert!(matches!(w, Err(Error::InsufficientReplicas)));
}

#[test]
fn read_fails_below_quorum() {
    let cluster = Cluster::new(three_way(), 3);
    let replicas: Vec<usize> = vec![0, 1, 2];
    let reachable: Vec<bool> = vec![false, true, false];
    let r = cluster.read(1, 7, &replicas, &reachable);
    assert!(matches!(r, Err(Error::InsufficientReplicas)));
}

#[test]
fn read_of_absent_key_returns_nothing() {
    let cluster = Cluster::new(three_way(), 3);
    let replicas: Vec<usize> = vec![0, 1, 2];
    let reachable: Vec<bool> = vec![true, true, true];
    match cluster.read(9, 9, &replicas, &reachable) {
        Ok(None) => {},
        _ => panic!("an unwritten key reads as nothing"),
    }
}

#[test]
fn delete_is_a_tombstone_write() {
    let mut cluster = Cluster::new(three_way(), 3);
    let replicas: Vec<usize> = vec![0, 1, 2];
    let all: Vec<bool> = vec![true, true, true];
    let w = cluster.write(1, 7, &entry(100, 0, false, b"V"), &replicas, &all);
    assert!(w.is_ok());
    let d = cluster.delete(1, 7, 150, 1, &replicas, &all);
    assert!(d.is_ok());
    // The row still exists on every replica — as a tombstone.
    match cluster.read(1, 7, &replicas, &all) {
        Ok(Some(e)) => {
            assert!(e.deleted);
            assert_eq!(e.timestamp, 150);
        },
        _ => panic!("the tombstone must be read back"),
    }
}

#[test]
fn stale_insert_does_not_resurrect_tombstone() {
    let mut cluster = Cluster::new(three_way(), 3);
    let replicas: Vec<usize> = vec![0, 1, 2];
    let all: Vec<bool> = vec![true, true, true];
    let d = cluster.delete(1, 7, 100, 0, &replicas, &all);
    assert!(d.is_ok());
    // A write with an older timestamp arrives late (reordered delivery).
    let w = cluster.write(1, 7, &entry(90, 1, false, b"Y"), &replicas, &all);
    assert!(w.is_ok());
    match cluster.read(1, 7, &replicas, &all) {
        Ok(Some(e)) => {
            assert!(e.deleted);
            assert_eq!(e.timestamp, 100);
        },
        _ => panic!("the tombstone must still win"),
    }
}

#[test]
fn read_repair_brings_stale_replica_current() {
    let mut cluster = Cluster::new(three_way(), 3);
    let replicas: Vec<usize> = vec![0, 1, 2];
    // Node 2 misses the write.
    let partial: Vec<bool> = vec![true, true, false];
    let w = cluster.write(1, 7, &entry(100, 0, false, b"V"), &replicas, &partial);
    assert!(w.is_ok());
    assert!(cluster.nodes[2].get(1, 7).is_none());
    // A read-repair pass pushes the merged entry to every replica.
    let all: Vec<bool> = vec![true, true, true];
    cluster.read_repair(1, 7, &entry(100, 0, false, b"V"), &replicas, &all);
    match cluster.nodes[2].get(1, 7) {
        Some(e) => assert_eq!(e.value, b"V".to_vec()),
        None => panic!("repair must fill the stale replica"),
    }
}

#[test]
fn read_range_merges_per_key_in_sort_order() {
    let mut cluster = Cluster::new(three_way(), 3);
    let replicas: Vec<usize> = vec![0, 1, 2];
    let all: Vec<bool> = vec![true, true, true];
    // Three rows under one partition, written out of sort-key order; one
    // overwritten with a later timestamp.
    assert!(cluster.write(1, 30, &entry(100, 0, false, b"c"), &replicas, &all).is_ok());
    assert!(cluster.write(1, 10, &entry(100, 0, false, b"a"), &replicas, &all).is_ok());
    assert!(cluster.write(1, 20, &entry(100, 0, false, b"b-old"), &replicas, &all).is_ok());
    assert!(cluster.write(1, 20, &entry(120, 1, false, b"b-new"), &replicas, &all).is_ok());

    match cluster.read_range(1, 10, 30, 10, &replicas, &all) {
        Ok(out) => {
            // sk 30 is outside the half-open range.
            assert_eq!(out.len(), 2);
            assert_eq!(out[0].0, 10);
            assert_eq!(out[0].1.value, b"a".to_vec());
            assert_eq!(out[1].0, 20);
            assert_eq!(out[1].1.value, b"b-new".to_vec());
        },
        Err(_) => panic!("a full-strength range read must succeed"),
    }

    // The limit truncates from the low end of the range.
    match cluster.read_range(1, 0, 100, 1, &replicas, &all) {
        Ok(out) => {
            assert_eq!(out.len(), 1);
            assert_eq!(out[0].0, 10);
        },
        Err(_) => panic!("a full-strength range read must succeed"),
    }

    // Below the read quorum the scan fails as a whole.
    let few: Vec<bool> = vec![true, false, false];
    assert!(matches!(
        cluster.read_range(1, 0, 100, 10, &replicas, &few),
        Err(Error::InsufficientReplicas)
    ));
}

#[test]
fn tombstones_are_compacted_after_the_horizon() {
    let mut cluster = Cluster::new(three_way(), 3);
    let replicas: Vec<usize> = vec![0, 1, 2];
    let all: Vec<bool> = vec![true, true, true];
    assert!(cluster.write(1, 1, &entry(100, 0, false, b"live"), &replicas, &all).is_ok());
    assert!(cluster.delete(1, 2, 100, 0, &replicas, &all).is_ok());
    assert!(cluster.delete(1, 3, 500, 0, &replicas, &all).is_ok());
    // At time 400 with horizon 200, only the tombstone from ts=100 is old
    // enough to be removed; the live row and the fresh tombstone stay.
    cluster.nodes[0].compact_tombstones(400, 200);
    assert_eq!(cluster.nodes[0].len(), 2);
    assert!(cluster.nodes[0].get(1, 1).is_some());
    assert!(cluster.nodes[0].get(1, 2).is_none());
    assert!(cluster.nodes[0].get(1, 3).is_some());
}

#[test]
fn anti_entropy_pass_converges_the_cluster() {
    // Three writes to one key, each reaching a different single replica, in
    // different per-replica orders. After a full anti-entropy pass every
    // node holds the same winning entry.
    let mut cluster = Cluster::new(three_way(), 3);
    let replicas: Vec<usize> = vec![0, 1, 2];
    let only = |i: usize| -> Vec<bool> { (0..3).map(|j| j == i).collect() };
    let a = entry(100, 0, false, b"a");
    let b = entry(110, 1, false, b"b");
    let c = entry(105, 2, false, b"c");
    let _ = cluster.write(1, 7, &a, &replicas, &only(0));
    let _ = cluster.write(1, 7, &b, &replicas, &only(1));
    let _ = cluster.write(1, 7, &c, &replicas, &only(2));
    for to in 0..3 {
        for from in 0..3 {
            cluster.sync_pull(to, from);
        }
    }
    for n in 0..3 {
        match cluster.nodes[n].get(1, 7) {
            Some(e) => {
                assert_eq!(e.timestamp, 110);
                assert_eq!(e.value, b"b".to_vec());
            },
            None => panic!("every replica must hold the key after the pass"),
        }
    }
}

#[test]
fn full_replication_quorums_derived_from_fault_count() {
    let full = FullParams { n_nodes: 5, max_faults: 2 };
    let p = full.derive();
    assert_eq!(p.replication_factor, 5);
    assert_eq!(p.write_quorum, 3);
    assert_eq!(p.read_quorum, 3);
    assert!(p.write_quorum + p.read_quorum > p.replication_factor);
}
