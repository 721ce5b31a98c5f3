use garage_core::crdt::{merge, Entry};

fn entry(timestamp: u64, node: u64, deleted: bool, value: &[u8]) -> Entry {
    Entry { timestamp, node, deleted, value: value.to_vec() }
}

#[test]
fn merge_picks_higher_timestamp() {
    let a = entry(100, 1, false, b"old");
    let b = entry(200, 0, false, b"new");
    let m = merge(a, b);
    assert_eq!(m.timestamp, 200);
    assert_eq!(m.value, b"new".to_vec());
}

#[test]
fn merge_breaks_ties_by_node_id() {
    let a = entry(100, 1, false, b"from-one");
    let b = entry(100, 2, false, b"from-two");
    let m = merge(a, b);
    assert_eq!(m.node, 2);
    assert_eq!(m.value, b"from-two".to_vec());

    let a = entry(100, 1, false, b"from-one");
    let b = entry(100, 2, false, b"from-two");
    let m = merge(b, a);
    assert_eq!(m.node, 2);
    assert_eq!(m.value, b"from-two".to_vec());
}

#[test]
fn merge_is_idempotent() {
    let a = entry(7, 3, false, b"v");
    let b = entry(7, 3, false, b"v");
    let m = merge(a, b);
    assert_eq!(m.timestamp, 7);
    assert_eq!(m.node, 3);
    assert_eq!(m.value, b"v".to_vec());
}

#[test]
fn tombstone_beats_stale_insert_by_timestamp() {
    // A deletion recorded at ts=100 still wins against an insert at ts=90.
    let tombstone = entry(100, 0, true, b"");
    let stale = entry(90, 1, false, b"Y");
    let m = merge(tombstone, stale);
    assert!(m.deleted);
    assert_eq!(m.timestamp, 100);
}

#[test]
fn newer_insert_beats_tombstone_by_timestamp() {
    // Tombstones do not universally win: a later insert at ts=110
    // supersedes the tombstone at ts=100.
    let tombstone = entry(100, 0, true, b"");
    let newer = entry(110, 1, false, b"Z");
    let m = merge(tombstone, newer);
    assert!(!m.deleted);
    assert_eq!(m.timestamp, 110);
    assert_eq!(m.value, b"Z".to_vec());
}

fn fold_merge(order: &[usize]) -> Entry {
    let values: [&[u8]; 4] = [b"a", b"b", b"c", b"d"];
    let stamps: [(u64, u64); 4] = [(100, 0), (90, 1), (110, 2), (110, 1)];
    let mut acc: Option<Entry> = None;
    for &i in order {
        let e = entry(stamps[i].0, stamps[i].1, false, values[i]);
        acc = Some(match acc {
            None => e,
            Some(a) => merge(a, e),
        });
    }
    acc.expect("non-empty order")
}

#[test]
fn convergence_is_order_independent() {
    // Four writes with distinct (timestamp, node) stamps, delivered in
    // several different orders, always merge to the same entry.
    let expected = fold_merge(&[0, 1, 2, 3]);
    let orders: [[usize; 4]; 6] =
        [[0, 1, 2, 3], [3, 2, 1, 0], [1, 3, 0, 2], [2, 0, 3, 1], [3, 0, 1, 2], [1, 0, 3, 2]];
    for order in orders.iter() {
        let m = fold_merge(order);
        assert_eq!(m.timestamp, expected.timestamp);
        assert_eq!(m.node, expected.node);
        assert_eq!(m.deleted, expected.deleted);
        assert_eq!(m.value, expected.value);
    }
    // The winner is the ts=110 write from the higher node.
    assert_eq!(expected.timestamp, 110);
    assert_eq!(expected.node, 2);
    assert_eq!(expected.value, b"c".to_vec());
}
