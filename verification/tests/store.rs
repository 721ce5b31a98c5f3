use garage_core::crdt::Entry;
use garage_core::store::Store;

fn entry(timestamp: u64, node: u64, deleted: bool, value: &[u8]) -> Entry {
    Entry { timestamp, node, deleted, value: value.to_vec() }
}

#[test]
fn persist_is_merge_not_overwrite() {
    let mut s = Store::new();
    s.merge_insert(1, 1, entry(100, 0, false, b"new"));
    // A stale duplicate delivered late cannot overwrite the newer entry.
    s.merge_insert(1, 1, entry(90, 1, false, b"old"));
    match s.get(1, 1) {
        Some(e) => {
            assert_eq!(e.timestamp, 100);
            assert_eq!(e.value, b"new".to_vec());
        },
        None => panic!("the key must be present"),
    }
}

#[test]
fn duplicate_delivery_changes_nothing() {
    let mut s = Store::new();
    s.merge_insert(1, 1, entry(100, 0, false, b"v"));
    s.merge_insert(1, 1, entry(100, 0, false, b"v"));
    assert_eq!(s.len(), 1);
}

#[test]
fn anti_entropy_pass_converges_replicas() {
    // Two replicas see two writes in opposite orders, plus one key each
    // that the other missed entirely. After a mutual anti-entropy pass
    // they hold identical rows.
    let mut a = Store::new();
    let mut b = Store::new();
    a.merge_insert(1, 1, entry(100, 0, false, b"x1"));
    a.merge_insert(1, 1, entry(110, 1, false, b"x2"));
    a.merge_insert(1, 2, entry(50, 0, false, b"only-a"));
    b.merge_insert(1, 1, entry(110, 1, false, b"x2"));
    b.merge_insert(1, 1, entry(100, 0, false, b"x1"));
    b.merge_insert(1, 3, entry(60, 1, false, b"only-b"));

    a.sync_from(&b);
    b.sync_from(&a);

    assert_eq!(a.len(), 3);
    assert_eq!(b.len(), 3);
    for (pk, sk, ts, val) in
        [(1u64, 1u64, 110u64, b"x2".as_slice()), (1, 2, 50, b"only-a"), (1, 3, 60, b"only-b")]
    {
        match (a.get(pk, sk), b.get(pk, sk)) {
            (Some(ea), Some(eb)) => {
                assert_eq!(ea.timestamp, ts);
                assert_eq!(eb.timestamp, ts);
                assert_eq!(ea.value, val.to_vec());
                assert_eq!(eb.value, val.to_vec());
            },
            _ => panic!("both replicas must hold the key after the pass"),
        }
    }
}
