use garage_core::blocks::{bytes_eq, compute_block_id, BlockManager};
use garage_core::Error;

#[test]
fn content_addressing_is_deterministic() {
    let a = compute_block_id(&b"some block bytes".to_vec());
    let b = compute_block_id(&b"some block bytes".to_vec());
    assert_eq!(a, b);
    assert_eq!(a.len(), 32);
    let c = compute_block_id(&b"other block bytes".to_vec());
    assert_ne!(a, c);
}

#[test]
fn bytes_eq_compares_contents() {
    assert!(bytes_eq(&b"abc".to_vec(), &b"abc".to_vec()));
    assert!(!bytes_eq(&b"abc".to_vec(), &b"abd".to_vec()));
    assert!(!bytes_eq(&b"abc".to_vec(), &b"ab".to_vec()));
}

#[test]
fn block_dedup_and_derived_refcount() {
    // Two puts of identical bytes, from two different logical rows, yield
    // one physical block with two live references.
    let mut mgr = BlockManager::new();
    let id1 = mgr.put(b"payload".to_vec());
    let id2 = mgr.put(b"payload".to_vec());
    assert_eq!(id1, id2);

    mgr.set_ref(id1.clone(), 1, false, 10);
    mgr.set_ref(id1.clone(), 2, false, 11);
    assert_eq!(mgr.count_live_refs(&id1), 2);

    // Deleting one reference leaves the block present.
    mgr.set_ref(id1.clone(), 1, true, 20);
    assert_eq!(mgr.count_live_refs(&id1), 1);
    assert!(!mgr.maybe_cleanup(&id1, 1000, 30));
    assert!(mgr.get_local(&id1).is_some());

    // Deleting both drives the count to zero — but the block is removed
    // only once the grace interval has elapsed.
    mgr.set_ref(id1.clone(), 2, true, 25);
    assert_eq!(mgr.count_live_refs(&id1), 0);
    assert!(!mgr.maybe_cleanup(&id1, 40, 30));
    assert!(mgr.get_local(&id1).is_some());
    assert!(mgr.maybe_cleanup(&id1, 55, 30));
    assert!(mgr.get_local(&id1).is_none());
}

#[test]
fn stale_ref_update_cannot_resurrect() {
    let mut mgr = BlockManager::new();
    let id = mgr.put(b"payload".to_vec());
    mgr.set_ref(id.clone(), 1, false, 10);
    mgr.set_ref(id.clone(), 1, true, 30);
    // An older (reordered) write of the live reference arrives late.
    mgr.set_ref(id.clone(), 1, false, 20);
    assert_eq!(mgr.count_live_refs(&id), 0);
}

#[test]
fn corrupt_remote_block_is_rejected() {
    let mut mgr = BlockManager::new();
    let id = compute_block_id(&b"true bytes".to_vec());
    let r = mgr.receive_remote(&id, b"tampered bytes".to_vec());
    assert!(matches!(r, Err(Error::BlockCorrupt)));
    assert!(mgr.get_local(&id).is_none());
}

#[test]
fn intact_remote_block_is_stored() {
    let mut mgr = BlockManager::new();
    let id = compute_block_id(&b"true bytes".to_vec());
    let r = mgr.receive_remote(&id, b"true bytes".to_vec());
    assert!(r.is_ok());
    match mgr.get_local(&id) {
        Some(data) => assert_eq!(data, &b"true bytes".to_vec()),
        None => panic!("the repaired block must be present"),
    }
}

#[test]
fn fetch_prefers_local_then_repairs_from_remote() {
    let mut mgr = BlockManager::new();
    let id = compute_block_id(&b"bytes".to_vec());

    // Not local, no replica answered: not found, nothing stored.
    assert!(matches!(mgr.fetch(&id, None), Err(Error::BlockNotFound)));

    // Not local, a replica supplied tampered bytes: corruption, nothing
    // stored or returned.
    assert!(matches!(
        mgr.fetch(&id, Some(&b"tampered".to_vec())),
        Err(Error::BlockCorrupt)
    ));
    assert!(mgr.get_local(&id).is_none());

    // Intact remote bytes are returned and the local copy is repaired.
    match mgr.fetch(&id, Some(&b"bytes".to_vec())) {
        Ok(data) => assert_eq!(data, b"bytes".to_vec()),
        Err(_) => panic!("intact bytes must be served"),
    }
    assert!(mgr.get_local(&id).is_some());

    // Now local: served without any remote bytes.
    match mgr.fetch(&id, None) {
        Ok(data) => assert_eq!(data, b"bytes".to_vec()),
        Err(_) => panic!("a local block must be served"),
    }
}

#[test]
fn get_local_misses_unknown_block() {
    let mgr = BlockManager::new();
    let id = compute_block_id(&b"never stored".to_vec());
    assert!(mgr.get_local(&id).is_none());
}
