use garage_core::ring::{owner_of, replica_indices, score};

#[test]
fn scores_are_deterministic() {
    assert_eq!(score(3, 17), score(3, 17));
}

#[test]
fn owner_is_stable_under_one_join() {
    // Adding one node never moves a partition between two old nodes: the
    // owner either stays or moves to the new node.
    let old_nodes: Vec<u64> = (0..10).collect();
    let mut new_nodes: Vec<u64> = (0..10).collect();
    new_nodes.push(10);
    for p in 0..1000u64 {
        let before = owner_of(&old_nodes, p);
        let after = owner_of(&new_nodes, p);
        assert!(after == before || after == 10);
    }
}

#[test]
fn one_join_remaps_about_one_share() {
    // Going from 10 to 11 nodes should move close to 1/11 of the 1000
    // partitions — a bounds check, not an exact count.
    let old_nodes: Vec<u64> = (0..10).collect();
    let mut new_nodes: Vec<u64> = (0..10).collect();
    new_nodes.push(10);
    let mut remapped: u64 = 0;
    for p in 0..1000u64 {
        if owner_of(&old_nodes, p) != owner_of(&new_nodes, p) {
            remapped += 1;
        }
    }
    // The expectation is 1000 / 11, roughly 91; far outside that, the
    // placement is not rendezvous-stable.
    assert!(remapped >= 45, "remapped only {} partitions", remapped);
    assert!(remapped <= 182, "remapped {} partitions", remapped);
}

#[test]
fn replica_sets_are_distinct_and_sized() {
    for p in 0..50u64 {
        let r = replica_indices(10, 3, p);
        assert_eq!(r.len(), 3);
        for i in 0..r.len() {
            assert!(r[i] < 10);
            for j in 0..r.len() {
                if i != j {
                    assert_ne!(r[i], r[j]);
                }
            }
        }
    }
    // A replication factor above the node count is capped at the node
    // count.
    let r = replica_indices(2, 3, 5);
    assert_eq!(r.len(), 2);
}
