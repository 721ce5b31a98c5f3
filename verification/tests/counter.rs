use garage_core::counter::CounterEntry;

#[test]
fn replayed_increment_does_not_double_count() {
    let mut c = CounterEntry::new();
    c.increment(7, 5);
    c.increment(7, 5);
    assert_eq!(c.total(), 5);
}

#[test]
fn distinct_increments_merge_to_their_sum_in_either_order() {
    let mut a = CounterEntry::new();
    a.increment(1, 3);
    let mut b = CounterEntry::new();
    b.increment(2, 4);

    let mut ab = CounterEntry::new();
    ab.increment(1, 3);
    ab.merge_from(&b);
    assert_eq!(ab.total(), 7);

    let mut ba = CounterEntry::new();
    ba.increment(2, 4);
    ba.merge_from(&a);
    assert_eq!(ba.total(), 7);
}

#[test]
fn merge_is_idempotent_over_shared_operations() {
    let mut a = CounterEntry::new();
    a.increment(1, 3);
    a.increment(2, 4);
    let mut b = CounterEntry::new();
    b.increment(2, 4);
    b.increment(3, -2);
    a.merge_from(&b);
    assert_eq!(a.total(), 5);
    a.merge_from(&b);
    assert_eq!(a.total(), 5);
}

#[test]
fn contains_op_reports_recorded_identifiers() {
    let mut c = CounterEntry::new();
    assert!(!c.contains_op(7));
    c.increment(7, 1);
    assert!(c.contains_op(7));
    assert!(!c.contains_op(8));
}

#[test]
fn empty_counter_reads_zero() {
    let c = CounterEntry::new();
    assert_eq!(c.total(), 0);
}
