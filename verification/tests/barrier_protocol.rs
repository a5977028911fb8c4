use fanout_ring::barrier::ReuseBarrier;

#[test]
fn fresh_barrier_is_writable_not_readable() {
    let b = ReuseBarrier::new(3);
    assert_eq!(b.consumer_count(), 3);
    assert_eq!(b.pending_count(), 0);
    assert!(b.ready_for_fill());
    assert!(!b.ready_for_drain());
}

#[test]
fn publish_hands_one_drain_to_every_consumer() {
    let mut b = ReuseBarrier::new(3);
    b.publish();
    assert_eq!(b.pending_count(), 3);
    assert!(!b.ready_for_fill());
    assert!(b.ready_for_drain());
}

#[test]
fn only_last_take_reports_last() {
    let mut b = ReuseBarrier::new(3);
    b.publish();
    assert!(!b.take());
    assert!(!b.take());
    assert!(b.take());
    assert_eq!(b.pending_count(), 0);
    assert!(b.ready_for_fill());
    assert!(!b.ready_for_drain());
}

#[test]
fn single_consumer_alternates() {
    let mut b = ReuseBarrier::new(1);
    for _ in 0..4 {
        assert!(b.ready_for_fill());
        b.publish();
        assert!(!b.ready_for_fill());
        assert!(b.ready_for_drain());
        assert!(b.take());
        assert!(!b.ready_for_drain());
    }
}
