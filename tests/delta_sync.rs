use sync_engine::delta_sync::{DeltaTracker, VectorClock};

#[test]
fn vector_clock_keeps_maximum() {
    let mut c = VectorClock::new();
    assert_eq!(c.get("a"), 0);
    c.update("a", 5);
    c.update("a", 3);
    c.update("b", 1);
    assert_eq!(c.get("a"), 5);
    assert_eq!(c.get("b"), 1);
    c.update("a", 9);
    assert_eq!(c.get("a"), 9);
}

#[test]
fn delta_tracker_numbers_changes() {
    let mut t = DeltaTracker::new("peer".to_string());
    assert_eq!(t.next_seq(), 1);
    assert_eq!(t.record_change("u1", "name", "Alice"), 1);
    assert_eq!(t.record_change("u1", "city", "Boston"), 2);
    assert_eq!(t.next_seq(), 3);
    assert_eq!(t.peer_id, "peer");
    assert_eq!(t.vector_clock.get("peer"), 0);
}
