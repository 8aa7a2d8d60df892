use std::time::Duration;
use sync_engine::network::{dag_gc_removed, measure_dag_gc_local, safe_threshold};
use sync_engine::GcMessage;

#[test]
fn test_message_serialization() {
    let msg = GcMessage::WatermarkReport { peer_id: "test".to_string(), version: 12345 };
    let bytes = msg.to_bytes();
    let decoded = GcMessage::from_bytes(&bytes).unwrap();
    if let GcMessage::WatermarkReport { peer_id, version } = decoded {
        assert_eq!(peer_id, "test");
        assert_eq!(version, 12345);
    } else {
        panic!("Wrong message type");
    }
}

#[test]
fn test_dag_gc_local() {
    let elapsed = measure_dag_gc_local(1000, 100);
    assert!(elapsed < Duration::from_millis(10));
}

#[test]
fn message_wire_bytes() {
    let msg = GcMessage::WatermarkReport { peer_id: "ab".to_string(), version: 0x0102 };
    assert_eq!(msg.to_bytes(), vec![0, 2, 0, 0, 0, b'a', b'b', 2, 1, 0, 0, 0, 0, 0, 0]);
    assert_eq!(GcMessage::SafeThreshold { threshold: 7 }.to_bytes(), vec![1, 7, 0, 0, 0, 0, 0, 0, 0]);
    assert_eq!(GcMessage::Ack.to_bytes(), vec![2]);
}

#[test]
fn message_decoding_rejects() {
    assert!(GcMessage::from_bytes(&[]).is_none());
    assert!(GcMessage::from_bytes(&[9]).is_none());
    assert!(GcMessage::from_bytes(&[1, 0, 0]).is_none());
    assert!(GcMessage::from_bytes(&[0, 5, 0, 0, 0, 1, 2, 3, 4, 5, 6, 7, 8]).is_none());
    match GcMessage::from_bytes(&[1, 44, 1, 0, 0, 0, 0, 0, 0]) {
        Some(GcMessage::SafeThreshold { threshold }) => assert_eq!(threshold, 300),
        _ => panic!("expected a threshold"),
    }
    assert!(matches!(GcMessage::from_bytes(&[2, 9, 9]), Some(GcMessage::Ack)));
    match GcMessage::from_bytes(&[0, 1, 0, 0, 0, 0xff, 1, 0, 0, 0, 0, 0, 0, 0]) {
        Some(GcMessage::WatermarkReport { peer_id, version }) => {
            assert_eq!(peer_id, "\u{fffd}");
            assert_eq!(version, 1);
        }
        _ => panic!("expected a report"),
    }
}

#[test]
fn threshold_and_local_gc_count() {
    assert_eq!(safe_threshold(&vec![]), 0);
    assert_eq!(safe_threshold(&vec![300, 100, 200]), 100);
    assert_eq!(dag_gc_removed(1000, 100), 900);
    assert_eq!(dag_gc_removed(5, 10), 0);
}
