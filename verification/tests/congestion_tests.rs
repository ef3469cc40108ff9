use gbnet::congestion::{batch_messages, unbatch_messages, BandwidthTracker, CongestionController,
    CongestionMode};

#[test]
fn test_batch_unbatch_roundtrip() {
    let messages = vec![b"hello".to_vec(), b"world".to_vec(), b"test".to_vec()];

    let batches = batch_messages(&messages, 1200);
    assert_eq!(batches.len(), 1);

    let unbatched = unbatch_messages(&batches[0]).unwrap();
    assert_eq!(unbatched, messages);
}

#[test]
fn test_batch_splits_at_mtu() {
    let messages: Vec<Vec<u8>> = (0..10).map(|_| vec![0u8; 200]).collect();
    let batches = batch_messages(&messages, 500);
    assert!(batches.len() > 1);

    // Verify all messages are preserved
    let mut total = 0;
    for batch in &batches {
        total += unbatch_messages(batch).unwrap().len();
    }
    assert_eq!(total, 10);
}

#[test]
fn test_batch_respects_size_cap() {
    let messages: Vec<Vec<u8>> = (0..10).map(|_| vec![7u8; 200]).collect();
    let batches = batch_messages(&messages, 500);
    assert!(batches.len() >= 2);
    for batch in &batches {
        assert!(batch.len() <= 500);
    }
    let mut recovered: Vec<Vec<u8>> = Vec::new();
    for batch in &batches {
        recovered.extend(unbatch_messages(batch).unwrap());
    }
    assert_eq!(recovered, messages);
}

#[test]
fn test_unbatch_rejects_truncated_length() {
    // One message announced, but only one length byte present.
    let data = vec![1u8, 0u8];
    assert!(unbatch_messages(&data).is_none());
}

#[test]
fn test_unbatch_rejects_overrun() {
    // Announces a 10-byte message but carries only 2 bytes.
    let data = vec![1u8, 0u8, 10u8, 0xAA, 0xBB];
    assert!(unbatch_messages(&data).is_none());
}

#[test]
fn test_unbatch_rejects_empty() {
    assert!(unbatch_messages(&[]).is_none());
}

#[test]
fn test_congestion_transition_times() {
    // base rate 60, loss threshold 100 permille, rtt threshold 250 ms,
    // recovery 100 ms.
    let mut cc = CongestionController::new(60, 100, 250, 100);

    assert_eq!(cc.mode(), CongestionMode::Good);
    assert_eq!(cc.send_rate(), 60);

    // Bad conditions: 20% loss at 100 ms rtt.
    cc.update(200, 100, 0);
    assert_eq!(cc.mode(), CongestionMode::Bad);
    assert_eq!(cc.send_rate(), 30);

    // Good conditions but not long enough.
    cc.update(10, 50, 10);
    assert_eq!(cc.mode(), CongestionMode::Bad);

    // Conditions stay good past the recovery window.
    cc.update(10, 50, 160);
    assert_eq!(cc.mode(), CongestionMode::Good);
    assert_eq!(cc.send_rate(), 60);
}

#[test]
fn test_congestion_relapse_resets_recovery() {
    let mut cc = CongestionController::new(60, 100, 250, 100);
    cc.update(200, 100, 0);
    assert_eq!(cc.mode(), CongestionMode::Bad);
    cc.update(10, 50, 10);
    // Relapse: the recovery timer restarts.
    cc.update(300, 50, 50);
    cc.update(10, 50, 120);
    assert_eq!(cc.mode(), CongestionMode::Bad);
    cc.update(10, 50, 230);
    assert_eq!(cc.mode(), CongestionMode::Good);
}

#[test]
fn test_can_send_respects_rate() {
    let cc = CongestionController::new(60, 100, 250, 10000);
    assert!(cc.can_send(0));
    assert!(cc.can_send(59));
    assert!(!cc.can_send(60));
}

#[test]
fn test_bandwidth_tracker() {
    let mut tracker = BandwidthTracker::new(1000);
    tracker.record(1000, 0);
    tracker.record(2000, 10);
    assert!(tracker.bytes_in_window() > 0);
    assert_eq!(tracker.bytes_in_window(), 3000);
}

#[test]
fn test_bandwidth_tracker_expires_samples() {
    let mut tracker = BandwidthTracker::new(1000);
    tracker.record(1000, 0);
    tracker.record(2000, 2000);
    // The first sample is older than the window by the second record.
    assert_eq!(tracker.bytes_in_window(), 2000);
}
