use gbnet::reliability::{ReliableEndpoint, SequenceBuffer};

#[test]
fn test_rtt_convergence() {
    let mut endpoint = ReliableEndpoint::new(256);

    // Directly feed identical samples to the estimator.
    for _ in 0..20 {
        endpoint.update_rtt(50);
    }

    assert!(
        endpoint.srtt() > 40 && endpoint.srtt() < 60,
        "SRTT {} should be near 50ms",
        endpoint.srtt()
    );
    assert_eq!(endpoint.srtt(), 50);
}

#[test]
fn test_adaptive_rto() {
    let mut endpoint = ReliableEndpoint::new(256);

    // First sample
    endpoint.update_rtt(50);
    assert!(endpoint.rto() >= 50);

    // High jitter sample
    endpoint.update_rtt(200);
    assert!(endpoint.rto() > 50, "RTO should increase with jitter");

    // RTO bounded
    endpoint.update_rtt(5000);
    assert!(endpoint.rto() <= 2000, "RTO should be capped at 2s");
}

#[test]
fn test_packet_loss_tracking() {
    let mut endpoint = ReliableEndpoint::new(256);

    // Simulate mixed success/failure by directly recording samples
    for _ in 0..8 {
        endpoint.record_loss_sample(false); // success
    }
    for _ in 0..2 {
        endpoint.record_loss_sample(true); // loss
    }

    let loss = endpoint.packet_loss_permille();
    assert_eq!(loss, 200, "Should be 20% loss, got {} permille", loss);
}

#[test]
fn test_progressive_backoff() {
    let mut endpoint = ReliableEndpoint::new(256);
    let now: u64 = 0;

    endpoint.on_packet_sent(0, now, vec![1, 2, 3], 0, 0);

    // First timeout at RTO
    let t1 = now + endpoint.rto() + 1;
    let resent = endpoint.update(t1);
    assert_eq!(resent.len(), 1);
    assert_eq!(resent.get(0).0, 0);
    assert_eq!(resent.get(0).1, vec![1, 2, 3]);

    // Second timeout should take ~2x RTO from t1
    let t2 = t1 + endpoint.rto();
    let resent2 = endpoint.update(t2);
    assert_eq!(resent2.len(), 0, "Should not resend yet (backoff)");

    let t3 = t1 + endpoint.rto() * 2 + 1;
    let resent3 = endpoint.update(t3);
    assert_eq!(resent3.len(), 1, "Should resend after 2x RTO");
}

#[test]
fn test_fast_retransmit() {
    let mut endpoint = ReliableEndpoint::new(256);
    let now: u64 = 0;

    endpoint.on_packet_sent(5, now, vec![5, 5, 5], 0, 5);

    // 1st dup ack - no retransmit
    assert!(endpoint.on_duplicate_ack(5, now).is_none());
    // 2nd dup ack - no retransmit
    assert!(endpoint.on_duplicate_ack(5, now).is_none());
    // 3rd dup ack - trigger fast retransmit
    let result = endpoint.on_duplicate_ack(5, now);
    assert!(result.is_some());
    assert_eq!(result.unwrap().0, 5);
}

#[test]
fn reliability_test_sequence_buffer_operations() {
    let mut buffer: SequenceBuffer<u32> = SequenceBuffer::new(16);

    buffer.insert(0, 100);
    buffer.insert(1, 200);
    buffer.insert(2, 300);

    assert!(buffer.contains(0));
    assert!(buffer.contains(1));
    assert!(buffer.contains(2));
    assert!(!buffer.contains(3));

    assert_eq!(*buffer.get(0).unwrap(), 100);
    assert_eq!(*buffer.get(1).unwrap(), 200);
    assert_eq!(*buffer.get(2).unwrap(), 300);
}

#[test]
fn test_sequence_buffer_wraparound() {
    let mut buffer: SequenceBuffer<u32> = SequenceBuffer::new(16);

    // Insert near u16::MAX
    buffer.insert(65534, 100);
    buffer.insert(65535, 200);
    buffer.insert(0, 300);
    buffer.insert(1, 400);

    assert!(buffer.contains(65534));
    assert!(buffer.contains(65535));
    assert!(buffer.contains(0));
    assert!(buffer.contains(1));
}

#[test]
fn test_sequence_buffer_collision_detected() {
    // Two sequences sharing a slot modulo the size are never confused.
    let mut buffer: SequenceBuffer<u32> = SequenceBuffer::new(16);
    buffer.insert(0, 100);
    assert!(buffer.contains(0));
    assert!(!buffer.contains(16));
    buffer.insert(16, 200);
    assert!(buffer.contains(16));
    assert!(!buffer.contains(0));
}

#[test]
fn test_in_flight_cap_eviction() {
    let mut endpoint = ReliableEndpoint::new(256).with_max_in_flight(4);
    let now: u64 = 0;

    // Send 4 packets (at capacity)
    for i in 0..4u16 {
        endpoint.on_packet_sent(i, now, vec![i as u8], 0, i);
    }
    assert_eq!(endpoint.packets_in_flight(), 4);

    // Send a 5th — should evict one
    endpoint.on_packet_sent(4, now, vec![4], 0, 4);
    assert_eq!(endpoint.packets_in_flight(), 4);
    assert_eq!(endpoint.packets_evicted(), 1);
}

#[test]
fn test_in_flight_evicts_highest_retry() {
    let mut endpoint = ReliableEndpoint::new(256).with_max_in_flight(3);
    let now: u64 = 0;

    endpoint.on_packet_sent(0, now, vec![0], 0, 0);
    endpoint.on_packet_sent(1, now, vec![1], 0, 1);
    endpoint.on_packet_sent(2, now, vec![2], 0, 2);

    // Retry everything once past RTO, then once more past the doubled RTO.
    let t1 = now + endpoint.rto() + 1;
    let _ = endpoint.update(t1);
    let t2 = t1 + endpoint.rto() * 2 + 1;
    let _ = endpoint.update(t2);

    // A 4th packet evicts the packet with the most retries.
    endpoint.on_packet_sent(3, now + 1000000, vec![3], 0, 3);
    assert_eq!(endpoint.packets_in_flight(), 3);
    assert_eq!(endpoint.packets_evicted(), 1);
}

#[test]
fn test_ack_retires_in_flight() {
    let mut endpoint = ReliableEndpoint::new(256);
    endpoint.on_packet_sent(0, 0, vec![1], 0, 0);
    endpoint.on_packet_sent(1, 0, vec![2], 0, 1);
    assert_eq!(endpoint.packets_in_flight(), 2);
    endpoint.process_acks(0, 0, 10);
    assert_eq!(endpoint.packets_in_flight(), 1);
    // Ack bit 0 stands for sequence 0 relative to ack=1; retire the rest.
    endpoint.process_acks(1, 0, 20);
    assert_eq!(endpoint.packets_in_flight(), 0);
}

#[test]
fn test_ack_bits_track_received_sequences() {
    let mut endpoint = ReliableEndpoint::new(256);
    endpoint.on_packet_received(0, 0);
    let (ack0, bits0) = endpoint.get_ack_info();
    assert_eq!(ack0, 0);
    assert_eq!(bits0, 0, "the first packet has nothing earlier to acknowledge");

    endpoint.on_packet_received(1, 0);
    let (ack1, bits1) = endpoint.get_ack_info();
    assert_eq!(ack1, 1);
    assert_eq!(bits1 & 1, 1, "bit 0 stands for sequence 0");

    // A gap: sequence 2 is skipped, 3 arrives.
    endpoint.on_packet_received(3, 0);
    let (ack3, bits3) = endpoint.get_ack_info();
    assert_eq!(ack3, 3);
    assert_eq!(bits3 & 1, 0, "sequence 2 was never received: no false positive");
    assert_eq!((bits3 >> 1) & 1, 1, "sequence 1 was received");
    assert_eq!((bits3 >> 2) & 1, 1, "sequence 0 was received");
}

#[test]
fn test_endpoint_stats_snapshot() {
    let mut endpoint = ReliableEndpoint::new(256);
    endpoint.on_packet_sent(0, 0, vec![9], 0, 0);
    let stats = endpoint.stats();
    assert_eq!(stats.packets_in_flight, 1);
    assert_eq!(stats.total_sent, 1);
    assert_eq!(stats.rto_ms, 100);
}

#[test]
fn test_reliable_endpoint_sequences() {
    let mut endpoint = ReliableEndpoint::new(256);

    assert_eq!(endpoint.next_sequence(), 0);
    assert_eq!(endpoint.next_sequence(), 1);
    assert_eq!(endpoint.next_sequence(), 2);

    for i in 3..10 {
        assert_eq!(endpoint.next_sequence(), i);
    }
}

#[test]
fn test_reliable_endpoint_tracking() {
    let mut endpoint = ReliableEndpoint::new(256);
    let now: u64 = 0;

    endpoint.on_packet_sent(0, now, vec![1, 2, 3], 0, 0);
    endpoint.on_packet_sent(1, now, vec![4, 5, 6], 0, 1);

    let stats = endpoint.stats();
    assert_eq!(stats.packets_in_flight, 2);

    endpoint.process_acks(0, 0, 10);
    let stats = endpoint.stats();
    assert_eq!(stats.packets_in_flight, 1);
}

#[test]
fn test_process_acks_reports_channel_tags() {
    let mut endpoint = ReliableEndpoint::new(256);
    endpoint.on_packet_sent(0, 0, vec![1], 2, 40);
    endpoint.on_packet_sent(1, 0, vec![2], 3, 41);
    // Ack sequence 1 directly and sequence 0 through bit 0.
    let released = endpoint.process_acks(1, 1, 10);
    assert_eq!(released.len(), 2);
    assert!(released.contains(&(3, 41)));
    assert!(released.contains(&(2, 40)));
    // Nothing is left in flight and a repeat ack reports nothing.
    assert_eq!(endpoint.packets_in_flight(), 0);
    assert_eq!(endpoint.process_acks(1, 1, 20).len(), 0);
}

#[test]
fn test_fresh_endpoint_counters_start_at_zero() {
    let endpoint = ReliableEndpoint::new(256);
    let stats = endpoint.stats();
    assert_eq!(stats.total_sent, 0);
    assert_eq!(stats.total_acked, 0);
    assert_eq!(stats.total_lost, 0);
    assert_eq!(stats.packets_evicted, 0);
}
