use gbnet::channel::{Channel, ChannelError};
use gbnet::config::ChannelConfig;

#[test]
fn test_channel_send_receive() {
    let config = ChannelConfig::reliable_ordered();
    let mut sender = Channel::new(0, config);
    let mut receiver = Channel::new(0, config);

    sender.send(b"test message", true).unwrap();
    let (_seq, wire) = sender.get_outgoing_message(0).unwrap();

    receiver.on_packet_received(wire, 0);
    let received = receiver.receive().unwrap();
    assert_eq!(received, b"test message");
}

#[test]
fn test_channel_buffer_full() {
    let mut config = ChannelConfig::reliable_ordered();
    config.message_buffer_size = 2;
    config.block_on_full = true;

    let mut channel = Channel::new(0, config);

    assert!(channel.send(b"msg1", false).is_ok());
    assert!(channel.send(b"msg2", false).is_ok());
    assert!(matches!(channel.send(b"msg3", false), Err(ChannelError::BufferFull)));
}

#[test]
fn test_channel_drops_oldest_when_not_blocking() {
    let mut config = ChannelConfig::unreliable();
    config.message_buffer_size = 2;
    config.block_on_full = false;

    let mut channel = Channel::new(0, config);
    assert!(channel.send(b"msg1", false).is_ok());
    assert!(channel.send(b"msg2", false).is_ok());
    assert!(channel.send(b"msg3", false).is_ok());
    // msg1 was dropped to make room.
    let (seq_a, _) = channel.get_outgoing_message(0).unwrap();
    assert_eq!(seq_a, 1);
}

#[test]
fn test_channel_message_too_large() {
    let mut config = ChannelConfig::unreliable();
    config.max_message_size = 4;
    let mut channel = Channel::new(0, config);
    assert!(matches!(
        channel.send(b"too long", false),
        Err(ChannelError::MessageTooLarge)
    ));
}

#[test]
fn test_all_delivery_modes() {
    let modes = [
        ChannelConfig::unreliable(),
        ChannelConfig::unreliable_sequenced(),
        ChannelConfig::reliable_unordered(),
        ChannelConfig::reliable_ordered(),
        ChannelConfig::reliable_sequenced(),
    ];

    for config in &modes {
        let mut sender = Channel::new(0, *config);
        let mut receiver = Channel::new(0, *config);

        sender.send(b"data", true).unwrap();
        let (_seq, wire) = sender.get_outgoing_message(0).unwrap();
        receiver.on_packet_received(wire, 0);

        let msg = receiver.receive();
        assert!(msg.is_some(), "Failed for mode {:?}", config.delivery_mode);
        assert_eq!(msg.unwrap(), b"data");
    }
}

#[test]
fn test_unreliable_channel_with_reliable_message() {
    let config = ChannelConfig::unreliable();
    let mut ch = Channel::new(0, config);

    // Send with the reliable flag on an unreliable channel — tracked for ack.
    ch.send(b"important", true).unwrap();
    let (_seq, _wire) = ch.get_outgoing_message(0).unwrap();
    assert_eq!(ch.pending_ack_count(), 1, "reliable=true should create pending ACK");
}

#[test]
fn test_reliable_channel_with_unreliable_message() {
    let config = ChannelConfig::reliable_ordered();
    let mut ch = Channel::new(0, config);

    // Send with the reliable flag off on a reliable channel — fire and forget.
    ch.send(b"fire-and-forget", false).unwrap();
    let (_seq, _wire) = ch.get_outgoing_message(0).unwrap();
    assert_eq!(ch.pending_ack_count(), 0, "reliable=false should skip pending ACK");
}

fn make_wire(seq: u16, data: &[u8]) -> Vec<u8> {
    let mut wire = Vec::with_capacity(2 + data.len());
    wire.extend_from_slice(&seq.to_be_bytes());
    wire.extend_from_slice(data);
    wire
}

#[test]
fn test_ordered_channel_timeout_recovery() {
    let mut config = ChannelConfig::reliable_ordered();
    config.ordered_buffer_timeout_ms = 50;
    let mut ch = Channel::new(0, config);

    // Receive seq 1 and 2, skip seq 0
    ch.on_packet_received(make_wire(1, b"msg1"), 0);
    ch.on_packet_received(make_wire(2, b"msg2"), 0);

    // Nothing delivered yet (waiting for seq 0)
    assert!(ch.receive().is_none());

    // After the timeout the gap is skipped.
    ch.update(60);

    let msg1 = ch.receive().expect("Should deliver msg1 after timeout");
    assert_eq!(msg1, b"msg1");
    let msg2 = ch.receive().expect("Should deliver msg2 after timeout");
    assert_eq!(msg2, b"msg2");
}

#[test]
fn test_ordered_channel_gap_fill() {
    let config = ChannelConfig::reliable_ordered();
    let mut ch = Channel::new(0, config);

    ch.on_packet_received(make_wire(1, b"second"), 0);
    assert!(ch.receive().is_none());
    ch.on_packet_received(make_wire(0, b"first"), 0);
    assert_eq!(ch.receive().unwrap(), b"first");
    assert_eq!(ch.receive().unwrap(), b"second");
}

#[test]
fn test_reliable_unordered_deduplicates() {
    let config = ChannelConfig::reliable_unordered();
    let mut ch = Channel::new(0, config);
    ch.on_packet_received(make_wire(5, b"once"), 0);
    ch.on_packet_received(make_wire(5, b"once"), 0);
    assert_eq!(ch.receive().unwrap(), b"once");
    assert!(ch.receive().is_none());
}

#[test]
fn test_sequenced_drops_older() {
    let config = ChannelConfig::unreliable_sequenced();
    let mut ch = Channel::new(0, config);
    ch.on_packet_received(make_wire(3, b"newer"), 0);
    ch.on_packet_received(make_wire(1, b"older"), 0);
    assert_eq!(ch.receive().unwrap(), b"newer");
    assert!(ch.receive().is_none());
}

#[test]
fn test_channel_ack_releases_slot() {
    let config = ChannelConfig::reliable_ordered();
    let mut ch = Channel::new(0, config);
    ch.send(b"tracked", true).unwrap();
    let (seq, _wire) = ch.get_outgoing_message(0).unwrap();
    assert_eq!(ch.pending_ack_count(), 1);
    ch.on_ack(seq);
    assert_eq!(ch.pending_ack_count(), 0);
}

#[test]
fn test_channel_retransmits_after_rto() {
    let config = ChannelConfig::reliable_ordered();
    let mut ch = Channel::new(0, config);
    ch.send(b"again", true).unwrap();
    let (_seq, _wire) = ch.get_outgoing_message(0).unwrap();
    let none_yet = ch.get_retransmit_messages(50, 100);
    assert_eq!(none_yet.len(), 0);
    let due = ch.get_retransmit_messages(150, 100);
    assert_eq!(due.len(), 1);
}

#[test]
fn test_multi_channel_messages() {
    let reliable_config = ChannelConfig::reliable_ordered();
    let unreliable_config = ChannelConfig::unreliable();

    let mut reliable_sender = Channel::new(0, reliable_config);
    let mut reliable_receiver = Channel::new(0, reliable_config);
    let mut unreliable_sender = Channel::new(1, unreliable_config);
    let mut unreliable_receiver = Channel::new(1, unreliable_config);

    reliable_sender.send(b"important data", true).unwrap();
    unreliable_sender.send(b"position update", false).unwrap();

    let (_seq1, wire1) = reliable_sender.get_outgoing_message(0).unwrap();
    let (_seq2, wire2) = unreliable_sender.get_outgoing_message(0).unwrap();

    reliable_receiver.on_packet_received(wire1, 0);
    unreliable_receiver.on_packet_received(wire2, 0);

    assert_eq!(reliable_receiver.receive().unwrap(), b"important data");
    assert_eq!(unreliable_receiver.receive().unwrap(), b"position update");
}

#[test]
fn test_ordered_channel_waits_below_timeout() {
    let mut config = ChannelConfig::reliable_ordered();
    config.ordered_buffer_timeout_ms = 50;
    let mut ch = Channel::new(0, config);
    ch.on_packet_received(make_wire(1, b"early"), 0);
    assert!(ch.receive().is_none());
    // Below the timeout the gap still blocks delivery.
    ch.update(10);
    assert!(ch.receive().is_none());
}
