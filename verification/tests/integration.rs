use gbnet::congestion::{batch_messages, unbatch_messages};
use gbnet::connection::{Connection, ConnectionError, ConnectionState};
use gbnet::fragment::{fragment_message, FragmentAssembler, MtuDiscovery};
use gbnet::packet::{Packet, PacketHeader, PacketType};
use gbnet::server::{encode_datagram, decode_datagram, ServerCore, ServerEvent};
use gbnet::NetworkConfig;

#[test]
fn test_fragmentation_end_to_end() {
    let data = vec![0xABu8; 5000]; // Larger than MTU
    let fragments = fragment_message(1, &data, 1024).unwrap();
    assert!(fragments.len() > 1, "Should produce multiple fragments");

    let mut assembler = FragmentAssembler::new(5000, 1024 * 1024);

    // Deliver fragments out of order
    let mut result = None;
    let len = fragments.len();
    for i in (0..len).rev() {
        result = assembler.process_fragment(&fragments[i], 0);
    }

    let assembled = result.expect("Should reassemble all fragments");
    assert_eq!(assembled, data);
}

#[test]
fn test_batching_integration() {
    let messages: Vec<Vec<u8>> = (0..20).map(|i| format!("message {}", i).into_bytes()).collect();

    let batches = batch_messages(&messages, 200);
    assert!(batches.len() > 1, "Should produce multiple batches");

    let mut recovered = Vec::new();
    for batch in &batches {
        let msgs = unbatch_messages(batch).expect("Should unbatch");
        recovered.extend(msgs);
    }
    assert_eq!(recovered, messages);
}

#[test]
fn test_fragment_too_many_fragments_error() {
    // 25600 bytes at 100 bytes per fragment would need 256 fragments,
    // one more than a count byte can carry.
    let big_data = vec![0u8; 256 * 100];
    let result = fragment_message(0, &big_data, 100);
    assert!(result.is_err(), "Should error on too many fragments");
}

#[test]
fn test_fragment_mismatched_count_rejected() {
    let data = vec![0x55u8; 3000];
    let fragments = fragment_message(9, &data, 1024).unwrap();
    let mut assembler = FragmentAssembler::new(5000, 1024 * 1024);
    assert!(assembler.process_fragment(&fragments[0], 0).is_none());
    // Forge a fragment of the same message claiming a different count.
    let mut forged = fragments[1].clone();
    forged[3] = forged[3].wrapping_add(1);
    assert!(assembler.process_fragment(&forged, 0).is_none());
    // The honest remaining fragments still complete the message.
    assert!(assembler.process_fragment(&fragments[1], 0).is_none());
    let done = assembler.process_fragment(&fragments[2], 0);
    assert_eq!(done.unwrap(), data);
}

#[test]
fn test_fragment_truncated_header_rejected() {
    let mut assembler = FragmentAssembler::new(5000, 1024 * 1024);
    assert!(assembler.process_fragment(&[1, 2, 3], 0).is_none());
}

#[test]
fn test_connection_states() {
    let config = NetworkConfig::default();
    let mut conn = Connection::new(config, 0);

    assert!(!conn.is_connected());
    assert!(conn.connect(0).is_ok());
    assert!(matches!(conn.connect(0), Err(ConnectionError::AlreadyConnected)));
}

#[test]
fn test_connection_times_out_without_traffic() {
    let config = NetworkConfig::default();
    let mut conn = Connection::new(config, 0);
    conn.connect(0).unwrap();
    let late = config.connection_timeout_ms + 1;
    assert!(matches!(conn.update_tick(late), Err(ConnectionError::Timeout)));
    assert_eq!(conn.state(), ConnectionState::Disconnected);
}

fn control_packet(protocol_id: u32, packet_type: PacketType) -> Packet {
    let header = PacketHeader { protocol_id, sequence: 0, ack: 0, ack_bits: 0 };
    Packet::new(header, packet_type)
}

#[test]
fn test_server_handshake() {
    let config = NetworkConfig::default();
    let mut server = ServerCore::new(config).unwrap();
    let peer: u64 = 7;
    let mut events = Vec::new();
    let mut replies = Vec::new();

    // Client -> ConnectionRequest; server answers with a challenge.
    server.handle_server_packet(
        peer,
        control_packet(config.protocol_id, PacketType::ConnectionRequest),
        0,
        &mut events,
        &mut replies,
    );
    assert_eq!(replies.len(), 1);
    let salt = match replies[0].1 {
        PacketType::ConnectionChallenge { server_salt } => server_salt,
        _ => panic!("expected a challenge"),
    };

    // Client -> ConnectionResponse with a fresh, distinct salt; server accepts.
    let client_salt = salt.wrapping_add(1).max(1);
    server.handle_server_packet(
        peer,
        control_packet(config.protocol_id, PacketType::ConnectionResponse { client_salt }),
        5,
        &mut events,
        &mut replies,
    );
    assert!(matches!(replies[1].1, PacketType::ConnectionAccept));
    assert!(events.iter().any(|e| matches!(e, ServerEvent::ClientConnected(p) if *p == peer)));
    assert_eq!(server.client_count(), 1);
}

#[test]
fn test_server_handshake_idempotent() {
    let config = NetworkConfig::default();
    let mut server = ServerCore::new(config).unwrap();
    let peer: u64 = 42;
    let mut events = Vec::new();
    let mut replies = Vec::new();

    server.handle_server_packet(
        peer,
        control_packet(config.protocol_id, PacketType::ConnectionRequest),
        0,
        &mut events,
        &mut replies,
    );
    server.handle_server_packet(
        peer,
        control_packet(config.protocol_id, PacketType::ConnectionRequest),
        10,
        &mut events,
        &mut replies,
    );
    assert_eq!(replies.len(), 2);
    let salt0 = match replies[0].1 {
        PacketType::ConnectionChallenge { server_salt } => server_salt,
        _ => panic!("expected a challenge"),
    };
    let salt1 = match replies[1].1 {
        PacketType::ConnectionChallenge { server_salt } => server_salt,
        _ => panic!("expected the same challenge again"),
    };
    assert_eq!(salt0, salt1, "repeated request must re-emit the identical challenge");
}

#[test]
fn test_server_rejects_echoed_salt() {
    let config = NetworkConfig::default();
    let mut server = ServerCore::new(config).unwrap();
    let peer: u64 = 3;
    let mut events = Vec::new();
    let mut replies = Vec::new();

    server.handle_server_packet(
        peer,
        control_packet(config.protocol_id, PacketType::ConnectionRequest),
        0,
        &mut events,
        &mut replies,
    );
    let salt = match replies[0].1 {
        PacketType::ConnectionChallenge { server_salt } => server_salt,
        _ => panic!("expected a challenge"),
    };
    // Echoing the server's salt back is an invalid challenge answer.
    server.handle_server_packet(
        peer,
        control_packet(config.protocol_id, PacketType::ConnectionResponse { client_salt: salt }),
        1,
        &mut events,
        &mut replies,
    );
    assert!(matches!(replies[1].1, PacketType::ConnectionDeny { reason: 4 }));
    assert_eq!(server.client_count(), 0);
}

#[test]
fn test_server_full_denies() {
    let config = NetworkConfig { max_clients: 1, max_pending: 4, ..Default::default() };
    let mut server = ServerCore::new(config).unwrap();
    let mut events = Vec::new();
    let mut replies = Vec::new();

    for peer in [1u64, 2u64] {
        server.handle_server_packet(
            peer,
            control_packet(config.protocol_id, PacketType::ConnectionRequest),
            0,
            &mut events,
            &mut replies,
        );
        let salt = match replies.last().unwrap().1 {
            PacketType::ConnectionChallenge { server_salt } => server_salt,
            PacketType::ConnectionDeny { .. } => break,
            _ => panic!("unexpected reply"),
        };
        server.handle_server_packet(
            peer,
            control_packet(
                config.protocol_id,
                PacketType::ConnectionResponse { client_salt: salt.wrapping_add(1).max(1) },
            ),
            0,
            &mut events,
            &mut replies,
        );
    }
    assert_eq!(server.client_count(), 1);
    assert!(replies.iter().any(|r| matches!(r.1, PacketType::ConnectionDeny { reason: 0 })));
}

#[test]
fn test_datagram_encode_decode_roundtrip() {
    let header = PacketHeader { protocol_id: 0xFEED, sequence: 9, ack: 8, ack_bits: 1 };
    let packet = Packet::new(header, PacketType::KeepAlive).with_payload(vec![1, 2, 3]);
    let datagram = encode_datagram(&packet);
    let decoded = decode_datagram(&datagram, 0xFEED).expect("should decode");
    assert_eq!(decoded.header.protocol_id, 0xFEED);
    assert_eq!(decoded.header.sequence, 9);
    assert_eq!(decoded.payload, vec![1, 2, 3]);
    // A different protocol id is refused.
    assert!(decode_datagram(&datagram, 0xBEEF).is_none());
    // A corrupted datagram is refused.
    let mut corrupt = datagram.clone();
    corrupt[4] ^= 0x01;
    assert!(decode_datagram(&corrupt, 0xFEED).is_none());
}

#[test]
fn test_server_tick_emits_keepalives() {
    let config = NetworkConfig::default();
    let mut server = ServerCore::new(config).unwrap();
    let peer: u64 = 11;
    let mut events = Vec::new();
    let mut replies = Vec::new();
    server.handle_server_packet(
        peer,
        control_packet(config.protocol_id, PacketType::ConnectionRequest),
        0,
        &mut events,
        &mut replies,
    );
    let salt = match replies[0].1 {
        PacketType::ConnectionChallenge { server_salt } => server_salt,
        _ => panic!("expected a challenge"),
    };
    server.handle_server_packet(
        peer,
        control_packet(
            config.protocol_id,
            PacketType::ConnectionResponse { client_salt: salt.wrapping_add(1).max(1) },
        ),
        0,
        &mut events,
        &mut replies,
    );
    assert_eq!(server.client_count(), 1);

    // Past the keepalive interval the tick queues traffic for the peer.
    let out = server.update(config.keepalive_interval_ms + 1, &mut events);
    assert!(out.iter().any(|(p, _)| *p == peer));
}

#[test]
fn test_mtu_probe_flow() {
    let mut mtu = MtuDiscovery::new(1200, 1400, 100);
    assert_eq!(mtu.effective_mtu(), 1200);
    // A probe at the ceiling goes out and blocks further probes.
    assert_eq!(mtu.next_probe(0), Some(1400));
    assert_eq!(mtu.next_probe(50), None);
    // Past the probe timeout it backs off halfway toward what works.
    assert_eq!(mtu.next_probe(201), None);
    assert_eq!(mtu.next_probe(202), Some(1300));
    // A successful probe raises the effective MTU.
    mtu.on_probe_success(1300);
    assert_eq!(mtu.effective_mtu(), 1300);
}

#[test]
fn test_ack_releases_channel_slot_across_connection() {
    let config = NetworkConfig::default();
    let mut conn = Connection::new(config, 0);
    conn.set_state(gbnet::connection::ConnectionState::Connected);
    conn.send(0, b"payload", true).unwrap();
    conn.update_tick(1).unwrap();
    assert_eq!(conn.channels[0].pending_ack_count(), 1, "the reliable message is tracked");
    // The peer acknowledges channel sequence 0 through a keepalive header.
    let header = PacketHeader { protocol_id: config.protocol_id, sequence: 0, ack: 0, ack_bits: 0 };
    conn.handle_packet(Packet::new(header, PacketType::KeepAlive), 2, 0);
    assert_eq!(conn.channels[0].pending_ack_count(), 0, "the ack released the send slot");
}

#[test]
fn test_server_update_drops_timed_out_peer() {
    let config = NetworkConfig::default();
    let mut server = ServerCore::new(config).unwrap();
    let peer: u64 = 21;
    let mut events = Vec::new();
    let mut replies = Vec::new();
    server.handle_server_packet(
        peer,
        control_packet(config.protocol_id, PacketType::ConnectionRequest),
        0,
        &mut events,
        &mut replies,
    );
    let salt = match replies[0].1 {
        PacketType::ConnectionChallenge { server_salt } => server_salt,
        _ => panic!("expected a challenge"),
    };
    server.handle_server_packet(
        peer,
        control_packet(
            config.protocol_id,
            PacketType::ConnectionResponse { client_salt: salt.wrapping_add(1).max(1) },
        ),
        0,
        &mut events,
        &mut replies,
    );
    assert_eq!(server.client_count(), 1);

    // Past the connection timeout the peer is removed with a disconnect event.
    let late = config.connection_timeout_ms + 10;
    let _ = server.update(late, &mut events);
    assert_eq!(server.client_count(), 0);
    assert!(events.iter().any(
        |e| matches!(e, ServerEvent::ClientDisconnected(p, _) if *p == peer)
    ));
}
