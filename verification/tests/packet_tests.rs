use gbnet::bit_io::BitBuffer;
use gbnet::reliability::SequenceBuffer;
use gbnet::packet::{Packet, PacketHeader, PacketType};
use gbnet::util::{sequence_diff, sequence_greater_than};

#[test]
fn test_packet_construction() {
    let header = PacketHeader { protocol_id: 0x12345678, sequence: 100, ack: 99, ack_bits: 0xFFFFFFFF };

    let packet = Packet::new(header.clone(), PacketType::KeepAlive);
    assert_eq!(packet.header.protocol_id, 0x12345678);
    assert_eq!(packet.header.sequence, 100);
    assert!(packet.payload.is_empty());
}

#[test]
fn test_sequence_math() {
    assert!(sequence_greater_than(1, 0));
    assert!(!sequence_greater_than(0, 1));
    assert!(sequence_greater_than(0, 65535));
    assert!(!sequence_greater_than(65535, 0));

    assert_eq!(sequence_diff(5, 3), 2);
    assert_eq!(sequence_diff(3, 5), -2);
    assert_eq!(sequence_diff(0, 65535), 1);
}

#[test]
fn test_sequence_greater_than_basic() {
    assert!(sequence_greater_than(1, 0));
    assert!(!sequence_greater_than(0, 1));
    assert!(sequence_greater_than(100, 50));
    assert!(!sequence_greater_than(50, 100));
}

#[test]
fn test_sequence_greater_than_wraparound() {
    assert!(sequence_greater_than(0, 65535));
    assert!(!sequence_greater_than(65535, 0));
    assert!(sequence_greater_than(1, 65534));
    assert!(sequence_greater_than(100, 65500));
}

#[test]
fn test_sequence_diff_basic() {
    assert_eq!(sequence_diff(5, 3), 2);
    assert_eq!(sequence_diff(3, 5), -2);
    assert_eq!(sequence_diff(100, 100), 0);
}

#[test]
fn test_sequence_diff_wraparound() {
    assert_eq!(sequence_diff(0, 65535), 1);
    assert_eq!(sequence_diff(65535, 0), -1);
    assert_eq!(sequence_diff(5, 65530), 11);
}

#[test]
fn test_sequence_at_u16_max() {
    assert!(sequence_greater_than(0, u16::MAX));
    assert!(!sequence_greater_than(u16::MAX, 0));
    assert_eq!(sequence_diff(0, u16::MAX), 1);
    assert_eq!(sequence_diff(u16::MAX, 0), -1);
}

#[test]
fn test_packet_roundtrip_keepalive() {
    let header = PacketHeader { protocol_id: 0x12345678, sequence: 42, ack: 41, ack_bits: 0xFF };
    let packet = Packet::new(header, PacketType::KeepAlive);
    let data = packet.serialize().unwrap();
    let parsed = Packet::deserialize(&data).unwrap();
    assert_eq!(parsed.header.protocol_id, 0x12345678);
    assert_eq!(parsed.header.sequence, 42);
    assert!(matches!(parsed.packet_type, PacketType::KeepAlive));
}

#[test]
fn test_packet_roundtrip_connection_request() {
    let header = PacketHeader { protocol_id: 0xABCD, sequence: 0, ack: 0, ack_bits: 0 };
    let packet = Packet::new(header, PacketType::ConnectionRequest);
    let data = packet.serialize().unwrap();
    let parsed = Packet::deserialize(&data).unwrap();
    assert!(matches!(parsed.packet_type, PacketType::ConnectionRequest));
}

#[test]
fn test_packet_roundtrip_challenge() {
    let header = PacketHeader { protocol_id: 0x1234, sequence: 0, ack: 0, ack_bits: 0 };
    let packet = Packet::new(
        header,
        PacketType::ConnectionChallenge { server_salt: 0xDEADBEEFCAFE },
    );
    let data = packet.serialize().unwrap();
    let parsed = Packet::deserialize(&data).unwrap();
    match parsed.packet_type {
        PacketType::ConnectionChallenge { server_salt } => {
            assert_eq!(server_salt, 0xDEADBEEFCAFE);
        }
        _ => panic!("Wrong packet type"),
    }
}

#[test]
fn test_packet_roundtrip_payload_with_data() {
    let header = PacketHeader { protocol_id: 0x1234, sequence: 5, ack: 3, ack_bits: 0b111 };
    let packet = Packet::new(
        header,
        PacketType::Payload { channel: 2, is_fragment: true },
    )
    .with_payload(vec![1, 2, 3, 4, 5]);
    let data = packet.serialize().unwrap();
    let parsed = Packet::deserialize(&data).unwrap();
    match parsed.packet_type {
        PacketType::Payload { channel, is_fragment } => {
            assert_eq!(channel, 2);
            assert!(is_fragment);
        }
        _ => panic!("Wrong packet type"),
    }
    assert_eq!(parsed.payload, vec![1, 2, 3, 4, 5]);
}

#[test]
fn test_packet_roundtrip_disconnect() {
    let header = PacketHeader { protocol_id: 0x1234, sequence: 0, ack: 0, ack_bits: 0 };
    let packet = Packet::new(header, PacketType::Disconnect { reason: 2 });
    let data = packet.serialize().unwrap();
    let parsed = Packet::deserialize(&data).unwrap();
    match parsed.packet_type {
        PacketType::Disconnect { reason } => assert_eq!(reason, 2),
        _ => panic!("Wrong packet type"),
    }
}

#[test]
fn test_packet_protocol_id_mismatch_detected() {
    let header = PacketHeader { protocol_id: 0x1111, sequence: 0, ack: 0, ack_bits: 0 };
    let packet = Packet::new(header, PacketType::KeepAlive);
    let data = packet.serialize().unwrap();
    let parsed = Packet::deserialize(&data).unwrap();
    // The packet deserializes fine — it's the consumer's job to check protocol_id
    assert_eq!(parsed.header.protocol_id, 0x1111);
    assert_ne!(parsed.header.protocol_id, 0x12345678);
}

#[test]
fn test_packet_empty_data_rejected() {
    let result = Packet::deserialize(&[]);
    assert!(result.is_err());
}

#[test]
fn test_packet_truncated_rejected() {
    let header = PacketHeader { protocol_id: 7, sequence: 1, ack: 0, ack_bits: 0 };
    let packet = Packet::new(header, PacketType::ConnectionChallenge { server_salt: 99 });
    let data = packet.serialize().unwrap();
    // Cut into the bit-packed salt field.
    let truncated = &data[..13];
    assert!(Packet::deserialize(truncated).is_err());
}

#[test]
fn test_packet_unknown_tag_rejected() {
    let header = PacketHeader { protocol_id: 7, sequence: 1, ack: 0, ack_bits: 0 };
    let packet = Packet::new(header, PacketType::KeepAlive);
    let mut data = packet.serialize().unwrap();
    // The type tag sits in the top four bits of the 13th byte; 0xF0 is an
    // unknown discriminator.
    data[12] = 0xF0;
    assert!(Packet::deserialize(&data).is_err());
}

#[test]
fn test_bit_packed_player_state_roundtrip() {
    // A 48-bit bit-packed record: id 16, two coordinates of 10 bits, health
    // 8, a flag bit, and a 3-bit slot index.
    let mut writer = BitBuffer::new();
    writer.write_bits(42, 16);
    writer.write_bits(512, 10);
    writer.write_bits(768, 10);
    writer.write_bits(100, 8);
    writer.write_bit(true);
    writer.write_bits(3, 3);
    assert_eq!(writer.write_pos(), 48);
    let bytes = writer.into_bytes();
    assert_eq!(bytes.len(), 6);

    let mut reader = BitBuffer::from_bytes(bytes);
    assert_eq!(reader.read_bits(16).unwrap(), 42);
    assert_eq!(reader.read_bits(10).unwrap(), 512);
    assert_eq!(reader.read_bits(10).unwrap(), 768);
    assert_eq!(reader.read_bits(8).unwrap(), 100);
    assert_eq!(reader.read_bit().unwrap(), true);
    assert_eq!(reader.read_bits(3).unwrap(), 3);
}

#[test]
fn test_bit_reader_exhaustion() {
    let mut reader = BitBuffer::from_bytes(vec![0xAB]);
    assert!(reader.read_bits(8).is_some());
    assert!(reader.read_bits(1).is_none());
}

#[test]
fn network_tests_test_sequence_buffer_operations() {
    let mut buffer: SequenceBuffer<u32> = SequenceBuffer::new(16);

    buffer.insert(0, 100);
    buffer.insert(1, 200);
    buffer.insert(2, 300);

    assert!(buffer.contains(0));
    assert!(buffer.contains(1));
    assert!(buffer.contains(2));
    assert!(!buffer.contains(3));

    assert_eq!(*buffer.get(0).unwrap(), 100);
    assert_eq!(*buffer.get(1).unwrap(), 200);
    assert_eq!(*buffer.get(2).unwrap(), 300);
}
