//! Packet structures and the bit-packed wire codec.
//!
//! A packet is a bit-packed header (protocol id, sequence, ack, ack bitfield),
//! a 4-bit type discriminator with its per-variant fields, zero padding to the
//! next byte boundary, and the raw payload bytes appended verbatim.
use vstd::prelude::*;
use vstd::arithmetic::power2::{pow2, lemma2_to64, lemma2_to64_rest};
use crate::bit_io::{
    BitBuffer, bits_to_bytes, bits_to_nat, bytes_to_bits, lemma_bits_to_nat_bound,
    lemma_bits_to_nat_of_u64_to_bits, lemma_bytes_to_bits_concat, lemma_bytes_to_bits_len,
    lemma_bytes_to_bits_of_bits_to_bytes, lemma_u64_to_bits_len, u64_to_bits,
};

verus! {

/// Wire header carried by every packet.
#[derive(Debug, Clone, PartialEq, Eq, Structural)]
pub struct PacketHeader {
    pub protocol_id: u32,
    pub sequence: u16,
    pub ack: u16,
    pub ack_bits: u32,
}

/// Packet discriminator and per-variant fields; encoded as a 4-bit tag
/// followed by the fields in declaration order.
#[derive(Debug, Clone, PartialEq, Eq, Structural)]
pub enum PacketType {
    ConnectionRequest,
    ConnectionChallenge { server_salt: u64 },
    ConnectionResponse { client_salt: u64 },
    ConnectionAccept,
    ConnectionDeny { reason: u8 },
    Disconnect { reason: u8 },
    KeepAlive,
    Payload { channel: u8, is_fragment: bool },
    BatchedPayload { channel: u8 },
    MtuProbe { probe_size: u16 },
    MtuProbeAck { probe_size: u16 },
}

/// A full packet: header, type, and raw payload bytes.
#[derive(Debug, Clone)]
pub struct Packet {
    pub header: PacketHeader,
    pub packet_type: PacketType,
    pub payload: Vec<u8>,
}

/// Error returned when a byte string is not a well-formed packet.
#[derive(Debug, Clone, PartialEq, Eq, Structural)]
pub enum PacketError {
    InvalidData,
}

/// The 4-bit wire tag of each packet type.
pub open spec fn type_tag(t: PacketType) -> u64 {
    match t {
        PacketType::ConnectionRequest => 0,
        PacketType::ConnectionChallenge { .. } => 1,
        PacketType::ConnectionResponse { .. } => 2,
        PacketType::ConnectionAccept => 3,
        PacketType::ConnectionDeny { .. } => 4,
        PacketType::Disconnect { .. } => 5,
        PacketType::KeepAlive => 6,
        PacketType::Payload { .. } => 7,
        PacketType::BatchedPayload { .. } => 8,
        PacketType::MtuProbe { .. } => 9,
        PacketType::MtuProbeAck { .. } => 10,
    }
}

/// The variant fields of a packet type, bit-packed in declaration order.
pub open spec fn type_field_bits(t: PacketType) -> Seq<bool> {
    match t {
        PacketType::ConnectionRequest => Seq::<bool>::empty(),
        PacketType::ConnectionChallenge { server_salt } => u64_to_bits(server_salt, 64),
        PacketType::ConnectionResponse { client_salt } => u64_to_bits(client_salt, 64),
        PacketType::ConnectionAccept => Seq::<bool>::empty(),
        PacketType::ConnectionDeny { reason } => u64_to_bits(reason as u64, 8),
        PacketType::Disconnect { reason } => u64_to_bits(reason as u64, 8),
        PacketType::KeepAlive => Seq::<bool>::empty(),
        PacketType::Payload { channel, is_fragment } => u64_to_bits(channel as u64, 3).push(
            is_fragment,
        ),
        PacketType::BatchedPayload { channel } => u64_to_bits(channel as u64, 3),
        PacketType::MtuProbe { probe_size } => u64_to_bits(probe_size as u64, 16),
        PacketType::MtuProbeAck { probe_size } => u64_to_bits(probe_size as u64, 16),
    }
}

/// Tag and fields of a packet type on the wire.
pub open spec fn type_bits(t: PacketType) -> Seq<bool> {
    u64_to_bits(type_tag(t), 4) + type_field_bits(t)
}

/// Header fields bit-packed in declaration order: 96 bits.
pub open spec fn header_bits(h: PacketHeader) -> Seq<bool> {
    u64_to_bits(h.protocol_id as u64, 32) + u64_to_bits(h.sequence as u64, 16) + u64_to_bits(
        h.ack as u64,
        16,
    ) + u64_to_bits(h.ack_bits as u64, 32)
}

/// Zero bits needed to reach the next byte boundary from bit position `n`.
pub open spec fn pad_len(n: int) -> int {
    (8 - n % 8) % 8
}

/// Header and type of a packet, before padding.
pub open spec fn prefix_bits(p: Packet) -> Seq<bool> {
    header_bits(p.header) + type_bits(p.packet_type)
}

/// The exact bytes `Packet::serialize` produces: the bit-packed prefix padded
/// with zero bits to a byte boundary, then the payload verbatim.
pub open spec fn spec_serialize(p: Packet) -> Seq<u8> {
    bits_to_bytes(prefix_bits(p) + u64_to_bits(0, pad_len(prefix_bits(p).len() as int) as nat))
        + p.payload@
}

/// Parses a 96-bit header at bit position `pos`; `None` when the bits run out.
pub open spec fn parse_header(bits: Seq<bool>, pos: int) -> Option<(PacketHeader, int)> {
    if 0 <= pos && pos + 96 <= bits.len() {
        Some(
            (
                PacketHeader {
                    protocol_id: bits_to_nat(bits.subrange(pos, pos + 32)) as u32,
                    sequence: bits_to_nat(bits.subrange(pos + 32, pos + 48)) as u16,
                    ack: bits_to_nat(bits.subrange(pos + 48, pos + 64)) as u16,
                    ack_bits: bits_to_nat(bits.subrange(pos + 64, pos + 96)) as u32,
                },
                pos + 96,
            ),
        )
    } else {
        None
    }
}

/// Parses a 4-bit tag and its variant fields at bit position `pos`; `None` on
/// an unknown tag or truncated fields.
pub open spec fn parse_type(bits: Seq<bool>, pos: int) -> Option<(PacketType, int)> {
    if !(0 <= pos && pos + 4 <= bits.len()) {
        None
    } else {
        let tag = bits_to_nat(bits.subrange(pos, pos + 4));
        let p = pos + 4;
        if tag == 0 {
            Some((PacketType::ConnectionRequest, p))
        } else if tag == 1 {
            if p + 64 <= bits.len() {
                Some(
                    (
                        PacketType::ConnectionChallenge {
                            server_salt: bits_to_nat(bits.subrange(p, p + 64)) as u64,
                        },
                        p + 64,
                    ),
                )
            } else {
                None
            }
        } else if tag == 2 {
            if p + 64 <= bits.len() {
                Some(
                    (
                        PacketType::ConnectionResponse {
                            client_salt: bits_to_nat(bits.subrange(p, p + 64)) as u64,
                        },
                        p + 64,
                    ),
                )
            } else {
                None
            }
        } else if tag == 3 {
            Some((PacketType::ConnectionAccept, p))
        } else if tag == 4 {
            if p + 8 <= bits.len() {
                Some(
                    (
                        PacketType::ConnectionDeny {
                            reason: bits_to_nat(bits.subrange(p, p + 8)) as u8,
                        },
                        p + 8,
                    ),
                )
            } else {
                None
            }
        } else if tag == 5 {
            if p + 8 <= bits.len() {
                Some(
                    (
                        PacketType::Disconnect {
                            reason: bits_to_nat(bits.subrange(p, p + 8)) as u8,
                        },
                        p + 8,
                    ),
                )
            } else {
                None
            }
        } else if tag == 6 {
            Some((PacketType::KeepAlive, p))
        } else if tag == 7 {
            if p + 4 <= bits.len() {
                Some(
                    (
                        PacketType::Payload {
                            channel: bits_to_nat(bits.subrange(p, p + 3)) as u8,
                            is_fragment: bits[p + 3],
                        },
                        p + 4,
                    ),
                )
            } else {
                None
            }
        } else if tag == 8 {
            if p + 3 <= bits.len() {
                Some(
                    (
                        PacketType::BatchedPayload {
                            channel: bits_to_nat(bits.subrange(p, p + 3)) as u8,
                        },
                        p + 3,
                    ),
                )
            } else {
                None
            }
        } else if tag == 9 {
            if p + 16 <= bits.len() {
                Some(
                    (
                        PacketType::MtuProbe {
                            probe_size: bits_to_nat(bits.subrange(p, p + 16)) as u16,
                        },
                        p + 16,
                    ),
                )
            } else {
                None
            }
        } else if tag == 10 {
            if p + 16 <= bits.len() {
                Some(
                    (
                        PacketType::MtuProbeAck {
                            probe_size: bits_to_nat(bits.subrange(p, p + 16)) as u16,
                        },
                        p + 16,
                    ),
                )
            } else {
                None
            }
        } else {
            None
        }
    }
}

/// What `Packet::deserialize` recovers from a byte string: the header, the
/// type, and the payload bytes that follow the padded prefix.
pub open spec fn spec_deserialize(data: Seq<u8>) -> Option<(PacketHeader, PacketType, Seq<u8>)> {
    if data.len() == 0 {
        None
    } else {
        let bits = bytes_to_bits(data);
        match parse_header(bits, 0) {
            None => None,
            Some((header, p1)) => match parse_type(bits, p1) {
                None => None,
                Some((ptype, p2)) => {
                    let aligned = p2 + pad_len(p2);
                    if aligned <= bits.len() {
                        Some((header, ptype, data.skip(aligned / 8)))
                    } else {
                        None
                    }
                },
            },
        }
    }
}

/// A packet type whose fields fit their declared bit widths; only then is the
/// encoding lossless.
pub open spec fn wf_packet_type(t: PacketType) -> bool {
    match t {
        PacketType::Payload { channel, .. } => channel < 8,
        PacketType::BatchedPayload { channel } => channel < 8,
        _ => true,
    }
}

/// The header occupies exactly 96 bits.
pub proof fn lemma_header_bits_len(h: PacketHeader)
    ensures
        header_bits(h).len() == 96,
{
    lemma_u64_to_bits_len(h.protocol_id as u64, 32);
    lemma_u64_to_bits_len(h.sequence as u64, 16);
    lemma_u64_to_bits_len(h.ack as u64, 16);
    lemma_u64_to_bits_len(h.ack_bits as u64, 32);
}

/// Parsing a header at the front of its own encoding recovers the header.
pub proof fn lemma_parse_header_of_bits(h: PacketHeader, rest: Seq<bool>)
    ensures
        parse_header(header_bits(h) + rest, 0) == Some((h, 96int)),
{
    let bits = header_bits(h) + rest;
    lemma_header_bits_len(h);
    lemma_u64_to_bits_len(h.protocol_id as u64, 32);
    lemma_u64_to_bits_len(h.sequence as u64, 16);
    lemma_u64_to_bits_len(h.ack as u64, 16);
    lemma_u64_to_bits_len(h.ack_bits as u64, 32);
    lemma2_to64();
    lemma2_to64_rest();
    assert(bits.subrange(0, 32) =~= u64_to_bits(h.protocol_id as u64, 32));
    assert(bits.subrange(32, 48) =~= u64_to_bits(h.sequence as u64, 16));
    assert(bits.subrange(48, 64) =~= u64_to_bits(h.ack as u64, 16));
    assert(bits.subrange(64, 96) =~= u64_to_bits(h.ack_bits as u64, 32));
    lemma_bits_to_nat_of_u64_to_bits(h.protocol_id as u64, 32);
    lemma_bits_to_nat_of_u64_to_bits(h.sequence as u64, 16);
    lemma_bits_to_nat_of_u64_to_bits(h.ack as u64, 16);
    lemma_bits_to_nat_of_u64_to_bits(h.ack_bits as u64, 32);
}

/// Parsing a well-formed packet type at the position where its encoding
/// stands recovers the type.
pub proof fn lemma_parse_type_of_bits(t: PacketType, bits: Seq<bool>, pos: int)
    requires
        wf_packet_type(t),
        0 <= pos,
        pos + type_bits(t).len() <= bits.len(),
        bits.subrange(pos, pos + type_bits(t).len()) == type_bits(t),
    ensures
        parse_type(bits, pos) == Some((t, pos + type_bits(t).len())),
{
    let tb = type_bits(t);
    let tag = type_tag(t);
    let fields = type_field_bits(t);
    lemma_u64_to_bits_len(tag, 4);
    lemma2_to64();
    lemma2_to64_rest();
    let p = pos + 4;
    let flen = fields.len() as int;
    assert(bits.subrange(pos, pos + 4) =~= bits.subrange(pos, pos + tb.len() as int).subrange(
        0,
        4,
    ));
    assert(tb.subrange(0, 4) =~= u64_to_bits(tag, 4));
    lemma_bits_to_nat_of_u64_to_bits(tag, 4);
    assert(bits.subrange(p, p + flen) =~= bits.subrange(pos, pos + tb.len() as int).subrange(
        4,
        4 + flen,
    ));
    assert(tb.subrange(4, 4 + flen) =~= fields);
    assert(bits.subrange(p, p + flen) == fields);
    match t {
        PacketType::ConnectionRequest => {},
        PacketType::ConnectionChallenge { server_salt } => {
            lemma_u64_to_bits_len(server_salt, 64);
            lemma_bits_to_nat_of_u64_to_bits(server_salt, 64);
        },
        PacketType::ConnectionResponse { client_salt } => {
            lemma_u64_to_bits_len(client_salt, 64);
            lemma_bits_to_nat_of_u64_to_bits(client_salt, 64);
        },
        PacketType::ConnectionAccept => {},
        PacketType::ConnectionDeny { reason } => {
            lemma_u64_to_bits_len(reason as u64, 8);
            lemma_bits_to_nat_of_u64_to_bits(reason as u64, 8);
        },
        PacketType::Disconnect { reason } => {
            lemma_u64_to_bits_len(reason as u64, 8);
            lemma_bits_to_nat_of_u64_to_bits(reason as u64, 8);
        },
        PacketType::KeepAlive => {},
        PacketType::Payload { channel, is_fragment } => {
            lemma_u64_to_bits_len(channel as u64, 3);
            assert(bits.subrange(p, p + 3) =~= bits.subrange(p, p + flen).subrange(0, 3));
            assert(fields.subrange(0, 3) =~= u64_to_bits(channel as u64, 3));
            lemma_bits_to_nat_of_u64_to_bits(channel as u64, 3);
            assert(bits[p + 3] == bits.subrange(p, p + flen)[3int]);
            assert(fields[3int] == is_fragment);
        },
        PacketType::BatchedPayload { channel } => {
            lemma_u64_to_bits_len(channel as u64, 3);
            lemma_bits_to_nat_of_u64_to_bits(channel as u64, 3);
        },
        PacketType::MtuProbe { probe_size } => {
            lemma_u64_to_bits_len(probe_size as u64, 16);
            lemma_bits_to_nat_of_u64_to_bits(probe_size as u64, 16);
        },
        PacketType::MtuProbeAck { probe_size } => {
            lemma_u64_to_bits_len(probe_size as u64, 16);
            lemma_bits_to_nat_of_u64_to_bits(probe_size as u64, 16);
        },
    }
}

/// Deserializing the serialization of any packet whose type fits its declared
/// bit widths yields that packet back: header, type, and payload.
pub proof fn lemma_codec_roundtrip(p: Packet)
    requires
        wf_packet_type(p.packet_type),
    ensures
        spec_deserialize(spec_serialize(p)) == Some((p.header, p.packet_type, p.payload@)),
{
    let prefix = prefix_bits(p);
    let tb = type_bits(p.packet_type);
    lemma_header_bits_len(p.header);
    lemma_u64_to_bits_len(type_tag(p.packet_type), 4);
    match p.packet_type {
        PacketType::ConnectionChallenge { server_salt } => {
            lemma_u64_to_bits_len(server_salt, 64)
        },
        PacketType::ConnectionResponse { client_salt } => {
            lemma_u64_to_bits_len(client_salt, 64)
        },
        PacketType::ConnectionDeny { reason } => lemma_u64_to_bits_len(reason as u64, 8),
        PacketType::Disconnect { reason } => lemma_u64_to_bits_len(reason as u64, 8),
        PacketType::Payload { channel, .. } => lemma_u64_to_bits_len(channel as u64, 3),
        PacketType::BatchedPayload { channel } => lemma_u64_to_bits_len(channel as u64, 3),
        PacketType::MtuProbe { probe_size } => lemma_u64_to_bits_len(probe_size as u64, 16),
        PacketType::MtuProbeAck { probe_size } => lemma_u64_to_bits_len(probe_size as u64, 16),
        _ => {},
    }
    let padlen = pad_len(prefix.len() as int);
    let padbits = u64_to_bits(0, padlen as nat);
    lemma_u64_to_bits_len(0, padlen as nat);
    let padded = prefix + padbits;
    let l = prefix.len() as int;
    vstd::arithmetic::div_mod::lemma_fundamental_div_mod(l, 8);
    if l % 8 == 0 {
        assert((l + pad_len(l)) % 8 == 0);
    } else {
        assert(l + pad_len(l) == 8 * (l / 8 + 1));
        vstd::arithmetic::div_mod::lemma_mod_multiples_basic(l / 8 + 1, 8);
    }
    assert(padded.len() % 8 == 0);
    let hbytes = bits_to_bytes(padded);
    lemma_bytes_to_bits_of_bits_to_bytes(padded);
    lemma_bytes_to_bits_len(hbytes);
    assert(8 * hbytes.len() == padded.len());
    let data = spec_serialize(p);
    assert(data == hbytes + p.payload@);
    lemma_bytes_to_bits_concat(hbytes, p.payload@);
    let bits = bytes_to_bits(data);
    assert(bits == padded + bytes_to_bits(p.payload@));
    lemma_bytes_to_bits_len(p.payload@);
    lemma_bytes_to_bits_len(data);
    assert(data.len() > 0);
    assert(bits.subrange(0, 96) + bits.subrange(96, bits.len() as int) =~= bits);
    assert(header_bits(p.header) + (tb + padbits + bytes_to_bits(p.payload@)) =~= bits);
    lemma_parse_header_of_bits(p.header, tb + padbits + bytes_to_bits(p.payload@));
    assert(parse_header(bits, 0) == Some((p.header, 96int)));
    assert(bits.subrange(96, 96 + tb.len() as int) =~= tb);
    lemma_parse_type_of_bits(p.packet_type, bits, 96);
    let p2 = 96 + tb.len() as int;
    assert(parse_type(bits, 96) == Some((p.packet_type, p2)));
    assert(p2 == l);
    let aligned = p2 + pad_len(p2);
    assert(aligned == padded.len());
    assert(aligned <= bits.len());
    vstd::arithmetic::div_mod::lemma_div_multiples_vanish(hbytes.len() as int, 8);
    assert(aligned / 8 == hbytes.len());
    assert(data.skip(hbytes.len() as int) =~= p.payload@);
}

impl PacketHeader {
    /// Appends the 96 header bits to the buffer in field order.
    pub fn bit_serialize(&self, buffer: &mut BitBuffer)
        ensures
            final(buffer).bits@ == old(buffer).bits@ + header_bits(*self),
            final(buffer).cursor == old(buffer).cursor,
    {
        buffer.write_bits(self.protocol_id as u64, 32);
        buffer.write_bits(self.sequence as u64, 16);
        buffer.write_bits(self.ack as u64, 16);
        buffer.write_bits(self.ack_bits as u64, 32);
        proof {
            assert(final(buffer).bits@ =~= old(buffer).bits@ + header_bits(*self));
        }
    }

    /// Reads the 96 header bits at the cursor; `None` when the bits run out.
    pub fn bit_deserialize(buffer: &mut BitBuffer) -> (r: Option<PacketHeader>)
        ensures
            final(buffer).bits@ == old(buffer).bits@,
            match r {
                Some(h) => parse_header(old(buffer).bits@, old(buffer).cursor as int) == Some(
                    (h, final(buffer).cursor as int),
                ),
                None => parse_header(old(buffer).bits@, old(buffer).cursor as int) is None,
            },
    {
        let protocol_id = match buffer.read_bits(32) {
            Some(v) => v,
            None => {
                return None;
            },
        };
        let sequence = match buffer.read_bits(16) {
            Some(v) => v,
            None => {
                return None;
            },
        };
        let ack = match buffer.read_bits(16) {
            Some(v) => v,
            None => {
                return None;
            },
        };
        let ack_bits = match buffer.read_bits(32) {
            Some(v) => v,
            None => {
                return None;
            },
        };
        proof {
            lemma_bits_to_nat_bound(
                old(buffer).bits@.subrange(old(buffer).cursor as int, old(buffer).cursor + 32),
            );
            lemma_bits_to_nat_bound(
                old(buffer).bits@.subrange(old(buffer).cursor + 32, old(buffer).cursor + 48),
            );
            lemma_bits_to_nat_bound(
                old(buffer).bits@.subrange(old(buffer).cursor + 48, old(buffer).cursor + 64),
            );
            lemma_bits_to_nat_bound(
                old(buffer).bits@.subrange(old(buffer).cursor + 64, old(buffer).cursor + 96),
            );
            lemma2_to64();
            lemma2_to64_rest();
        }
        Some(
            PacketHeader {
                protocol_id: protocol_id as u32,
                sequence: sequence as u16,
                ack: ack as u16,
                ack_bits: ack_bits as u32,
            },
        )
    }
}

impl PacketType {
    /// Appends the 4-bit tag and the variant fields to the buffer.
    pub fn bit_serialize(&self, buffer: &mut BitBuffer)
        ensures
            final(buffer).bits@ == old(buffer).bits@ + type_bits(*self),
            final(buffer).cursor == old(buffer).cursor,
    {
        match self {
            PacketType::ConnectionRequest => {
                buffer.write_bits(0, 4);
            },
            PacketType::ConnectionChallenge { server_salt } => {
                buffer.write_bits(1, 4);
                buffer.write_bits(*server_salt, 64);
            },
            PacketType::ConnectionResponse { client_salt } => {
                buffer.write_bits(2, 4);
                buffer.write_bits(*client_salt, 64);
            },
            PacketType::ConnectionAccept => {
                buffer.write_bits(3, 4);
            },
            PacketType::ConnectionDeny { reason } => {
                buffer.write_bits(4, 4);
                buffer.write_bits(*reason as u64, 8);
            },
            PacketType::Disconnect { reason } => {
                buffer.write_bits(5, 4);
                buffer.write_bits(*reason as u64, 8);
            },
            PacketType::KeepAlive => {
                buffer.write_bits(6, 4);
            },
            PacketType::Payload { channel, is_fragment } => {
                buffer.write_bits(7, 4);
                buffer.write_bits(*channel as u64, 3);
                buffer.write_bit(*is_fragment);
            },
            PacketType::BatchedPayload { channel } => {
                buffer.write_bits(8, 4);
                buffer.write_bits(*channel as u64, 3);
            },
            PacketType::MtuProbe { probe_size } => {
                buffer.write_bits(9, 4);
                buffer.write_bits(*probe_size as u64, 16);
            },
            PacketType::MtuProbeAck { probe_size } => {
                buffer.write_bits(10, 4);
                buffer.write_bits(*probe_size as u64, 16);
            },
        }
        proof {
            assert(final(buffer).bits@ =~= old(buffer).bits@ + type_bits(*self));
        }
    }

    /// Reads a 4-bit tag and its variant fields at the cursor; `None` on an
    /// unknown tag or when the bits run out.
    pub fn bit_deserialize(buffer: &mut BitBuffer) -> (r: Option<PacketType>)
        ensures
            final(buffer).bits@ == old(buffer).bits@,
            match r {
                Some(t) => parse_type(old(buffer).bits@, old(buffer).cursor as int) == Some(
                    (t, final(buffer).cursor as int),
                ),
                None => parse_type(old(buffer).bits@, old(buffer).cursor as int) is None,
            },
    {
        let tag = match buffer.read_bits(4) {
            Some(v) => v,
            None => {
                return None;
            },
        };
        proof {
            lemma_bits_to_nat_bound(
                old(buffer).bits@.subrange(old(buffer).cursor as int, old(buffer).cursor + 4),
            );
            lemma2_to64();
            lemma2_to64_rest();
        }
        if tag == 0 {
            Some(PacketType::ConnectionRequest)
        } else if tag == 1 {
            match buffer.read_bits(64) {
                Some(v) => Some(PacketType::ConnectionChallenge { server_salt: v }),
                None => None,
            }
        } else if tag == 2 {
            match buffer.read_bits(64) {
                Some(v) => Some(PacketType::ConnectionResponse { client_salt: v }),
                None => None,
            }
        } else if tag == 3 {
            Some(PacketType::ConnectionAccept)
        } else if tag == 4 {
            match buffer.read_bits(8) {
                Some(v) => {
                    proof {
                        lemma_bits_to_nat_bound(
                            old(buffer).bits@.subrange(
                                old(buffer).cursor + 4,
                                old(buffer).cursor + 12,
                            ),
                        );
                    }
                    Some(PacketType::ConnectionDeny { reason: v as u8 })
                },
                None => None,
            }
        } else if tag == 5 {
            match buffer.read_bits(8) {
                Some(v) => {
                    proof {
                        lemma_bits_to_nat_bound(
                            old(buffer).bits@.subrange(
                                old(buffer).cursor + 4,
                                old(buffer).cursor + 12,
                            ),
                        );
                    }
                    Some(PacketType::Disconnect { reason: v as u8 })
                },
                None => None,
            }
        } else if tag == 6 {
            Some(PacketType::KeepAlive)
        } else if tag == 7 {
            let channel = match buffer.read_bits(3) {
                Some(v) => v,
                None => {
                    return None;
                },
            };
            let is_fragment = match buffer.read_bit() {
                Some(b) => b,
                None => {
                    return None;
                },
            };
            proof {
                lemma_bits_to_nat_bound(
                    old(buffer).bits@.subrange(old(buffer).cursor + 4, old(buffer).cursor + 7),
                );
            }
            Some(PacketType::Payload { channel: channel as u8, is_fragment })
        } else if tag == 8 {
            match buffer.read_bits(3) {
                Some(v) => {
                    proof {
                        lemma_bits_to_nat_bound(
                            old(buffer).bits@.subrange(
                                old(buffer).cursor + 4,
                                old(buffer).cursor + 7,
                            ),
                        );
                    }
                    Some(PacketType::BatchedPayload { channel: v as u8 })
                },
                None => None,
            }
        } else if tag == 9 {
            match buffer.read_bits(16) {
                Some(v) => {
                    proof {
                        lemma_bits_to_nat_bound(
                            old(buffer).bits@.subrange(
                                old(buffer).cursor + 4,
                                old(buffer).cursor + 20,
                            ),
                        );
                    }
                    Some(PacketType::MtuProbe { probe_size: v as u16 })
                },
                None => None,
            }
        } else if tag == 10 {
            match buffer.read_bits(16) {
                Some(v) => {
                    proof {
                        lemma_bits_to_nat_bound(
                            old(buffer).bits@.subrange(
                                old(buffer).cursor + 4,
                                old(buffer).cursor + 20,
                            ),
                        );
                    }
                    Some(PacketType::MtuProbeAck { probe_size: v as u16 })
                },
                None => None,
            }
        } else {
            None
        }
    }
}

impl Packet {
    /// A packet with an empty payload.
    pub fn new(header: PacketHeader, packet_type: PacketType) -> (r: Packet)
        ensures
            r.header == header,
            r.packet_type == packet_type,
            r.payload@ == Seq::<u8>::empty(),
    {
        Packet { header, packet_type, payload: Vec::new() }
    }

    /// The same packet carrying the given payload.
    pub fn with_payload(self, payload: Vec<u8>) -> (r: Packet)
        ensures
            r.header == self.header,
            r.packet_type == self.packet_type,
            r.payload@ == payload@,
    {
        Packet { header: self.header, packet_type: self.packet_type, payload }
    }

    /// Serializes the packet into a byte vector: bit-packed header and type,
    /// zero padding to the byte boundary, then the payload.
    pub fn serialize(&self) -> (r: Result<Vec<u8>, PacketError>)
        ensures
            r matches Ok(bytes) && bytes@ == spec_serialize(*self),
    {
        let mut buffer = BitBuffer::new();
        self.header.bit_serialize(&mut buffer);
        self.packet_type.bit_serialize(&mut buffer);
        let pos = buffer.write_pos();
        let padding = (8 - pos % 8) % 8;
        buffer.write_bits(0, padding);
        proof {
            assert(buffer.bits@ =~= prefix_bits(*self) + u64_to_bits(
                0,
                pad_len(prefix_bits(*self).len() as int) as nat,
            ));
            lemma_u64_to_bits_len(0, pad_len(pos as int) as nat);
            let l = pos as int;
            vstd::arithmetic::div_mod::lemma_fundamental_div_mod(l, 8);
            if l % 8 == 0 {
                assert((l + pad_len(l)) % 8 == 0);
            } else {
                assert(l + pad_len(l) == 8 * (l / 8 + 1));
                vstd::arithmetic::div_mod::lemma_mod_multiples_basic(l / 8 + 1, 8);
            }
        }
        let mut result = buffer.into_bytes();
        let mut i: usize = 0;
        proof {
            assert(result@ + self.payload@.take(0) =~= result@);
        }
        let ghost packed = result@;
        while i < self.payload.len()
            invariant
                i <= self.payload@.len(),
                result@ == packed + self.payload@.take(i as int),
            decreases self.payload@.len() - i,
        {
            result.push(self.payload[i]);
            proof {
                assert(self.payload@.take(i as int).push(self.payload@[i as int])
                    =~= self.payload@.take(i + 1));
                assert(result@ =~= packed + self.payload@.take(i + 1));
            }
            i += 1;
        }
        proof {
            assert(self.payload@.take(self.payload@.len() as int) =~= self.payload@);
        }
        Ok(result)
    }

    /// Deserializes a packet from a byte slice. Total on every input: any
    /// empty, truncated, or unknown-tag byte string yields `InvalidData`.
    pub fn deserialize(data: &[u8]) -> (r: Result<Packet, PacketError>)
        ensures
            match r {
                Ok(p) => spec_deserialize(data@) == Some(
                    (p.header, p.packet_type, p.payload@),
                ),
                Err(e) => spec_deserialize(data@) is None && e == PacketError::InvalidData,
            },
    {
        if data.len() == 0 {
            return Err(PacketError::InvalidData);
        }
        let mut owned: Vec<u8> = Vec::new();
        let mut i: usize = 0;
        while i < data.len()
            invariant
                i <= data@.len(),
                owned@ == data@.take(i as int),
            decreases data@.len() - i,
        {
            owned.push(data[i]);
            proof {
                assert(data@.take(i as int).push(data@[i as int]) =~= data@.take(i + 1));
            }
            i += 1;
        }
        proof {
            assert(data@.take(data@.len() as int) =~= data@);
        }
        let mut buffer = BitBuffer::from_bytes(owned);
        proof {
            lemma_bytes_to_bits_len(data@);
        }
        let header = match PacketHeader::bit_deserialize(&mut buffer) {
            Some(h) => h,
            None => {
                return Err(PacketError::InvalidData);
            },
        };
        let ghost p1 = buffer.cursor as int;
        let packet_type = match PacketType::bit_deserialize(&mut buffer) {
            Some(t) => t,
            None => {
                return Err(PacketError::InvalidData);
            },
        };
        let ghost p2 = buffer.cursor as int;
        proof {
            let bits = bytes_to_bits(data@);
            assert(parse_header(bits, 0) == Some((header, p1)));
            assert(parse_type(bits, p1) == Some((packet_type, p2)));
        }
        let prefix_end = buffer.read_pos();
        let pad = (8 - prefix_end % 8) % 8;
        let mut k: usize = 0;
        while k < pad
            invariant
                k <= pad,
                pad == pad_len(p2),
                data@.len() > 0,
                buffer.bits@ == bytes_to_bits(data@),
                buffer.cursor == p2 + k,
                p2 + k <= bytes_to_bits(data@).len(),
                parse_header(bytes_to_bits(data@), 0) == Some((header, p1)),
                parse_type(bytes_to_bits(data@), p1) == Some((packet_type, p2)),
            decreases pad - k,
        {
            match buffer.read_bit() {
                Some(_) => {},
                None => {
                    proof {
                        let bits = bytes_to_bits(data@);
                        assert(p2 + k >= bits.len());
                        assert(p2 + pad_len(p2) > bits.len());
                        assert(spec_deserialize(data@) is None);
                    }
                    return Err(PacketError::InvalidData);
                },
            }
            k += 1;
        }
        let header_size = buffer.read_pos() / 8;
        proof {
            lemma_bytes_to_bits_len(data@);
            vstd::arithmetic::div_mod::lemma_div_is_ordered(
                buffer.cursor as int,
                8 * (data@.len() as int),
                8,
            );
            vstd::arithmetic::div_mod::lemma_div_multiples_vanish(data@.len() as int, 8);
        }
        let mut payload: Vec<u8> = Vec::new();
        let mut j: usize = header_size;
        proof {
            assert(data@.subrange(header_size as int, header_size as int) =~= Seq::<u8>::empty());
        }
        while j < data.len()
            invariant
                header_size <= j <= data@.len(),
                payload@ == data@.subrange(header_size as int, j as int),
                data@.len() > 0,
                header_size == (p2 + pad_len(p2)) / 8,
                p2 + pad_len(p2) <= 8 * data@.len(),
                parse_header(bytes_to_bits(data@), 0) == Some((header, p1)),
                parse_type(bytes_to_bits(data@), p1) == Some((packet_type, p2)),
            decreases data@.len() - j,
        {
            payload.push(data[j]);
            proof {
                assert(data@.subrange(header_size as int, j as int).push(data@[j as int])
                    =~= data@.subrange(header_size as int, j + 1));
            }
            j += 1;
        }
        proof {
            assert(data@.subrange(header_size as int, data@.len() as int) =~= data@.skip(
                header_size as int,
            ));
        }
        Ok(Packet { header, packet_type, payload })
    }
}

} // verus!
