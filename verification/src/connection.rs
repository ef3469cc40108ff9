//! Per-peer connection: lifecycle state machine, per-tick processing, and
//! packet dispatch.
//!
//! A connection owns one reliability endpoint, a fixed array of channels, a
//! fragment assembler, a congestion controller, two bandwidth trackers, and
//! an MTU prober. The tick driver supplies every `now_ms` reading; when it
//! does not tick, nothing times out or retransmits.
use vstd::prelude::*;
use crate::assoc::{assoc_has, assoc_lookup};
use crate::channel::{Channel, ChannelError};
use crate::config::{NetworkConfig, spec_validate};
use crate::congestion::{BandwidthTracker, CongestionController};
use crate::fragment::FragmentAssembler;
use crate::packet::{Packet, PacketHeader, PacketType};
use crate::reliability::ReliableEndpoint;
use crate::stats::NetworkStats;

verus! {

/// Disconnect reason code: the peer timed out.
pub const DISCONNECT_REASON_TIMEOUT: u8 = 0;

/// Disconnect reason code: the peer asked to leave.
pub const DISCONNECT_REASON_REQUESTED: u8 = 1;

/// Disconnect reason code: the server removed the peer.
pub const DISCONNECT_REASON_KICKED: u8 = 2;

/// Disconnect reason code: the server is full.
pub const DISCONNECT_REASON_SERVER_FULL: u8 = 3;

/// Disconnect reason code: protocol ids disagreed.
pub const DISCONNECT_REASON_PROTOCOL_MISMATCH: u8 = 4;

/// Deny reason code: the server is full.
pub const DENY_REASON_SERVER_FULL: u8 = 0;

/// Deny reason code: the address is already connected.
pub const DENY_REASON_ALREADY_CONNECTED: u8 = 1;

/// Deny reason code: the protocol id did not match.
pub const DENY_REASON_INVALID_PROTOCOL: u8 = 2;

/// Deny reason code: the address is banned.
pub const DENY_REASON_BANNED: u8 = 3;

/// Deny reason code: the challenge answer was invalid.
pub const DENY_REASON_INVALID_CHALLENGE: u8 = 4;

#[derive(Debug, Clone, Copy, PartialEq, Eq, Structural)]
pub enum ConnectionState {
    Disconnected,
    Connecting,
    Connected,
    Disconnecting,
}

/// Why a connection ended.
#[derive(Debug, Clone, Copy, PartialEq, Eq, Structural)]
pub enum DisconnectReason {
    Timeout,
    Requested,
    Kicked,
    ServerFull,
    ProtocolMismatch,
    Unknown,
}

impl DisconnectReason {
    /// Decodes a wire reason code.
    pub fn from_code(code: u8) -> (r: DisconnectReason)
        ensures
            r == spec_reason_from_code(code),
    {
        if code == DISCONNECT_REASON_TIMEOUT {
            DisconnectReason::Timeout
        } else if code == DISCONNECT_REASON_REQUESTED {
            DisconnectReason::Requested
        } else if code == DISCONNECT_REASON_KICKED {
            DisconnectReason::Kicked
        } else if code == DISCONNECT_REASON_SERVER_FULL {
            DisconnectReason::ServerFull
        } else if code == DISCONNECT_REASON_PROTOCOL_MISMATCH {
            DisconnectReason::ProtocolMismatch
        } else {
            DisconnectReason::Unknown
        }
    }
}

/// The decoding `DisconnectReason::from_code` performs.
pub open spec fn spec_reason_from_code(code: u8) -> DisconnectReason {
    if code == 0 {
        DisconnectReason::Timeout
    } else if code == 1 {
        DisconnectReason::Requested
    } else if code == 2 {
        DisconnectReason::Kicked
    } else if code == 3 {
        DisconnectReason::ServerFull
    } else if code == 4 {
        DisconnectReason::ProtocolMismatch
    } else {
        DisconnectReason::Unknown
    }
}

/// Errors returned by connection lifecycle operations.
#[derive(Debug, Clone, PartialEq, Eq, Structural)]
pub enum ConnectionError {
    Timeout,
    AlreadyConnected,
    NotConnected,
    InvalidPacket,
    Channel(ChannelError),
}

/// The salt a client answers a challenge with: the fresh draw when it is
/// usable, else the smallest nonzero value differing from the server's salt.
pub open spec fn spec_pick_client_salt(fresh_salt: u64, server_salt: u64) -> u64 {
    if fresh_salt != 0 && fresh_salt != server_salt {
        fresh_salt
    } else if server_salt != 1 {
        1u64
    } else {
        2u64
    }
}

/// Messages still queued across all channels' send buffers.
pub open spec fn total_send_backlog(channels: Seq<Channel>) -> int
    decreases channels.len(),
{
    if channels.len() == 0 {
        0
    } else {
        total_send_backlog(channels.drop_last()) + channels.last().send_buffer@.len()
    }
}

/// The backlog is never negative.
pub proof fn lemma_backlog_nonneg(channels: Seq<Channel>)
    ensures
        total_send_backlog(channels) >= 0,
    decreases channels.len(),
{
    if channels.len() > 0 {
        lemma_backlog_nonneg(channels.drop_last());
    }
}

/// Replacing one channel changes the backlog by the difference of that
/// channel's queue length.
pub proof fn lemma_backlog_update(channels: Seq<Channel>, i: int, c: Channel)
    requires
        0 <= i < channels.len(),
    ensures
        total_send_backlog(channels.update(i, c)) == total_send_backlog(channels)
            - channels[i].send_buffer@.len() + c.send_buffer@.len(),
    decreases channels.len(),
{
    let updated = channels.update(i, c);
    if i == channels.len() - 1 {
        assert(updated.drop_last() =~= channels.drop_last());
        assert(updated.last() == c);
    } else {
        assert(updated.drop_last() =~= channels.drop_last().update(i, c));
        assert(updated.last() == channels.last());
        lemma_backlog_update(channels.drop_last(), i, c);
    }
}

/// Some queued packet is a keepalive.
pub open spec fn queue_has_keepalive(q: Seq<Packet>) -> bool {
    exists|i: int| 0 <= i < q.len() && (#[trigger] q[i]).packet_type == PacketType::KeepAlive
}

/// Payload-type packets in a queue.
pub open spec fn count_payloads(q: Seq<Packet>) -> int
    decreases q.len(),
{
    if q.len() == 0 {
        0
    } else {
        count_payloads(q.drop_last()) + (if q.last().packet_type matches PacketType::Payload {
            ..
        } {
            1int
        } else {
            0int
        })
    }
}

/// Payload-type packets in a queue that carry a message of a reliable
/// channel of the given set.
pub open spec fn count_reliable_payloads(q: Seq<Packet>, channels: Seq<Channel>) -> int
    decreases q.len(),
{
    if q.len() == 0 {
        0
    } else {
        count_reliable_payloads(q.drop_last(), channels) + (if (match q.last().packet_type {
            PacketType::Payload { channel, .. } => channel < channels.len()
                && crate::config::spec_mode_reliable(channels[channel as int].config.delivery_mode),
            _ => false,
        }) {
            1int
        } else {
            0int
        })
    }
}

/// Appending one packet raises each payload count by its own kind.
proof fn lemma_count_payloads_push(q: Seq<Packet>, x: Packet, channels: Seq<Channel>)
    ensures
        count_payloads(q.push(x)) == count_payloads(q) + (if x.packet_type
            matches PacketType::Payload { .. } {
            1int
        } else {
            0int
        }),
        count_reliable_payloads(q.push(x), channels) == count_reliable_payloads(q, channels) + (
        if (match x.packet_type {
            PacketType::Payload { channel, .. } => channel < channels.len()
                && crate::config::spec_mode_reliable(channels[channel as int].config.delivery_mode),
            _ => false,
        }) {
            1int
        } else {
            0int
        }),
{
    assert(q.push(x).drop_last() =~= q);
    assert(q.push(x).last() == x);
}

/// No tracked message of any channel and no in-flight endpoint record has an
/// elapsed retransmission timeout.
pub open spec fn no_due_retransmissions(c: Connection, now_ms: u64) -> bool {
    &&& (forall|ci: int, j: int|
        0 <= ci < c.channels@.len() && 0 <= j < c.channels@[ci].pending_ack@.len()
            ==> !crate::channel::pending_due(
            (#[trigger] c.channels@[ci].pending_ack@[j]).1,
            now_ms,
            c.reliability.rto_ms,
        ))
    &&& (forall|j: int|
        0 <= j < c.reliability.sent_packets@.len() ==> !crate::reliability::retransmit_due(
            (#[trigger] c.reliability.sent_packets@[j]).1,
            now_ms,
            c.reliability.rto_ms,
        ))
}

/// One per-peer connection.
pub struct Connection {
    pub config: NetworkConfig,
    pub state: ConnectionState,
    pub channels: Vec<Channel>,
    pub reliability: ReliableEndpoint,
    pub fragment_assembler: FragmentAssembler,
    pub congestion: CongestionController,
    pub bandwidth_up: BandwidthTracker,
    pub bandwidth_down: BandwidthTracker,
    pub mtu_discovery: crate::fragment::MtuDiscovery,
    pub send_queue: Vec<Packet>,
    pub local_sequence: u16,
    pub last_packet_recv_time_ms: u64,
    pub last_packet_send_time_ms: u64,
    pub connection_request_time_ms: Option<u64>,
    pub connection_retry_count: u32,
    pub disconnect_time_ms: Option<u64>,
    pub disconnect_retry_count: u32,
    pub stats: NetworkStats,
}

impl Connection {
    pub open spec fn wf(&self) -> bool {
        &&& self.reliability.wf()
        &&& self.fragment_assembler.wf()
        &&& self.mtu_discovery.wf()
        &&& self.channels@.len() == self.config.max_channels
        &&& forall|c: int| 0 <= c < self.channels@.len() ==> (#[trigger] self.channels@[c]).wf()
        &&& self.config.default_channel_config.message_buffer_size >= 1
        &&& 1 <= self.config.max_channels <= 8
        &&& self.config.packet_buffer_size >= 1
    }

    /// A fresh, disconnected connection for a validated configuration.
    pub fn new(config: NetworkConfig, now_ms: u64) -> (r: Connection)
        requires
            spec_validate(config) is Ok,
            config.default_channel_config.message_buffer_size >= 1,
        ensures
            r.wf(),
            r.state == ConnectionState::Disconnected,
            r.config == config,
            r.send_queue@.len() == 0,
    {
        let mut channels: Vec<Channel> = Vec::new();
        let mut c: u8 = 0;
        while c < config.max_channels
            invariant
                c <= config.max_channels,
                channels@.len() == c,
                config.default_channel_config.message_buffer_size >= 1,
                forall|j: int| 0 <= j < channels@.len() ==> (#[trigger] channels@[j]).wf(),
            decreases config.max_channels - c,
        {
            channels.push(Channel::new(c, config.default_channel_config));
            c += 1;
        }
        Connection {
            config,
            state: ConnectionState::Disconnected,
            channels,
            reliability: ReliableEndpoint::new(config.packet_buffer_size).with_max_in_flight(
                if config.max_in_flight >= 1 {
                    config.max_in_flight
                } else {
                    1
                },
            ),
            fragment_assembler: FragmentAssembler::new(5000, 1048576),
            congestion: CongestionController::new(config.send_rate, 100, 250, 100),
            bandwidth_up: BandwidthTracker::new(1000),
            bandwidth_down: BandwidthTracker::new(1000),
            mtu_discovery: crate::fragment::MtuDiscovery::new(
                if config.fragment_threshold <= config.mtu {
                    config.fragment_threshold
                } else {
                    config.mtu
                },
                config.mtu,
                1000,
            ),
            send_queue: Vec::new(),
            local_sequence: 0,
            last_packet_recv_time_ms: now_ms,
            last_packet_send_time_ms: now_ms,
            connection_request_time_ms: None,
            connection_retry_count: 0,
            disconnect_time_ms: None,
            disconnect_retry_count: 0,
            stats: NetworkStats::default(),
        }
    }

    pub fn state(&self) -> (r: ConnectionState)
        ensures
            r == self.state,
    {
        self.state
    }

    pub fn is_connected(&self) -> (r: bool)
        ensures
            r == (self.state == ConnectionState::Connected),
    {
        match self.state {
            ConnectionState::Connected => true,
            _ => false,
        }
    }

    pub fn set_state(&mut self, state: ConnectionState)
        ensures
            *final(self) == (Connection { state, ..*old(self) }),
    {
        self.state = state;
    }

    pub fn channel_count(&self) -> (r: usize)
        ensures
            r == self.channels@.len(),
    {
        self.channels.len()
    }

    pub fn touch_recv_time(&mut self, now_ms: u64)
        ensures
            *final(self) == (Connection { last_packet_recv_time_ms: now_ms, ..*old(self) }),
    {
        self.last_packet_recv_time_ms = now_ms;
    }

    /// The header every outgoing packet carries: the connection's next
    /// sequence and the endpoint's current ack information.
    pub fn create_header(&self) -> (r: PacketHeader)
        ensures
            r.protocol_id == self.config.protocol_id,
            r.sequence == self.local_sequence,
            r.ack == self.reliability.remote_sequence,
            r.ack_bits == self.reliability.ack_bits,
    {
        let (ack, ack_bits) = self.reliability.get_ack_info();
        PacketHeader { protocol_id: self.config.protocol_id, sequence: self.local_sequence, ack, ack_bits }
    }

    /// Begins the handshake: only a disconnected connection may connect; it
    /// enters `Connecting` and queues one connection request.
    pub fn connect(&mut self, now_ms: u64) -> (r: Result<(), ConnectionError>)
        requires
            old(self).wf(),
        ensures
            final(self).wf(),
            old(self).state != ConnectionState::Disconnected <==> r == Err::<
                (),
                ConnectionError,
            >(ConnectionError::AlreadyConnected),
            r is Ok ==> final(self).state == ConnectionState::Connecting
                && final(self).connection_request_time_ms == Some(now_ms) && final(self).send_queue@.len() == old(self).send_queue@.len() + 1 && old(self).send_queue@.is_prefix_of(final(self).send_queue@) && final(self).send_queue@.last().packet_type == PacketType::ConnectionRequest && final(self).send_queue@.last().header.protocol_id == old(self).config.protocol_id && final(self).send_queue@.last().payload@.len() == 0 && final(self).connection_retry_count == 0,
            r is Err ==> *final(self) == *old(self),
    {
        match self.state {
            ConnectionState::Disconnected => {
                self.state = ConnectionState::Connecting;
                self.connection_retry_count = 0;
                self.connection_request_time_ms = Some(now_ms);
                let header = self.create_header();
                let packet = Packet::new(header, PacketType::ConnectionRequest);
                self.send_queue.push(packet);
                Ok(())
            },
            _ => Err(ConnectionError::AlreadyConnected),
        }
    }

    /// Begins a graceful disconnect with the given reason code; only a
    /// connecting or connected peer can disconnect.
    pub fn disconnect(&mut self, reason: u8, now_ms: u64) -> (r: Result<(), ConnectionError>)
        requires
            old(self).wf(),
        ensures
            final(self).wf(),
            r is Ok <==> (old(self).state == ConnectionState::Connected || old(self).state
                == ConnectionState::Connecting),
            r is Ok ==> final(self).state == ConnectionState::Disconnecting && final(self).disconnect_time_ms == Some(now_ms) && final(self).send_queue@.len() == old(self).send_queue@.len() + 1 && old(self).send_queue@.is_prefix_of(
                final(self).send_queue@,
            ) && final(self).send_queue@.last().packet_type == (PacketType::Disconnect {
                reason,
            }) && final(self).send_queue@.last().header.protocol_id == old(self).config.protocol_id && final(self).send_queue@.last().payload@.len() == 0,
            r is Err ==> *final(self) == *old(self),
    {
        match self.state {
            ConnectionState::Connected | ConnectionState::Connecting => {
                self.state = ConnectionState::Disconnecting;
                self.disconnect_retry_count = 0;
                self.disconnect_time_ms = Some(now_ms);
                let header = self.create_header();
                let packet = Packet::new(header, PacketType::Disconnect { reason });
                self.send_queue.push(packet);
                Ok(())
            },
            _ => Err(ConnectionError::NotConnected),
        }
    }

    /// Queues a message on a channel of a connected peer.
    pub fn send(&mut self, channel: u8, data: &[u8], reliable: bool) -> (r: Result<
        (),
        ConnectionError,
    >)
        requires
            old(self).wf(),
        ensures
            final(self).wf(),
            old(self).state != ConnectionState::Connected ==> r == Err::<
                (),
                ConnectionError,
            >(ConnectionError::NotConnected),
            old(self).state == ConnectionState::Connected && channel as int >= old(self).channels@.len() ==> r == Err::<(), ConnectionError>(ConnectionError::InvalidPacket),
            ({
                let in_range = old(self).state == ConnectionState::Connected && (channel as int)
                    < old(self).channels@.len();
                let ch_config = old(self).channels@[channel as int].config;
                let was_full = old(self).channels@[channel as int].send_buffer@.len()
                    >= ch_config.message_buffer_size;
                &&& (in_range ==> ((r == Err::<(), ConnectionError>(
                    ConnectionError::Channel(crate::channel::ChannelError::MessageTooLarge),
                )) <==> data@.len() > ch_config.max_message_size))
                &&& (in_range ==> ((r == Err::<(), ConnectionError>(
                    ConnectionError::Channel(crate::channel::ChannelError::BufferFull),
                )) <==> (data@.len() <= ch_config.max_message_size && was_full
                    && ch_config.block_on_full)))
                &&& (in_range ==> (r is Ok <==> (data@.len() <= ch_config.max_message_size && !(
                was_full && ch_config.block_on_full))))
            }),
            r is Ok ==> (channel as int) < old(self).channels@.len() && final(self).channels@[
                channel as int].send_buffer@.last().1@ == data@ && final(self).channels@[
                channel as int].send_buffer@.last().2 == reliable,
            *final(self) == (Connection { channels: final(self).channels, ..*old(self) }),
            final(self).channels@.len() == old(self).channels@.len(),
            forall|c: int|
                0 <= c < old(self).channels@.len() && c != channel as int ==> (
                #[trigger] final(self).channels@[c]) == old(self).channels@[c],
    {
        if !self.is_connected() {
            return Err(ConnectionError::NotConnected);
        }
        if channel as usize >= self.channels.len() {
            return Err(ConnectionError::InvalidPacket);
        }
        let idx = channel as usize;
        let ghost pre = self.channels@;
        let mut ch = Channel::new(0, self.config.default_channel_config);
        core::mem::swap(&mut ch, &mut self.channels[idx]);
        let result = ch.send(data, reliable);
        self.channels[idx] = ch;
        proof {
            assert forall|c: int| 0 <= c < self.channels@.len() implies (
            #[trigger] self.channels@[c]).wf() by {
                if c != idx {
                    assert(self.channels@[c] == pre[c]);
                }
            }
        }
        match result {
            Ok(()) => Ok(()),
            Err(e) => Err(ConnectionError::Channel(e)),
        }
    }

    /// The next message delivered by a channel, if any.
    pub fn receive(&mut self, channel: u8) -> (r: Option<Vec<u8>>)
        requires
            old(self).wf(),
        ensures
            final(self).wf(),
            final(self).config == old(self).config,
            final(self).channels@.len() == old(self).channels@.len(),
            *final(self) == (Connection { channels: final(self).channels, ..*old(self) }),
            forall|c: int| 0 <= c < old(self).channels@.len() && c != channel as int ==> (
            #[trigger] final(self).channels@[c]) == old(self).channels@[c],
            (channel as int) < old(self).channels@.len() ==> (r is Some <==> old(self).channels@[
                channel as int].receive_buffer@.len() > 0),
            (channel as int) >= old(self).channels@.len() ==> r is None,
            r matches Some(msg) ==> (channel as int) < old(self).channels@.len() && msg@ == old(self).channels@[channel as int].receive_buffer@[0]@ && final(self).channels@[
                channel as int].receive_buffer@ == old(self).channels@[
                channel as int].receive_buffer@.skip(1),
            r is Some ==> (channel as int) < old(self).channels@.len() && final(self).channels@[channel as int].receive_buffer@.len() < old(self).channels@[
                channel as int].receive_buffer@.len(),
            r is None ==> final(self).channels@ == old(self).channels@,
    {
        if channel as usize >= self.channels.len() {
            return None;
        }
        let idx = channel as usize;
        let ghost pre = self.channels@;
        let mut ch = Channel::new(0, self.config.default_channel_config);
        core::mem::swap(&mut ch, &mut self.channels[idx]);
        let out = ch.receive();
        self.channels[idx] = ch;
        proof {
            assert forall|c: int| 0 <= c < self.channels@.len() implies (
            #[trigger] self.channels@[c]).wf() by {
                if c != idx {
                    assert(self.channels@[c] == pre[c]);
                }
            }
            if out is None {
                assert(self.channels@ =~= pre);
            }
        }
        out
    }

    /// Feeds an incoming packet's header to the reliability endpoint: records
    /// the peer sequence, consumes its acknowledgments, and hands each retired
    /// packet's channel tag to the owning channel, which releases that send
    /// slot.
    pub fn process_incoming_header(&mut self, header: &PacketHeader, now_ms: u64)
        requires
            old(self).wf(),
        ensures
            final(self).wf(),
            *final(self) == (Connection {
                reliability: final(self).reliability,
                channels: final(self).channels,
                ..*old(self)
            }),
            final(self).channels@.len() == old(self).channels@.len(),
            forall|c: int|
                0 <= c < old(self).channels@.len() ==> (#[trigger] final(self).channels@[c]) == (
                crate::channel::Channel {
                    pending_ack: final(self).channels@[c].pending_ack,
                    ..old(self).channels@[c]
                }) && final(self).channels@[c].pending_ack@.len()
                    <= old(self).channels@[c].pending_ack@.len(),
            forall|j: int|
                0 <= j < old(self).reliability.sent_packets@.len() && !assoc_has(
                    final(self).reliability.sent_packets@,
                    (#[trigger] old(self).reliability.sent_packets@[j]).0,
                ) && (old(self).reliability.sent_packets@[j].1.channel_id as int) < old(self).channels@.len() ==> !assoc_has(
                    final(self).channels@[old(self).reliability.sent_packets@[j].1.channel_id as int].pending_ack@,
                    old(self).reliability.sent_packets@[j].1.channel_seq,
                ),
    {
        self.reliability.on_packet_received(header.sequence, now_ms);
        let released = self.reliability.process_acks(header.ack, header.ack_bits, now_ms);
        let ghost rel_after = self.reliability;
        let ghost chans0 = self.channels@;
        let ghost rel = released@;
        let mut t: usize = 0;
        while t < released.len()
            invariant
                self.wf(),
                t <= rel.len(),
                rel == released@,
                self.channels@.len() == chans0.len(),
                *self == (Connection {
                    reliability: self.reliability,
                    channels: self.channels,
                    ..*old(self)
                }),
                self.reliability == rel_after,
                forall|c: int|
                    0 <= c < chans0.len() ==> (#[trigger] self.channels@[c]) == (
                    crate::channel::Channel {
                        pending_ack: self.channels@[c].pending_ack,
                        ..chans0[c]
                    }) && self.channels@[c].pending_ack@.len()
                        <= chans0[c].pending_ack@.len(),
                forall|t2: int|
                    0 <= t2 < t && ((#[trigger] rel[t2]).0 as int) < self.channels@.len()
                        ==> !assoc_has(
                        self.channels@[rel[t2].0 as int].pending_ack@,
                        rel[t2].1,
                    ),
            decreases rel.len() - t,
        {
            let tag = released[t];
            let cid = tag.0 as usize;
            if cid < self.channels.len() {
                let ghost pre = self.channels@;
                let mut ch = Channel::new(0, self.config.default_channel_config);
                core::mem::swap(&mut ch, &mut self.channels[cid]);
                ch.on_ack(tag.1);
                self.channels[cid] = ch;
                proof {
                    assert forall|c: int| 0 <= c < self.channels@.len() implies (
                    #[trigger] self.channels@[c]).wf() by {
                        if c != cid {
                            assert(self.channels@[c] == pre[c]);
                        }
                    }
                    assert forall|t2: int|
                        0 <= t2 < t + 1 && ((#[trigger] rel[t2]).0 as int)
                            < self.channels@.len() implies !assoc_has(
                        self.channels@[rel[t2].0 as int].pending_ack@,
                        rel[t2].1,
                    ) by {
                        if rel[t2].0 as int != cid as int {
                            assert(self.channels@[rel[t2].0 as int] == pre[rel[t2].0 as int]);
                        } else {
                            if t2 < t {
                                crate::assoc::lemma_lookup_some_iff_has(
                                    self.channels@[cid as int].pending_ack@,
                                    rel[t2].1,
                                );
                                crate::assoc::lemma_lookup_some_iff_has(
                                    pre[cid as int].pending_ack@,
                                    rel[t2].1,
                                );
                            }
                        }
                    }
                }
            }
            t += 1;
        }
        proof {
            assert forall|j: int|
                0 <= j < old(self).reliability.sent_packets@.len() && !assoc_has(
                    self.reliability.sent_packets@,
                    (#[trigger] old(self).reliability.sent_packets@[j]).0,
                ) && (old(self).reliability.sent_packets@[j].1.channel_id as int) < old(self).channels@.len() implies !assoc_has(
                self.channels@[old(self).reliability.sent_packets@[j].1.channel_id as int].pending_ack@,
                old(self).reliability.sent_packets@[j].1.channel_seq,
            ) by {
                let tag = (
                    old(self).reliability.sent_packets@[j].1.channel_id,
                    old(self).reliability.sent_packets@[j].1.channel_seq,
                );
                assert(rel.contains(tag));
                let t2 = choose|t2: int| 0 <= t2 < rel.len() && rel[t2] == tag;
                assert(!assoc_has(
                    self.channels@[rel[t2].0 as int].pending_ack@,
                    rel[t2].1,
                ));
            }
        }
    }

    /// Hands a channel payload to its channel's receive discipline.
    pub fn receive_payload_direct(&mut self, channel: u8, payload: Vec<u8>, now_ms: u64)
        requires
            old(self).wf(),
        ensures
            final(self).wf(),
            *final(self) == (Connection { channels: final(self).channels, ..*old(self) }),
            final(self).channels@.len() == old(self).channels@.len(),
            forall|c: int| 0 <= c < old(self).channels@.len() && c != channel as int ==> (
            #[trigger] final(self).channels@[c]) == old(self).channels@[c],
            (channel as int) >= old(self).channels@.len() ==> final(self).channels@ == old(self).channels@,
            ({
                let ch = channel as int;
                (ch < old(self).channels@.len() && old(self).channels@[ch].config.delivery_mode
                    == crate::config::DeliveryMode::Unreliable && crate::channel::parse_channel_frame(
                    payload@,
                ) is Some) ==> final(self).channels@[ch].receive_buffer@.len() == old(self).channels@[ch].receive_buffer@.len() + 1 && final(self).channels@[ch].receive_buffer@.last()@ == crate::channel::parse_channel_frame(
                    payload@,
                ).unwrap().1
            }),
    {
        if channel as usize >= self.channels.len() {
            return ;
        }
        let idx = channel as usize;
        let ghost pre = self.channels@;
        let mut ch = Channel::new(0, self.config.default_channel_config);
        core::mem::swap(&mut ch, &mut self.channels[idx]);
        ch.on_packet_received(payload, now_ms);
        self.channels[idx] = ch;
        proof {
            assert forall|c: int| 0 <= c < self.channels@.len() implies (
            #[trigger] self.channels@[c]).wf() by {
                if c != idx {
                    assert(self.channels@[c] == pre[c]);
                }
            }
        }
    }

    /// Takes the queued outgoing packets, leaving the queue empty.
    pub fn drain_send_queue(&mut self) -> (r: Vec<Packet>)
        ensures
            r@ == old(self).send_queue@,
            final(self).send_queue@.len() == 0,
            *final(self) == (Connection { send_queue: final(self).send_queue, ..*old(self) }),
    {
        let mut out: Vec<Packet> = Vec::new();
        core::mem::swap(&mut out, &mut self.send_queue);
        out
    }

    /// Queues one keepalive packet.
    pub fn send_keepalive(&mut self)
        requires
            old(self).wf(),
        ensures
            final(self).wf(),
            final(self).config == old(self).config,
            final(self).send_queue@.len() == old(self).send_queue@.len() + 1,
            old(self).send_queue@.is_prefix_of(final(self).send_queue@),
            final(self).send_queue@.last().packet_type == PacketType::KeepAlive,
            final(self).send_queue@.last().header.protocol_id == old(self).config.protocol_id,
            *final(self) == (Connection { send_queue: final(self).send_queue, ..*old(self) }),
    {
        let header = self.create_header();
        let packet = Packet::new(header, PacketType::KeepAlive);
        self.send_queue.push(packet);
        proof {
            assert(old(self).send_queue@.is_prefix_of(final(self).send_queue@));
        }
    }

    /// Advances the connection by one tick at time `now_ms`, without doing
    /// any socket work: timeouts, handshake and disconnect retries,
    /// congestion feedback, keepalives, MTU probes, channel draining under
    /// pacing, and retransmissions. A connection that has heard nothing for
    /// longer than the configured timeout drops to `Disconnected` and
    /// reports `Timeout`.
    pub fn update_tick(&mut self, now_ms: u64) -> (r: Result<(), ConnectionError>)
        requires
            old(self).wf(),
        ensures
            final(self).wf(),
            ({
                let recv_timed_out = (old(self).state == ConnectionState::Connecting || old(self).state == ConnectionState::Connected) && now_ms >= old(self).last_packet_recv_time_ms && now_ms - old(self).last_packet_recv_time_ms > old(self).config.connection_timeout_ms;
                let retries_expired = match old(self).connection_request_time_ms {
                    Some(t) => now_ms >= t && now_ms - t
                        > old(self).config.connection_request_timeout_ms,
                    None => false,
                };
                let keepalive_due = now_ms >= old(self).last_packet_send_time_ms && now_ms - old(self).last_packet_send_time_ms > old(self).config.keepalive_interval_ms;
                let disc_expired = match old(self).disconnect_time_ms {
                    Some(t) => now_ms >= t && now_ms - t
                        > old(self).config.disconnect_retry_timeout_ms,
                    None => false,
                };
                &&& (recv_timed_out ==> r == Err::<(), ConnectionError>(ConnectionError::Timeout)
                    && final(self).state == ConnectionState::Disconnected)
                &&& (old(self).state == ConnectionState::Connecting && !recv_timed_out
                    && retries_expired && old(self).connection_retry_count >= old(self).config.connection_request_max_retries ==> r == Err::<(), ConnectionError>(
                    ConnectionError::Timeout,
                ) && final(self).state == ConnectionState::Disconnected)
                &&& (old(self).state == ConnectionState::Connecting && !recv_timed_out
                    && retries_expired && old(self).connection_retry_count < old(self).config.connection_request_max_retries ==> r is Ok && final(self).connection_retry_count == old(self).connection_retry_count + 1 && final(self).connection_request_time_ms == Some(now_ms) && final(self).send_queue@.len()
                    == old(self).send_queue@.len() + 1 && final(self).send_queue@.last().packet_type == PacketType::ConnectionRequest)
                &&& (old(self).state == ConnectionState::Connected && !recv_timed_out ==> final(self).congestion == crate::congestion::spec_congestion_update(
                    old(self).congestion,
                    crate::reliability::spec_loss_permille(old(self).reliability),
                    old(self).reliability.srtt_ms,
                    now_ms,
                ))
                &&& (old(self).state == ConnectionState::Connected && !recv_timed_out ==> r is Ok)
                &&& (old(self).state == ConnectionState::Disconnected || old(self).state
                    == ConnectionState::Disconnecting ==> r is Ok)
                &&& (old(self).state == ConnectionState::Connecting && !recv_timed_out && !(
                retries_expired && old(self).connection_retry_count
                    >= old(self).config.connection_request_max_retries) ==> r is Ok)
                &&& (old(self).state == ConnectionState::Connected && !recv_timed_out
                    && keepalive_due ==> queue_has_keepalive(final(self).send_queue@) && (
                exists|kp: int|
                    old(self).send_queue@.len() <= kp < final(self).send_queue@.len() && (
                    #[trigger] final(self).send_queue@[kp]).packet_type == PacketType::KeepAlive
                        && final(self).send_queue@[kp].header.protocol_id
                        == old(self).config.protocol_id))
                &&& (old(self).state == ConnectionState::Connected && !recv_timed_out
                    && total_send_backlog(old(self).channels@) < crate::congestion::spec_congestion_update(
                    old(self).congestion,
                    crate::reliability::spec_loss_permille(old(self).reliability),
                    old(self).reliability.srtt_ms,
                    now_ms,
                ).current_send_rate ==> (forall|c: int|
                    0 <= c < final(self).channels@.len() ==> (#[trigger] final(self).channels@[c]).send_buffer@.len() == 0))
                &&& (old(self).state == ConnectionState::Connected && !recv_timed_out
                    && no_due_retransmissions(*old(self), now_ms) ==> ({
                    let rate = crate::congestion::spec_congestion_update(
                        old(self).congestion,
                        crate::reliability::spec_loss_permille(old(self).reliability),
                        old(self).reliability.srtt_ms,
                        now_ms,
                    ).current_send_rate;
                    let sent_payloads = count_payloads(final(self).send_queue@) - count_payloads(
                        old(self).send_queue@,
                    );
                    let rel_payloads = count_reliable_payloads(
                        final(self).send_queue@,
                        old(self).channels@,
                    ) - count_reliable_payloads(old(self).send_queue@, old(self).channels@);
                    &&& sent_payloads <= rate
                    &&& (old(self).reliability.total_packets_sent + rel_payloads <= u64::MAX
                        ==> final(self).reliability.total_packets_sent == old(self).reliability.total_packets_sent + rel_payloads)
                }))
                &&& (old(self).state == ConnectionState::Connected && !recv_timed_out ==> (
                forall|c: int|
                    0 <= c < old(self).channels@.len() ==> ({
                        let ch0 = (#[trigger] old(self).channels@[c]);
                        let odue = match ch0.ordered_since_ms {
                            Some(since) => now_ms >= since && now_ms - since
                                >= ch0.config.ordered_buffer_timeout_ms,
                            None => false,
                        };
                        odue ==> 0 <= c < final(self).channels@.len() && final(self).channels@[c].ordered_buffer@.len() == 0 && final(self).channels@[c].ordered_since_ms is None
                            && final(self).channels@[c].receive_buffer@ == ch0.receive_buffer@
                            + crate::channel::flush_order(ch0.ordered_buffer@)
                    })))
                &&& (old(self).state == ConnectionState::Disconnecting && disc_expired && old(self).disconnect_retry_count >= old(self).config.disconnect_retries ==> final(self).state == ConnectionState::Disconnected)
                &&& (old(self).state == ConnectionState::Disconnecting && disc_expired && old(self).disconnect_retry_count < old(self).config.disconnect_retries ==> final(self).state == ConnectionState::Disconnecting && final(self).disconnect_retry_count
                    == old(self).disconnect_retry_count + 1 && final(self).disconnect_time_ms
                    == Some(now_ms) && final(self).send_queue@.len() == old(self).send_queue@.len() + 1 && final(self).send_queue@.last().packet_type == (
                PacketType::Disconnect { reason: DISCONNECT_REASON_REQUESTED }))
            }),
            r is Err ==> final(self).state == ConnectionState::Disconnected,
    {
        let timed_out = match self.state {
            ConnectionState::Connecting | ConnectionState::Connected => now_ms
                >= self.last_packet_recv_time_ms && now_ms - self.last_packet_recv_time_ms
                > self.config.connection_timeout_ms,
            _ => false,
        };
        if timed_out {
            self.state = ConnectionState::Disconnected;
            return Err(ConnectionError::Timeout);
        }
        self.fragment_assembler.cleanup(now_ms);
        match self.state {
            ConnectionState::Connecting => {
                match self.connection_request_time_ms {
                    Some(request_time) => {
                        if now_ms >= request_time && now_ms - request_time
                            > self.config.connection_request_timeout_ms {
                            if self.connection_retry_count
                                >= self.config.connection_request_max_retries {
                                self.state = ConnectionState::Disconnected;
                                return Err(ConnectionError::Timeout);
                            }
                            self.connection_retry_count = self.connection_retry_count + 1;
                            self.connection_request_time_ms = Some(now_ms);
                            let header = self.create_header();
                            let packet = Packet::new(header, PacketType::ConnectionRequest);
                            self.send_queue.push(packet);
                        }
                    },
                    None => {},
                }
            },
            ConnectionState::Connected => {
                let loss = self.reliability.packet_loss_permille();
                let rtt = self.reliability.srtt();
                self.congestion.update(loss, rtt, now_ms);
                proof {
                    if no_due_retransmissions(*old(self), now_ms) {
                        assert forall|k: u16|
                            #![trigger assoc_lookup(self.reliability.sent_packets@, k)]
                            (match assoc_lookup(self.reliability.sent_packets@, k) {
                                Some(rec) => !crate::reliability::retransmit_due(
                                    rec,
                                    now_ms,
                                    old(self).reliability.rto_ms,
                                ),
                                None => true,
                            }) by {
                            crate::assoc::lemma_lookup_some_iff_has(
                                self.reliability.sent_packets@,
                                k,
                            );
                            if assoc_lookup(self.reliability.sent_packets@, k) is Some {
                                crate::assoc::lemma_lookup_index_of(
                                    self.reliability.sent_packets@,
                                    k,
                                );
                            }
                        }
                    }
                }
                let ghost mut kp_i: int = 0;
                let ghost kp_due = now_ms >= old(self).last_packet_send_time_ms && now_ms - old(self).last_packet_send_time_ms > old(self).config.keepalive_interval_ms;
                if now_ms >= self.last_packet_send_time_ms && now_ms
                    - self.last_packet_send_time_ms > self.config.keepalive_interval_ms {
                    self.send_keepalive();
                    proof {
                        kp_i = self.send_queue@.len() - 1;
                        assert(self.send_queue@.drop_last() =~= old(self).send_queue@);
                        assert(count_payloads(self.send_queue@) == count_payloads(
                            old(self).send_queue@,
                        ));
                        assert(count_reliable_payloads(self.send_queue@, old(self).channels@)
                            == count_reliable_payloads(
                            old(self).send_queue@,
                            old(self).channels@,
                        ));
                    }
                }
                match self.mtu_discovery.next_probe(now_ms) {
                    Some(probe_size) => {
                        let header = self.create_header();
                        let pad_len = if probe_size as usize >= 16 {
                            probe_size as usize - 16
                        } else {
                            0
                        };
                        let mut padding: Vec<u8> = Vec::new();
                        let mut p: usize = 0;
                        while p < pad_len
                            invariant
                                p <= pad_len,
                            decreases pad_len - p,
                        {
                            padding.push(0);
                            p += 1;
                        }
                        let packet = Packet::new(
                            header,
                            PacketType::MtuProbe { probe_size },
                        ).with_payload(padding);
                        let ghost qb = self.send_queue@;
                        self.send_queue.push(packet);
                        proof {
                            assert(self.send_queue@.drop_last() =~= qb);
                            assert(count_payloads(self.send_queue@) == count_payloads(qb));
                            assert(count_reliable_payloads(
                                self.send_queue@,
                                old(self).channels@,
                            ) == count_reliable_payloads(qb, old(self).channels@));
                        }
                    },
                    None => {},
                }
                let mut packets_sent_this_cycle: u32 = 0;
                let mut ch_idx: usize = 0;
                while ch_idx < self.channels.len()
                    invariant
                        self.wf(),
                        self.config == old(self).config,
                        ch_idx <= self.channels@.len(),
                        packets_sent_this_cycle as int + total_send_backlog(self.channels@)
                            <= total_send_backlog(old(self).channels@),
                        forall|c: int| 0 <= c < ch_idx ==> ((#[trigger] self.channels@[c]).send_buffer@.len() == 0
                            || packets_sent_this_cycle >= self.congestion.current_send_rate),
                        self.congestion == crate::congestion::spec_congestion_update(
                            old(self).congestion,
                            crate::reliability::spec_loss_permille(old(self).reliability),
                            old(self).reliability.srtt_ms,
                            now_ms,
                        ),
                        kp_due ==> (old(self).send_queue@.len() <= kp_i < self.send_queue@.len()
                            && self.send_queue@[kp_i].packet_type == PacketType::KeepAlive
                            && self.send_queue@[kp_i].header.protocol_id
                            == old(self).config.protocol_id),
                        self.reliability.rto_ms == old(self).reliability.rto_ms,
                        packets_sent_this_cycle <= self.congestion.current_send_rate,
                        self.channels@.len() == old(self).channels@.len(),
                        forall|c: int| ch_idx <= c < self.channels@.len() ==> (
                        #[trigger] self.channels@[c]) == old(self).channels@[c],
                        no_due_retransmissions(*old(self), now_ms) ==> count_payloads(
                            self.send_queue@,
                        ) - count_payloads(old(self).send_queue@) == packets_sent_this_cycle as int,
                        no_due_retransmissions(*old(self), now_ms) ==> ({
                            let crel = count_reliable_payloads(
                                self.send_queue@,
                                old(self).channels@,
                            ) - count_reliable_payloads(old(self).send_queue@, old(self).channels@);
                            crel >= 0 && (old(self).reliability.total_packets_sent + crel
                                <= u64::MAX ==> self.reliability.total_packets_sent == old(self).reliability.total_packets_sent + crel)
                        }),
                        no_due_retransmissions(*old(self), now_ms) ==> (forall|k: u16|
                            #![trigger assoc_lookup(self.reliability.sent_packets@, k)]
                            match assoc_lookup(self.reliability.sent_packets@, k) {
                                Some(rec) => !crate::reliability::retransmit_due(
                                    rec,
                                    now_ms,
                                    old(self).reliability.rto_ms,
                                ),
                                None => true,
                            }),
                        forall|c: int| 0 <= c < ch_idx ==> ({
                            let ch0 = (#[trigger] old(self).channels@[c]);
                            let odue = match ch0.ordered_since_ms {
                                Some(since) => now_ms >= since && now_ms - since
                                    >= ch0.config.ordered_buffer_timeout_ms,
                                None => false,
                            };
                            odue ==> self.channels@[c].ordered_buffer@.len() == 0
                                && self.channels@[c].ordered_since_ms is None
                                && self.channels@[c].receive_buffer@ == ch0.receive_buffer@
                                + crate::channel::flush_order(ch0.ordered_buffer@)
                        }),
                    decreases self.channels@.len() - ch_idx,
                {
                    let ghost pre = self.channels@;
                    let mut ch = Channel::new(0, self.config.default_channel_config);
                    proof {
                        lemma_backlog_update(pre, ch_idx as int, ch);
                    }
                    core::mem::swap(&mut ch, &mut self.channels[ch_idx]);
                    let reliable_channel = ch.is_reliable();
                    proof {
                        assert(ch == old(self).channels@[ch_idx as int]);
                        if no_due_retransmissions(*old(self), now_ms) {
                            assert forall|k: u16|
                                #![trigger assoc_lookup(ch.pending_ack@, k)]
                                (match assoc_lookup(ch.pending_ack@, k) {
                                    Some(pm) => !crate::channel::pending_due(
                                        pm,
                                        now_ms,
                                        old(self).reliability.rto_ms,
                                    ),
                                    None => true,
                                }) by {
                                crate::assoc::lemma_lookup_some_iff_has(ch.pending_ack@, k);
                                if assoc_lookup(ch.pending_ack@, k) is Some {
                                    crate::assoc::lemma_lookup_index_of(ch.pending_ack@, k);
                                    let j = choose|j: int|
                                        0 <= j < ch.pending_ack@.len() && (
                                        #[trigger] ch.pending_ack@[j]).0 == k
                                            && ch.pending_ack@[j].1 == assoc_lookup(
                                            ch.pending_ack@,
                                            k,
                                        ).unwrap();
                                    assert(old(self).channels@[ch_idx as int].pending_ack@[j]
                                        == ch.pending_ack@[j]);
                                }
                            }
                        }
                    }
                    loop
                        invariant
                            ch.wf(),
                            self.wf(),
                            self.config == old(self).config,
                            ch_idx < self.channels@.len(),
                            self.channels@.len() == pre.len(),
                            forall|c: int| 0 <= c < pre.len() && c != ch_idx ==> (
                            #[trigger] self.channels@[c]) == pre[c],
                            packets_sent_this_cycle as int + total_send_backlog(self.channels@)
                                + ch.send_buffer@.len() <= total_send_backlog(
                                old(self).channels@,
                            ),
                            forall|c: int| 0 <= c < ch_idx ==> ((#[trigger] self.channels@[c]).send_buffer@.len() == 0
                                || packets_sent_this_cycle
                                >= self.congestion.current_send_rate),
                        self.congestion == crate::congestion::spec_congestion_update(
                            old(self).congestion,
                            crate::reliability::spec_loss_permille(old(self).reliability),
                            old(self).reliability.srtt_ms,
                            now_ms,
                        ),
                        kp_due ==> (old(self).send_queue@.len() <= kp_i < self.send_queue@.len()
                            && self.send_queue@[kp_i].packet_type == PacketType::KeepAlive
                            && self.send_queue@[kp_i].header.protocol_id
                            == old(self).config.protocol_id),
                        self.reliability.rto_ms == old(self).reliability.rto_ms,
                        packets_sent_this_cycle <= self.congestion.current_send_rate,
                        ch_idx < old(self).channels@.len(),
                        forall|c: int| ch_idx <= c < pre.len() ==> pre[c] == old(self).channels@[c],
                        reliable_channel == crate::config::spec_mode_reliable(
                            old(self).channels@[ch_idx as int].config.delivery_mode,
                        ),
                        ch == (Channel {
                            send_buffer: ch.send_buffer,
                            pending_ack: ch.pending_ack,
                            ..old(self).channels@[ch_idx as int]
                        }),
                        no_due_retransmissions(*old(self), now_ms) ==> count_payloads(
                            self.send_queue@,
                        ) - count_payloads(old(self).send_queue@) == packets_sent_this_cycle as int,
                        no_due_retransmissions(*old(self), now_ms) ==> ({
                            let crel = count_reliable_payloads(
                                self.send_queue@,
                                old(self).channels@,
                            ) - count_reliable_payloads(old(self).send_queue@, old(self).channels@);
                            crel >= 0 && (old(self).reliability.total_packets_sent + crel
                                <= u64::MAX ==> self.reliability.total_packets_sent == old(self).reliability.total_packets_sent + crel)
                        }),
                        no_due_retransmissions(*old(self), now_ms) ==> (forall|k: u16|
                            #![trigger assoc_lookup(self.reliability.sent_packets@, k)]
                            match assoc_lookup(self.reliability.sent_packets@, k) {
                                Some(rec) => !crate::reliability::retransmit_due(
                                    rec,
                                    now_ms,
                                    old(self).reliability.rto_ms,
                                ),
                                None => true,
                            }),
                        no_due_retransmissions(*old(self), now_ms) ==> (forall|k: u16|
                            #![trigger assoc_lookup(ch.pending_ack@, k)]
                            match assoc_lookup(ch.pending_ack@, k) {
                                Some(pm) => !crate::channel::pending_due(
                                    pm,
                                    now_ms,
                                    old(self).reliability.rto_ms,
                                ),
                                None => true,
                            }),
                        forall|c: int| 0 <= c < ch_idx ==> ({
                            let ch0 = (#[trigger] old(self).channels@[c]);
                            let odue = match ch0.ordered_since_ms {
                                Some(since) => now_ms >= since && now_ms - since
                                    >= ch0.config.ordered_buffer_timeout_ms,
                                None => false,
                            };
                            odue ==> self.channels@[c].ordered_buffer@.len() == 0
                                && self.channels@[c].ordered_since_ms is None
                                && self.channels@[c].receive_buffer@ == ch0.receive_buffer@
                                + crate::channel::flush_order(ch0.ordered_buffer@)
                        }),
                        ensures
                            ch.send_buffer@.len() == 0 || packets_sent_this_cycle
                                >= self.congestion.current_send_rate,
                        decreases ch.send_buffer@.len(),
                    {
                        if !self.congestion.can_send(packets_sent_this_cycle) {
                            break ;
                        }
                        match ch.get_outgoing_message(now_ms) {
                            Some(out) => {
                                let msg_seq = out.0;
                                let wire = out.1;
                                packets_sent_this_cycle = if packets_sent_this_cycle
                                    == u32::MAX {
                                    packets_sent_this_cycle
                                } else {
                                    packets_sent_this_cycle + 1
                                };
                                let ghost rel_prev = self.reliability;
                                if reliable_channel {
                                    let wire_copy = crate::reliability::copy_bytes(&wire);
                                    self.reliability.on_packet_sent(
                                        msg_seq,
                                        now_ms,
                                        wire_copy,
                                        ch_idx as u8,
                                        msg_seq,
                                    );
                                }
                                proof {
                                    if no_due_retransmissions(*old(self), now_ms) {
                                        assert forall|k: u16|
                                            #![trigger assoc_lookup(self.reliability.sent_packets@, k)]
                                            (match assoc_lookup(
                                                self.reliability.sent_packets@,
                                                k,
                                            ) {
                                                Some(rec) => !crate::reliability::retransmit_due(
                                                    rec,
                                                    now_ms,
                                                    old(self).reliability.rto_ms,
                                                ),
                                                None => true,
                                            }) by {
                                            if reliable_channel {
                                                if k == msg_seq {
                                                    assert(crate::reliability::backoff_factor(0)
                                                        == 1);
                                                } else if rel_prev.sent_packets@.len()
                                                    >= rel_prev.max_in_flight && !assoc_has(
                                                    rel_prev.sent_packets@,
                                                    msg_seq,
                                                ) {
                                                    let vi = choose|vi: int|
                                                        0 <= vi < rel_prev.sent_packets@.len()
                                                            && !assoc_has(
                                                            self.reliability.sent_packets@,
                                                            (
                                                            #[trigger] rel_prev.sent_packets@[vi]).0,
                                                        ) && (forall|j: int|
                                                            0 <= j < rel_prev.sent_packets@.len()
                                                                ==> (
                                                            #[trigger] rel_prev.sent_packets@[j]).1.retry_count
                                                                <= rel_prev.sent_packets@[vi].1.retry_count)
                                                            && (forall|k2: u16|
                                                            k2 != msg_seq && k2
                                                                != rel_prev.sent_packets@[vi].0
                                                                ==> assoc_lookup(
                                                                self.reliability.sent_packets@,
                                                                k2,
                                                            ) == assoc_lookup(
                                                                rel_prev.sent_packets@,
                                                                k2,
                                                            ));
                                                    if k == rel_prev.sent_packets@[vi].0 {
                                                        crate::assoc::lemma_lookup_some_iff_has(
                                                            self.reliability.sent_packets@,
                                                            k,
                                                        );
                                                    }
                                                }
                                            }
                                        }
                                    }
                                }
                                let header = self.create_header();
                                let packet = Packet::new(
                                    header,
                                    PacketType::Payload {
                                        channel: ch_idx as u8,
                                        is_fragment: false,
                                    },
                                ).with_payload(wire);
                                let ghost qprev = self.send_queue@;
                                self.send_queue.push(packet);
                                proof {
                                    lemma_count_payloads_push(
                                        qprev,
                                        self.send_queue@.last(),
                                        old(self).channels@,
                                    );
                                    assert(self.send_queue@ == qprev.push(
                                        self.send_queue@.last(),
                                    ));
                                }
                            },
                            None => {
                                break ;
                            },
                        }
                    }
                    let ghost drained_or_budget = ch.send_buffer@.len() == 0
                        || packets_sent_this_cycle >= self.congestion.current_send_rate;
                    let rto = self.reliability.rto();
                    let ghost pend_pre = ch.pending_ack@;
                    let mut retransmits = ch.get_retransmit_messages(now_ms, rto);
                    proof {
                        if no_due_retransmissions(*old(self), now_ms) {
                            assert(retransmits@.len() == 0) by {
                                if retransmits@.len() > 0 {
                                    let item = retransmits@[0];
                                    assert(crate::channel::retransmit_of(
                                        item,
                                        pend_pre,
                                        now_ms,
                                        rto,
                                    ));
                                    let j = choose|j: int|
                                        0 <= j < pend_pre.len() && crate::channel::pending_due(
                                            (#[trigger] pend_pre[j]).1,
                                            now_ms,
                                            rto,
                                        ) && item.0 == pend_pre[j].0 && item.1@
                                            == pend_pre[j].1.wire@;
                                    crate::assoc::lemma_lookup_at_index(pend_pre, j);
                                }
                            }
                        }
                    }
                    let mut rt: usize = 0;
                    while rt < retransmits.len()
                        invariant
                            self.wf(),
                            self.config == old(self).config,
                            rt <= retransmits@.len(),
                            ch_idx < self.channels@.len(),
                            self.channels@.len() == pre.len(),
                            forall|c: int| 0 <= c < pre.len() && c != ch_idx ==> (
                            #[trigger] self.channels@[c]) == pre[c],
                            packets_sent_this_cycle as int + total_send_backlog(self.channels@)
                                + ch.send_buffer@.len() <= total_send_backlog(
                                old(self).channels@,
                            ),
                            drained_or_budget,
                            drained_or_budget == (ch.send_buffer@.len() == 0
                                || packets_sent_this_cycle
                                >= self.congestion.current_send_rate),
                            forall|c: int| 0 <= c < ch_idx ==> ((#[trigger] self.channels@[c]).send_buffer@.len() == 0
                                || packets_sent_this_cycle
                                >= self.congestion.current_send_rate),
                        self.congestion == crate::congestion::spec_congestion_update(
                            old(self).congestion,
                            crate::reliability::spec_loss_permille(old(self).reliability),
                            old(self).reliability.srtt_ms,
                            now_ms,
                        ),
                        kp_due ==> (old(self).send_queue@.len() <= kp_i < self.send_queue@.len()
                            && self.send_queue@[kp_i].packet_type == PacketType::KeepAlive
                            && self.send_queue@[kp_i].header.protocol_id
                            == old(self).config.protocol_id),
                        self.reliability.rto_ms == old(self).reliability.rto_ms,
                        packets_sent_this_cycle <= self.congestion.current_send_rate,
                        ch_idx < old(self).channels@.len(),
                        forall|c: int| ch_idx < c < self.channels@.len() ==> (
                        #[trigger] self.channels@[c]) == old(self).channels@[c],
                        no_due_retransmissions(*old(self), now_ms) ==> retransmits@.len() == 0,
                        no_due_retransmissions(*old(self), now_ms) ==> count_payloads(
                            self.send_queue@,
                        ) - count_payloads(old(self).send_queue@) == packets_sent_this_cycle as int,
                        no_due_retransmissions(*old(self), now_ms) ==> ({
                            let crel = count_reliable_payloads(
                                self.send_queue@,
                                old(self).channels@,
                            ) - count_reliable_payloads(old(self).send_queue@, old(self).channels@);
                            crel >= 0 && (old(self).reliability.total_packets_sent + crel
                                <= u64::MAX ==> self.reliability.total_packets_sent == old(self).reliability.total_packets_sent + crel)
                        }),
                        no_due_retransmissions(*old(self), now_ms) ==> (forall|k: u16|
                            #![trigger assoc_lookup(self.reliability.sent_packets@, k)]
                            match assoc_lookup(self.reliability.sent_packets@, k) {
                                Some(rec) => !crate::reliability::retransmit_due(
                                    rec,
                                    now_ms,
                                    old(self).reliability.rto_ms,
                                ),
                                None => true,
                            }),
                        forall|c: int| 0 <= c < ch_idx ==> ({
                            let ch0 = (#[trigger] old(self).channels@[c]);
                            let odue = match ch0.ordered_since_ms {
                                Some(since) => now_ms >= since && now_ms - since
                                    >= ch0.config.ordered_buffer_timeout_ms,
                                None => false,
                            };
                            odue ==> self.channels@[c].ordered_buffer@.len() == 0
                                && self.channels@[c].ordered_since_ms is None
                                && self.channels@[c].receive_buffer@ == ch0.receive_buffer@
                                + crate::channel::flush_order(ch0.ordered_buffer@)
                        }),
                        decreases retransmits@.len() - rt,
                    {
                        let mut wire: Vec<u8> = Vec::new();
                        core::mem::swap(&mut wire, &mut retransmits[rt].1);
                        let header = self.create_header();
                        let packet = Packet::new(
                            header,
                            PacketType::Payload { channel: ch_idx as u8, is_fragment: false },
                        ).with_payload(wire);
                        self.send_queue.push(packet);
                        rt += 1;
                    }
                    ch.update(now_ms);
                    proof {
                        lemma_backlog_update(self.channels@, ch_idx as int, ch);
                    }
                    self.channels[ch_idx] = ch;
                    proof {
                        assert forall|c: int| 0 <= c < self.channels@.len() implies (
                        #[trigger] self.channels@[c]).wf() by {
                            if c != ch_idx {
                                assert(self.channels@[c] == pre[c]);
                            }
                        }
                        assert forall|c: int| 0 <= c < ch_idx + 1 implies ((
                        #[trigger] self.channels@[c]).send_buffer@.len() == 0
                            || packets_sent_this_cycle >= self.congestion.current_send_rate) by {
                            if c != ch_idx {
                                assert(self.channels@[c] == pre[c]);
                            }
                        }
                        assert forall|c: int| 0 <= c < ch_idx + 1 implies ({
                            let ch0 = (#[trigger] old(self).channels@[c]);
                            let odue = match ch0.ordered_since_ms {
                                Some(since) => now_ms >= since && now_ms - since
                                    >= ch0.config.ordered_buffer_timeout_ms,
                                None => false,
                            };
                            odue ==> self.channels@[c].ordered_buffer@.len() == 0
                                && self.channels@[c].ordered_since_ms is None
                                && self.channels@[c].receive_buffer@ == ch0.receive_buffer@
                                + crate::channel::flush_order(ch0.ordered_buffer@)
                        }) by {
                            if c != ch_idx {
                                assert(self.channels@[c] == pre[c]);
                            } else {
                                assert(self.channels@[c] == ch);
                            }
                        }
                    }
                    ch_idx += 1;
                }
                let ghost sent_pre = self.reliability.sent_packets@;
                let to_retry = self.reliability.update(now_ms);
                proof {
                    if no_due_retransmissions(*old(self), now_ms) {
                        assert(crate::reliability::retransmit_entries(to_retry).len() == 0) by {
                            if crate::reliability::retransmit_entries(to_retry).len() > 0 {
                                let key = crate::reliability::retransmit_entries(to_retry)[0].0;
                                assert(assoc_lookup(sent_pre, key) is Some);
                            }
                        }
                    }
                }
                let mut q: usize = 0;
                let retry_len = to_retry.len();
                while q < retry_len
                    invariant
                        self.wf(),
                        self.config == old(self).config,
                        q <= retry_len,
                        retry_len == crate::reliability::retransmit_entries(to_retry).len(),
                        no_due_retransmissions(*old(self), now_ms) ==> retry_len == 0,
                        packets_sent_this_cycle <= self.congestion.current_send_rate,
                        no_due_retransmissions(*old(self), now_ms) ==> count_payloads(
                            self.send_queue@,
                        ) - count_payloads(old(self).send_queue@) == packets_sent_this_cycle as int,
                        no_due_retransmissions(*old(self), now_ms) ==> ({
                            let crel = count_reliable_payloads(
                                self.send_queue@,
                                old(self).channels@,
                            ) - count_reliable_payloads(old(self).send_queue@, old(self).channels@);
                            crel >= 0 && (old(self).reliability.total_packets_sent + crel
                                <= u64::MAX ==> self.reliability.total_packets_sent == old(self).reliability.total_packets_sent + crel)
                        }),
                        forall|c: int| 0 <= c < old(self).channels@.len() ==> ({
                            let ch0 = (#[trigger] old(self).channels@[c]);
                            let odue = match ch0.ordered_since_ms {
                                Some(since) => now_ms >= since && now_ms - since
                                    >= ch0.config.ordered_buffer_timeout_ms,
                                None => false,
                            };
                            odue ==> 0 <= c < self.channels@.len()
                                && self.channels@[c].ordered_buffer@.len() == 0
                                && self.channels@[c].ordered_since_ms is None
                                && self.channels@[c].receive_buffer@ == ch0.receive_buffer@
                                + crate::channel::flush_order(ch0.ordered_buffer@)
                        }),
                        packets_sent_this_cycle as int + total_send_backlog(self.channels@)
                            <= total_send_backlog(old(self).channels@),
                        forall|c: int| 0 <= c < self.channels@.len() ==> ((#[trigger] self.channels@[c]).send_buffer@.len() == 0
                            || packets_sent_this_cycle >= self.congestion.current_send_rate),
                    self.congestion == crate::congestion::spec_congestion_update(
                        old(self).congestion,
                        crate::reliability::spec_loss_permille(old(self).reliability),
                        old(self).reliability.srtt_ms,
                        now_ms,
                    ),
                    kp_due ==> (old(self).send_queue@.len() <= kp_i < self.send_queue@.len()
                        && self.send_queue@[kp_i].packet_type == PacketType::KeepAlive
                        && self.send_queue@[kp_i].header.protocol_id
                        == old(self).config.protocol_id),
                    decreases retry_len - q,
                {
                    let item = to_retry.get(q);
                    let sequence = item.0;
                    let data = crate::reliability::copy_bytes(&item.1);
                    let mut header = self.create_header();
                    header.sequence = sequence;
                    let packet = Packet::new(
                        header,
                        PacketType::Payload { channel: 0, is_fragment: false },
                    ).with_payload(data);
                    self.send_queue.push(packet);
                    q += 1;
                }
            },
            ConnectionState::Disconnecting => {
                match self.disconnect_time_ms {
                    Some(disc_time) => {
                        if now_ms >= disc_time && now_ms - disc_time
                            > self.config.disconnect_retry_timeout_ms {
                            if self.disconnect_retry_count >= self.config.disconnect_retries {
                                self.state = ConnectionState::Disconnected;
                            } else {
                                self.disconnect_retry_count = self.disconnect_retry_count + 1;
                                self.disconnect_time_ms = Some(now_ms);
                                let header = self.create_header();
                                let packet = Packet::new(
                                    header,
                                    PacketType::Disconnect {
                                        reason: DISCONNECT_REASON_REQUESTED,
                                    },
                                );
                                self.send_queue.push(packet);
                            }
                        }
                    },
                    None => {},
                }
            },
            _ => {},
        }
        proof {
            if old(self).state == ConnectionState::Connected {
                lemma_backlog_nonneg(self.channels@);
            }
        }
        let loss_now = self.reliability.packet_loss_permille();
        self.stats.packet_loss_permille = loss_now;
        self.stats.rtt_ms = self.reliability.srtt();
        self.stats.bandwidth_up_bytes_per_sec = self.bandwidth_up.bytes_in_window();
        self.stats.bandwidth_down_bytes_per_sec = self.bandwidth_down.bytes_in_window();
        Ok(())
    }

    /// Dispatches one decoded, protocol-checked packet at time `now_ms`.
    /// Returns the disconnect reason when the packet ends the connection.
    pub fn handle_packet(&mut self, packet: Packet, now_ms: u64, fresh_salt: u64) -> (r: Option<
        DisconnectReason,
    >)
        requires
            old(self).wf(),
        ensures
            final(self).wf(),
            r is Some ==> final(self).state == ConnectionState::Disconnected,
            (match packet.packet_type {
                PacketType::ConnectionChallenge { server_salt } => old(self).state
                    == ConnectionState::Connecting ==> r is None && final(self).send_queue@.len()
                    == old(self).send_queue@.len() + 1 && final(self).send_queue@.last().packet_type == (PacketType::ConnectionResponse {
                    client_salt: spec_pick_client_salt(fresh_salt, server_salt),
                }) && spec_pick_client_salt(fresh_salt, server_salt) != 0
                    && spec_pick_client_salt(fresh_salt, server_salt) != server_salt && final(self).state == old(self).state,
                PacketType::ConnectionAccept => old(self).state == ConnectionState::Connecting
                    ==> r is None && final(self).state == ConnectionState::Connected && final(self).last_packet_recv_time_ms == now_ms,
                PacketType::ConnectionDeny { reason } => old(self).state
                    == ConnectionState::Connecting ==> r is Some && final(self).state
                    == ConnectionState::Disconnected,
                PacketType::Disconnect { reason } => final(self).state
                    == ConnectionState::Disconnected && r == Some(spec_reason_from_code(reason)),
                PacketType::KeepAlive => r is None && final(self).state == old(self).state
                    && final(self).last_packet_recv_time_ms == now_ms,
                PacketType::Payload { channel, is_fragment } => r is None && final(self).state
                    == old(self).state && final(self).last_packet_recv_time_ms == now_ms,
                PacketType::BatchedPayload { channel } => r is None && final(self).state == old(self).state && final(self).last_packet_recv_time_ms == now_ms,
                PacketType::MtuProbe { probe_size } => r is None && final(self).state == old(self).state && final(self).last_packet_recv_time_ms == now_ms && final(self).send_queue@.len() == old(self).send_queue@.len() + 1 && final(self).send_queue@.last().packet_type == (PacketType::MtuProbeAck { probe_size }),
                PacketType::MtuProbeAck { probe_size } => r is None && final(self).state == old(self).state && final(self).last_packet_recv_time_ms == now_ms,
                PacketType::ConnectionRequest | PacketType::ConnectionResponse { .. } => r
                    is None && *final(self) == *old(self),
            }),
    {
        match packet.packet_type {
            PacketType::ConnectionChallenge { server_salt } => {
                match self.state {
                    ConnectionState::Connecting => {
                        let client_salt = if fresh_salt != 0 && fresh_salt != server_salt {
                            fresh_salt
                        } else if server_salt != 1 {
                            1
                        } else {
                            2
                        };
                        proof {
                            assert(client_salt == spec_pick_client_salt(
                                fresh_salt,
                                server_salt,
                            ));
                        }
                        let header = self.create_header();
                        let response = Packet::new(
                            header,
                            PacketType::ConnectionResponse { client_salt },
                        );
                        self.send_queue.push(response);
                        proof {
                            assert(self.send_queue@.last().packet_type == (
                            PacketType::ConnectionResponse {
                                client_salt: spec_pick_client_salt(fresh_salt, server_salt),
                            }));
                        }
                    },
                    _ => {},
                }
                None
            },
            PacketType::ConnectionAccept => {
                match self.state {
                    ConnectionState::Connecting => {
                        self.state = ConnectionState::Connected;
                        self.last_packet_recv_time_ms = now_ms;
                    },
                    _ => {},
                }
                None
            },
            PacketType::ConnectionDeny { reason } => {
                match self.state {
                    ConnectionState::Connecting => {
                        self.state = ConnectionState::Disconnected;
                        Some(
                            if reason == DENY_REASON_SERVER_FULL {
                                DisconnectReason::ServerFull
                            } else {
                                DisconnectReason::Unknown
                            },
                        )
                    },
                    _ => None,
                }
            },
            PacketType::Disconnect { reason } => {
                self.state = ConnectionState::Disconnected;
                Some(DisconnectReason::from_code(reason))
            },
            PacketType::KeepAlive => {
                self.touch_recv_time(now_ms);
                self.process_incoming_header(&packet.header, now_ms);
                None
            },
            PacketType::Payload { channel, is_fragment } => {
                self.touch_recv_time(now_ms);
                self.process_incoming_header(&packet.header, now_ms);
                if is_fragment {
                    match self.fragment_assembler.process_fragment(
                        packet.payload.as_slice(),
                        now_ms,
                    ) {
                        Some(assembled) => {
                            self.receive_payload_direct(channel, assembled, now_ms);
                        },
                        None => {},
                    }
                } else {
                    self.receive_payload_direct(channel, packet.payload, now_ms);
                }
                None
            },
            PacketType::BatchedPayload { channel } => {
                self.touch_recv_time(now_ms);
                self.process_incoming_header(&packet.header, now_ms);
                match crate::congestion::unbatch_messages(packet.payload.as_slice()) {
                    Some(mut messages) => {
                        let mut m: usize = 0;
                        while m < messages.len()
                            invariant
                                self.wf(),
                                m <= messages@.len(),
                                self.state == old(self).state,
                                self.last_packet_recv_time_ms == now_ms,
                            decreases messages@.len() - m,
                        {
                            let mut msg: Vec<u8> = Vec::new();
                            core::mem::swap(&mut msg, &mut messages[m]);
                            self.receive_payload_direct(channel, msg, now_ms);
                            m += 1;
                        }
                    },
                    None => {},
                }
                None
            },
            PacketType::MtuProbe { probe_size } => {
                self.touch_recv_time(now_ms);
                self.process_incoming_header(&packet.header, now_ms);
                let header = self.create_header();
                let ack = Packet::new(header, PacketType::MtuProbeAck { probe_size });
                self.send_queue.push(ack);
                None
            },
            PacketType::MtuProbeAck { probe_size } => {
                self.touch_recv_time(now_ms);
                self.process_incoming_header(&packet.header, now_ms);
                self.mtu_discovery.on_probe_success(probe_size as usize);
                None
            },
            PacketType::ConnectionRequest | PacketType::ConnectionResponse { .. } => None,
        }
    }

    /// Counts bytes received over this connection toward bandwidth and the
    /// connection statistics.
    pub fn record_bytes_received(&mut self, bytes: usize, now_ms: u64)
        requires
            old(self).wf(),
        ensures
            final(self).wf(),
            final(self).bandwidth_down.window@ == crate::congestion::retain_fresh_samples(
                old(self).bandwidth_down.window@,
                now_ms,
                old(self).bandwidth_down.window_duration_ms,
            ).push((now_ms, bytes)),
            final(self).stats.packets_received == (if old(self).stats.packets_received
                == u64::MAX {
                old(self).stats.packets_received as int
            } else {
                old(self).stats.packets_received + 1
            }),
            final(self).stats.bytes_received == (if bytes as u64 > u64::MAX
                - old(self).stats.bytes_received {
                u64::MAX as int
            } else {
                old(self).stats.bytes_received + bytes as u64
            }),
            final(self).stats == (crate::stats::NetworkStats {
                packets_received: final(self).stats.packets_received,
                bytes_received: final(self).stats.bytes_received,
                ..old(self).stats
            }),
            *final(self) == (Connection {
                bandwidth_down: final(self).bandwidth_down,
                stats: final(self).stats,
                ..*old(self)
            }),
    {
        self.bandwidth_down.record(bytes, now_ms);
        self.stats.packets_received = if self.stats.packets_received == u64::MAX {
            self.stats.packets_received
        } else {
            self.stats.packets_received + 1
        };
        self.stats.bytes_received = if (bytes as u64) > u64::MAX - self.stats.bytes_received {
            u64::MAX
        } else {
            self.stats.bytes_received + bytes as u64
        };
    }

    /// Counts bytes sent over this connection, stamps the send time, and
    /// advances the outgoing datagram sequence.
    pub fn record_bytes_sent(&mut self, bytes: usize, now_ms: u64)
        requires
            old(self).wf(),
        ensures
            final(self).wf(),
            final(self).last_packet_send_time_ms == now_ms,
            final(self).local_sequence == (if old(self).local_sequence == 0xFFFF {
                0u16
            } else {
                (old(self).local_sequence + 1) as u16
            }),
            final(self).send_queue@ == old(self).send_queue@,
            final(self).channels@ == old(self).channels@,
            final(self).state == old(self).state,
            final(self).config == old(self).config,
            final(self).bandwidth_up.window@ == crate::congestion::retain_fresh_samples(
                old(self).bandwidth_up.window@,
                now_ms,
                old(self).bandwidth_up.window_duration_ms,
            ).push((now_ms, bytes)),
            final(self).stats.packets_sent == (if old(self).stats.packets_sent == u64::MAX {
                old(self).stats.packets_sent as int
            } else {
                old(self).stats.packets_sent + 1
            }),
            final(self).stats.bytes_sent == (if bytes as u64 > u64::MAX
                - old(self).stats.bytes_sent {
                u64::MAX as int
            } else {
                old(self).stats.bytes_sent + bytes as u64
            }),
    {
        self.bandwidth_up.record(bytes, now_ms);
        self.last_packet_send_time_ms = now_ms;
        self.local_sequence = if self.local_sequence == 0xFFFF {
            0
        } else {
            self.local_sequence + 1
        };
        self.stats.packets_sent = if self.stats.packets_sent == u64::MAX {
            self.stats.packets_sent
        } else {
            self.stats.packets_sent + 1
        };
        self.stats.bytes_sent = if (bytes as u64) > u64::MAX - self.stats.bytes_sent {
            u64::MAX
        } else {
            self.stats.bytes_sent + bytes as u64
        };
    }

    /// A snapshot of the connection statistics.
    pub fn stats(&self) -> (r: &NetworkStats)
        ensures
            *r == self.stats,
    {
        &self.stats
    }
}

} // verus!
