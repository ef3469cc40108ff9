//! Server-side connection handling: the handshake table, per-peer
//! connections, and per-tick processing.
//!
//! Peers are identified by opaque 64-bit ids assigned by the socket driver;
//! the core never touches the network itself. Replies it decides on are
//! returned as `(peer, packet)` pairs for the driver to send.
use vstd::prelude::*;
use crate::assoc::{assoc_find64, assoc_has, assoc_lookup, assoc_unique, lemma_lookup_push,
    lemma_lookup_remove};
use crate::config::{ConfigError, NetworkConfig, spec_validate};
use crate::connection::{Connection, ConnectionState, DisconnectReason, DENY_REASON_INVALID_CHALLENGE,
    DENY_REASON_SERVER_FULL, DISCONNECT_REASON_REQUESTED};
use crate::packet::{Packet, PacketHeader, PacketType, spec_deserialize,
    spec_serialize};
use crate::security::{append_crc32, crc_valid, validate_and_strip_crc32,
    ConnectionRateLimiter, fresh_requests, requests_of};

verus! {

/// Relies on rand::random: a value drawn from the thread-local generator.
/// Nothing can be promised of a random value.
pub assume_specification<T>[ rand::random::<T> ]() -> (r: T)
    where
        rand::distributions::Standard: rand::distributions::Distribution<T>,
;

/// Events the server reports to its driver, per peer id.
#[derive(Debug)]
pub enum ServerEvent {
    ClientConnected(u64),
    ClientDisconnected(u64, DisconnectReason),
    Message { peer: u64, channel: u8, data: Vec<u8> },
}

/// A half-open handshake: the challenge salt sent to a peer, and when.
#[derive(Debug, Clone, Copy, PartialEq, Eq, Structural)]
pub struct PendingConnection {
    pub server_salt: u64,
    pub created_at_ms: u64,
}

/// Serializes a packet and appends its checksum: a complete outgoing
/// datagram.
pub fn encode_datagram(packet: &Packet) -> (r: Vec<u8>)
    ensures
        crc_valid(r@),
        r@.take(r@.len() - 4) == spec_serialize(*packet),
{
    match packet.serialize() {
        Ok(mut data) => {
            append_crc32(&mut data);
            proof {
                assert(data@.take(data@.len() - 4) =~= spec_serialize(*packet));
            }
            data
        },
        Err(_) => {
            proof {
                assert(false);
            }
            Vec::new()
        },
    }
}

/// What decoding an incoming datagram yields: the packet exactly when the
/// checksum holds, it deserializes, and the protocol id matches.
pub open spec fn spec_decode_datagram(data: Seq<u8>, protocol_id: u32) -> Option<
    (PacketHeader, PacketType, Seq<u8>),
> {
    if !crc_valid(data) {
        None
    } else {
        match spec_deserialize(data.take(data.len() - 4)) {
            None => None,
            Some((h, t, p)) => if h.protocol_id == protocol_id {
                Some((h, t, p))
            } else {
                None
            },
        }
    }
}

/// Validates the checksum, deserializes, and checks the protocol id. Total
/// on any byte string; anything malformed yields `None`.
pub fn decode_datagram(data: &[u8], protocol_id: u32) -> (r: Option<Packet>)
    ensures
        match r {
            Some(p) => spec_decode_datagram(data@, protocol_id) == Some(
                (p.header, p.packet_type, p.payload@),
            ),
            None => spec_decode_datagram(data@, protocol_id) is None,
        },
{
    match validate_and_strip_crc32(data) {
        Some(stripped) => {
            match Packet::deserialize(stripped) {
                Ok(p) => {
                    if p.header.protocol_id == protocol_id {
                        Some(p)
                    } else {
                        None
                    }
                },
                Err(_) => None,
            }
        },
        None => None,
    }
}

/// The connection-accepting core of a game server.
pub struct ServerCore {
    pub connections: Vec<(u64, Connection)>,
    pub pending: Vec<(u64, PendingConnection)>,
    pub config: NetworkConfig,
    pub rate_limiter: ConnectionRateLimiter,
}

impl ServerCore {
    pub open spec fn wf(&self) -> bool {
        &&& assoc_unique(self.connections@)
        &&& assoc_unique(self.pending@)
        &&& forall|j: int| 0 <= j < self.connections@.len() ==> (
        #[trigger] self.connections@[j]).1.wf()
        &&& spec_validate(self.config) is Ok
        &&& self.config.default_channel_config.message_buffer_size >= 1
    }

    /// A server core for a validated configuration; a configuration whose
    /// default channel buffers no messages is rejected like a zero packet
    /// buffer.
    pub fn new(config: NetworkConfig) -> (r: Result<ServerCore, ConfigError>)
        ensures
            r matches Ok(core) ==> core.wf() && core.config == config
                && core.connections@.len() == 0 && core.pending@.len() == 0,
            spec_validate(config) is Err ==> r is Err,
    {
        match config.validate() {
            Ok(()) => {
                if config.default_channel_config.message_buffer_size == 0 {
                    return Err(ConfigError::InvalidPacketBufferSize);
                }
                Ok(
                    ServerCore {
                        connections: Vec::new(),
                        pending: Vec::new(),
                        config,
                        rate_limiter: ConnectionRateLimiter::new(config.rate_limit_per_second),
                    },
                )
            },
            Err(e) => Err(e),
        }
    }

    /// Peers currently connected.
    pub fn client_count(&self) -> (r: usize)
        ensures
            r == self.connections@.len(),
    {
        self.connections.len()
    }

    /// Handles one decoded packet from a peer, pushing any events and any
    /// replies to send. The handshake is idempotent: a repeated connection
    /// request from a peer with a pending challenge (inside the rate limit)
    /// re-emits exactly the remembered challenge and changes no handshake
    /// state, and one from an already connected peer re-emits the accept.
    pub fn handle_server_packet(&mut self, peer: u64, packet: Packet, now_ms: u64,
        events: &mut Vec<ServerEvent>, replies: &mut Vec<(u64, PacketType)>)
        requires
            old(self).wf(),
        ensures
            final(self).wf(),
            final(self).config == old(self).config,
            ({
                let allowed = fresh_requests(
                    requests_of(old(self).rate_limiter.requests@, peer),
                    now_ms,
                    old(self).rate_limiter.window_ms,
                ).len() < old(self).rate_limiter.max_requests_per_second;
                &&& ((packet.packet_type == PacketType::ConnectionRequest && allowed
                    && assoc_has(old(self).pending@, peer) && !assoc_has(
                    old(self).connections@,
                    peer,
                )) ==> final(self).pending@ == old(self).pending@ && final(replies)@ == old(replies)@.push(
                    (
                        peer,
                        PacketType::ConnectionChallenge {
                            server_salt: assoc_lookup(
                                old(self).pending@,
                                peer,
                            ).unwrap().server_salt,
                        },
                    ),
                ))
                &&& ((packet.packet_type == PacketType::ConnectionRequest && allowed
                    && assoc_has(old(self).connections@, peer)) ==> final(self).pending@ == old(self).pending@ && final(replies)@ == old(replies)@.push(
                    (peer, PacketType::ConnectionAccept),
                ))
                &&& ((packet.packet_type == PacketType::ConnectionRequest && allowed
                    && !assoc_has(old(self).connections@, peer) && !assoc_has(
                    old(self).pending@,
                    peer,
                ) && old(self).pending@.len() < old(self).config.max_pending && old(self).connections@.len() < old(self).config.max_clients) ==> (exists|s: u64|
                    s != 0 && final(replies)@ == old(replies)@.push(
                        (peer, PacketType::ConnectionChallenge { server_salt: s }),
                    ) && final(self).pending@ == old(self).pending@.push(
                        (peer, PendingConnection { server_salt: s, created_at_ms: now_ms }),
                    )) && final(self).connections@ == old(self).connections@)
                &&& ((packet.packet_type == PacketType::ConnectionRequest && allowed
                    && !assoc_has(old(self).connections@, peer) && !assoc_has(
                    old(self).pending@,
                    peer,
                ) && old(self).pending@.len() >= old(self).config.max_pending) ==> final(self).pending@ == old(self).pending@ && final(self).connections@ == old(self).connections@ && final(replies)@ == old(replies)@)
                &&& ((packet.packet_type == PacketType::ConnectionRequest && allowed
                    && !assoc_has(old(self).connections@, peer) && !assoc_has(
                    old(self).pending@,
                    peer,
                ) && old(self).pending@.len() < old(self).config.max_pending && old(self).connections@.len() >= old(self).config.max_clients) ==> final(self).pending@
                    == old(self).pending@ && final(self).connections@ == old(self).connections@
                    && final(replies)@ == old(replies)@.push(
                    (
                        peer,
                        PacketType::ConnectionDeny {
                            reason: crate::connection::DENY_REASON_SERVER_FULL,
                        },
                    ),
                ))
                &&& (packet.packet_type == PacketType::ConnectionRequest && !allowed ==> final(self).pending@ == old(self).pending@ && final(self).connections@ == old(self).connections@ && final(replies)@ == old(replies)@)
                &&& (packet.packet_type == PacketType::ConnectionRequest ==> final(self).connections@ == old(self).connections@ && final(events)@ == old(events)@)
                &&& (match packet.packet_type {
                    PacketType::ConnectionResponse { client_salt } => {
                        &&& (assoc_has(old(self).connections@, peer) ==> final(replies)@ == old(replies)@.push((peer, PacketType::ConnectionAccept)) && final(self).pending@
                            == old(self).pending@ && final(self).connections@ == old(self).connections@ && final(events)@ == old(events)@)
                        &&& ((!assoc_has(old(self).connections@, peer) && assoc_has(
                            old(self).pending@,
                            peer,
                        )) ==> ({
                            let entry = assoc_lookup(old(self).pending@, peer).unwrap();
                            let invalid = client_salt == 0 || client_salt == entry.server_salt;
                            &&& !assoc_has(final(self).pending@, peer)
                            &&& (invalid ==> final(replies)@ == old(replies)@.push(
                                (
                                    peer,
                                    PacketType::ConnectionDeny {
                                        reason: DENY_REASON_INVALID_CHALLENGE,
                                    },
                                ),
                            ) && final(self).connections@ == old(self).connections@ && final(events)@ == old(events)@)
                            &&& (!invalid ==> final(replies)@ == old(replies)@.push(
                                (peer, PacketType::ConnectionAccept),
                            ) && (match assoc_lookup(final(self).connections@, peer) {
                                Some(conn) => conn.state == ConnectionState::Connected,
                                None => false,
                            }) && final(events)@ == old(events)@.push(
                                ServerEvent::ClientConnected(peer),
                            ))
                        }))
                        &&& ((!assoc_has(old(self).connections@, peer) && !assoc_has(
                            old(self).pending@,
                            peer,
                        )) ==> final(self).pending@ == old(self).pending@ && final(self).connections@ == old(self).connections@ && final(replies)@ == old(replies)@ && final(events)@ == old(events)@)
                    },
                    PacketType::Disconnect { reason } => {
                        &&& (assoc_has(old(self).connections@, peer) ==> !assoc_has(
                            final(self).connections@,
                            peer,
                        ) && final(replies)@ == old(replies)@.push(
                            (
                                peer,
                                PacketType::Disconnect { reason: DISCONNECT_REASON_REQUESTED },
                            ),
                        ) && final(events)@ == old(events)@.push(
                            ServerEvent::ClientDisconnected(
                                peer,
                                crate::connection::spec_reason_from_code(reason),
                            ),
                        ))
                        &&& (!assoc_has(old(self).connections@, peer) ==> *final(self) == *old(self) && final(replies)@ == old(replies)@ && final(events)@ == old(events)@)
                    },
                    PacketType::KeepAlive | PacketType::Payload { .. } | PacketType::BatchedPayload {
                        ..
                    } | PacketType::MtuProbe { .. } | PacketType::MtuProbeAck { .. } => {
                        &&& final(self).pending@ == old(self).pending@
                        &&& final(replies)@ == old(replies)@
                        &&& final(events)@ == old(events)@
                        &&& final(self).connections@.len() == old(self).connections@.len()
                        &&& (forall|j: int|
                            0 <= j < old(self).connections@.len() && (
                            #[trigger] old(self).connections@[j]).0 != peer ==> final(self).connections@[j] == old(self).connections@[j])
                        &&& (!assoc_has(old(self).connections@, peer) ==> final(self).connections@ == old(self).connections@)
                        &&& (forall|j: int|
                            0 <= j < old(self).connections@.len() && (
                            #[trigger] old(self).connections@[j]).0 == peer ==> ({
                            let c0 = old(self).connections@[j].1;
                            let c1 = final(self).connections@[j].1;
                            &&& final(self).connections@[j].0 == peer
                            &&& c1.last_packet_recv_time_ms == now_ms
                            &&& c1.state == c0.state
                            &&& (packet.packet_type matches PacketType::MtuProbe { probe_size }
                                ==> c1.send_queue@.len() == c0.send_queue@.len() + 1
                                && c1.send_queue@.last().packet_type == (
                            PacketType::MtuProbeAck { probe_size }))
                        }))
                    },
                    _ => true,
                })
            }),
    {
        match packet.packet_type {
            PacketType::ConnectionRequest => {
                if !self.rate_limiter.allow(peer, now_ms) {
                    return ;
                }
                match assoc_find64(&self.connections, peer) {
                    Some(_) => {
                        replies.push((peer, PacketType::ConnectionAccept));
                        return ;
                    },
                    None => {},
                }
                match assoc_find64(&self.pending, peer) {
                    Some(idx) => {
                        proof {
                            crate::assoc::lemma_lookup_at_index(self.pending@, idx as int);
                        }
                        let server_salt = self.pending[idx].1.server_salt;
                        replies.push((peer, PacketType::ConnectionChallenge { server_salt }));
                        return ;
                    },
                    None => {},
                }
                if self.pending.len() >= self.config.max_pending {
                    return ;
                }
                if self.connections.len() >= self.config.max_clients {
                    replies.push(
                        (peer, PacketType::ConnectionDeny { reason: DENY_REASON_SERVER_FULL }),
                    );
                    return ;
                }
                let raw: u64 = rand::random();
                let server_salt = if raw != 0 {
                    raw
                } else {
                    1
                };
                replies.push((peer, PacketType::ConnectionChallenge { server_salt }));
                proof {
                    lemma_lookup_push(
                        self.pending@,
                        peer,
                        PendingConnection { server_salt, created_at_ms: now_ms },
                    );
                }
                self.pending.push(
                    (peer, PendingConnection { server_salt, created_at_ms: now_ms }),
                );
            },
            PacketType::ConnectionResponse { client_salt } => {
                match assoc_find64(&self.connections, peer) {
                    Some(_) => {
                        replies.push((peer, PacketType::ConnectionAccept));
                        return ;
                    },
                    None => {},
                }
                match assoc_find64(&self.pending, peer) {
                    Some(idx) => {
                        proof {
                            crate::assoc::lemma_lookup_at_index(self.pending@, idx as int);
                            lemma_lookup_remove(self.pending@, idx as int);
                            assert(self.pending@[idx as int].0 == peer);
                        }
                        let entry = self.pending.remove(idx);
                        if client_salt == 0 || client_salt == entry.1.server_salt {
                            replies.push(
                                (
                                    peer,
                                    PacketType::ConnectionDeny {
                                        reason: DENY_REASON_INVALID_CHALLENGE,
                                    },
                                ),
                            );
                            return ;
                        }
                        replies.push((peer, PacketType::ConnectionAccept));
                        let mut conn = Connection::new(self.config, now_ms);
                        conn.set_state(ConnectionState::Connected);
                        conn.touch_recv_time(now_ms);
                        proof {
                            crate::assoc::lemma_lookup_some_iff_has(self.connections@, peer);
                            lemma_lookup_push(self.connections@, peer, conn);
                        }
                        let ghost pre = self.connections@;
                        self.connections.push((peer, conn));
                        proof {
                            crate::assoc::lemma_lookup_some_iff_has(self.connections@, peer);
                            assert forall|j: int|
                                0 <= j < self.connections@.len() implies (
                            #[trigger] self.connections@[j]).1.wf() by {
                                if j < pre.len() {
                                    assert(self.connections@[j] == pre[j]);
                                }
                            }
                        }
                        events.push(ServerEvent::ClientConnected(peer));
                    },
                    None => {},
                }
            },
            PacketType::Disconnect { reason } => {
                match assoc_find64(&self.connections, peer) {
                    Some(idx) => {
                        proof {
                            lemma_lookup_remove(self.connections@, idx as int);
                        }
                        let ghost pre = self.connections@;
                        let _ = self.connections.remove(idx);
                        proof {
                            assert forall|j: int|
                                0 <= j < self.connections@.len() implies (
                            #[trigger] self.connections@[j]).1.wf() by {
                                if j < idx {
                                    assert(self.connections@[j] == pre[j]);
                                } else {
                                    assert(self.connections@[j] == pre[j + 1]);
                                }
                            }
                        }
                        replies.push(
                            (
                                peer,
                                PacketType::Disconnect { reason: DISCONNECT_REASON_REQUESTED },
                            ),
                        );
                        events.push(
                            ServerEvent::ClientDisconnected(
                                peer,
                                DisconnectReason::from_code(reason),
                            ),
                        );
                    },
                    None => {},
                }
            },
            _ => {
                match assoc_find64(&self.connections, peer) {
                    Some(idx) => {
                        let ghost pre = self.connections@;
                        let mut entry = (peer, Connection::new(self.config, now_ms));
                        core::mem::swap(&mut entry, &mut self.connections[idx]);
                        let mut conn = entry.1;
                        let _ = conn.handle_packet(packet, now_ms, 0);
                        self.connections[idx] = (peer, conn);
                        proof {
                            assert(pre[idx as int].0 == peer);
                            assert forall|j: int|
                                0 <= j < self.connections@.len() implies (
                            #[trigger] self.connections@[j]).1.wf() by {
                                if j != idx {
                                    assert(self.connections@[j] == pre[j]);
                                }
                            }
                            assert(assoc_unique(self.connections@)) by {
                                assert(forall|a: int|
                                    0 <= a < self.connections@.len() ==> (
                                    #[trigger] self.connections@[a]).0 == pre[a].0);
                            }
                            assert forall|j: int|
                                0 <= j < pre.len() && (#[trigger] pre[j]).0 == peer implies j
                                == idx as int by {
                                assert(assoc_unique(pre));
                            }
                        }
                    },
                    None => {},
                }
            },
        }
    }

    /// Advances every connection by one tick: runs its timers and
    /// retransmissions, encodes everything it wants sent, reports delivered
    /// messages, drops timed-out peers, and expires stale handshakes.
    /// Returns the datagrams to put on the wire.
    pub fn update(&mut self, now_ms: u64, events: &mut Vec<ServerEvent>) -> (out: Vec<
        (u64, Vec<u8>),
    >)
        requires
            old(self).wf(),
        ensures
            final(self).wf(),
            final(self).config == old(self).config,
            forall|j: int| 0 <= j < final(self).pending@.len() ==> !(now_ms >= (#[trigger] final(self).pending@[j]).1.created_at_ms && now_ms - final(self).pending@[j].1.created_at_ms
                > old(self).config.connection_request_timeout_ms),
            forall|p: u64| assoc_has(final(self).connections@, p) ==> assoc_has(
                old(self).connections@,
                p,
            ),
            forall|j: int| 0 <= j < final(self).connections@.len() ==> (#[trigger] final(self).connections@[j]).1.send_queue@.len() == 0,
            forall|j: int| 0 <= j < final(self).connections@.len() ==> all_receive_buffers_empty(
                (#[trigger] final(self).connections@[j]).1,
            ),
            forall|oi: int| 0 <= oi < out@.len() ==> crate::security::crc_valid(
                (#[trigger] out@[oi]).1@,
            ) && assoc_has(old(self).connections@, out@[oi].0),
            old(events)@.is_prefix_of(final(events)@),
            forall|j: int|
                0 <= j < old(self).connections@.len() && spec_recv_timed_out(
                    (#[trigger] old(self).connections@[j]).1,
                    now_ms,
                ) ==> !assoc_has(final(self).connections@, old(self).connections@[j].0) && final(events)@.contains(
                    ServerEvent::ClientDisconnected(
                        old(self).connections@[j].0,
                        DisconnectReason::Timeout,
                    ),
                ),
            final(self).rate_limiter.requests@ == crate::security::retain_active(
                old(self).rate_limiter.requests@,
                now_ms,
                old(self).rate_limiter.window_ms,
            ),
            final(self).rate_limiter.max_requests_per_second == old(self).rate_limiter.max_requests_per_second,
            final(self).rate_limiter.window_ms == old(self).rate_limiter.window_ms,
    {
        self.rate_limiter.cleanup(now_ms);
        let ghost rl1 = self.rate_limiter;
        let mut out: Vec<(u64, Vec<u8>)> = Vec::new();
        let mut timed_out: Vec<u64> = Vec::new();
        let mut i: usize = 0;
        while i < self.connections.len()
            invariant
                self.wf(),
                self.config == old(self).config,
                i <= self.connections@.len(),
                self.connections@.len() == old(self).connections@.len(),
                forall|j: int| 0 <= j < self.connections@.len() ==> (
                #[trigger] self.connections@[j]).0 == old(self).connections@[j].0,
                forall|j: int| i <= j < self.connections@.len() ==> (
                #[trigger] self.connections@[j]) == old(self).connections@[j],
                self.rate_limiter == rl1,
                forall|j: int|
                    0 <= j < i && spec_recv_timed_out(
                        (#[trigger] old(self).connections@[j]).1,
                        now_ms,
                    ) ==> timed_out@.contains(old(self).connections@[j].0),
                forall|t2: int|
                    0 <= t2 < timed_out@.len() ==> events@.contains(
                        ServerEvent::ClientDisconnected(
                            #[trigger] timed_out@[t2],
                            DisconnectReason::Timeout,
                        ),
                    ),
                forall|j: int| 0 <= j < i ==> (#[trigger] self.connections@[j]).1.send_queue@.len()
                    == 0,
                forall|j: int| 0 <= j < i ==> (all_receive_buffers_empty(
                    (#[trigger] self.connections@[j]).1,
                ) || timed_out@.contains(self.connections@[j].0)),
                forall|oi: int| 0 <= oi < out@.len() ==> crate::security::crc_valid(
                    (#[trigger] out@[oi]).1@,
                ) && assoc_has(old(self).connections@, out@[oi].0),
                old(events)@.is_prefix_of(events@),
                self.pending@ == old(self).pending@,
            decreases self.connections@.len() - i,
        {
            let ghost pre = self.connections@;
            let ghost pre_timed_out = timed_out@;
            let peer = self.connections[i].0;
            let mut entry = (peer, Connection::new(self.config, now_ms));
            core::mem::swap(&mut entry, &mut self.connections[i]);
            let mut conn = entry.1;
            let ghost ev0 = events@;
            match conn.update_tick(now_ms) {
                Err(_) => {
                    let _ = conn.drain_send_queue();
                    timed_out.push(peer);
                    proof {
                        assert(timed_out@[timed_out@.len() - 1] == peer);
                        assert(timed_out@.contains(peer));
                    }
                    events.push(
                        ServerEvent::ClientDisconnected(peer, DisconnectReason::Timeout),
                    );
                },
                Ok(()) => {
                    let mut packets = conn.drain_send_queue();
                    let mut p: usize = 0;
                    while p < packets.len()
                        invariant
                            p <= packets@.len(),
                            conn.wf(),
                            conn.send_queue@.len() == 0,
                            peer == old(self).connections@[i as int].0,
                            i < old(self).connections@.len(),
                            forall|oi: int| 0 <= oi < out@.len() ==> crate::security::crc_valid(
                                (#[trigger] out@[oi]).1@,
                            ) && assoc_has(old(self).connections@, out@[oi].0),
                            old(events)@.is_prefix_of(events@),
                            ev0.is_prefix_of(events@),
                        decreases packets@.len() - p,
                    {
                        let datagram = encode_datagram(&packets[p]);
                        let len = datagram.len();
                        conn.record_bytes_sent(len, now_ms);
                        out.push((peer, datagram));
                        proof {
                            assert(old(self).connections@[i as int].0 == peer);
                            assert(assoc_has(old(self).connections@, peer));
                            assert(old(events)@.is_prefix_of(events@));
                        }
                        p += 1;
                    }
                    let mut ch: u8 = 0;
                    let nch = conn.channel_count();
                    while (ch as usize) < nch
                        invariant
                            ch as usize <= nch,
                            conn.wf(),
                            conn.send_queue@.len() == 0,
                            nch == conn.channels@.len(),
                            old(events)@.is_prefix_of(events@),
                            ev0.is_prefix_of(events@),
                            forall|c2: int| 0 <= c2 < ch as int ==> (
                            #[trigger] conn.channels@[c2]).receive_buffer@.len() == 0,
                        decreases nch - ch as usize,
                    {
                        loop
                            invariant
                                conn.wf(),
                                conn.send_queue@.len() == 0,
                                nch == conn.channels@.len(),
                                (ch as usize) < nch,
                                old(events)@.is_prefix_of(events@),
                                ev0.is_prefix_of(events@),
                                forall|c2: int| 0 <= c2 < ch as int ==> (
                                #[trigger] conn.channels@[c2]).receive_buffer@.len() == 0,
                            ensures
                                conn.channels@[ch as int].receive_buffer@.len() == 0,
                            decreases channel_receive_len(conn, ch as int),
                        {
                            match conn.receive(ch) {
                                Some(data) => {
                                    events.push(
                                        ServerEvent::Message { peer, channel: ch, data },
                                    );
                                },
                                None => {
                                    break ;
                                },
                            }
                        }
                        ch = ch + 1;
                    }
                    proof {
                        assert(all_receive_buffers_empty(conn));
                    }
                },
            }
            self.connections[i] = (peer, conn);
            proof {
                assert(pre[i as int].0 == peer);
                assert forall|j: int| 0 <= j < self.connections@.len() implies (
                #[trigger] self.connections@[j]).1.wf() by {
                    if j != i {
                        assert(self.connections@[j] == pre[j]);
                    }
                }
                assert(assoc_unique(self.connections@)) by {
                    assert(forall|a: int|
                        0 <= a < self.connections@.len() ==> (
                        #[trigger] self.connections@[a]).0 == pre[a].0);
                }
                assert forall|j: int| 0 <= j < i + 1 implies (
                #[trigger] self.connections@[j]).1.send_queue@.len() == 0 by {
                    if j != i {
                        assert(self.connections@[j] == pre[j]);
                    }
                }
                assert forall|j: int| 0 <= j < i + 1 implies (all_receive_buffers_empty(
                    (#[trigger] self.connections@[j]).1,
                ) || timed_out@.contains(self.connections@[j].0)) by {
                    if j != i {
                        assert(self.connections@[j] == pre[j]);
                        if pre_timed_out.contains(pre[j].0) {
                            let t2 = choose|t2: int|
                                0 <= t2 < pre_timed_out.len() && pre_timed_out[t2] == pre[j].0;
                            assert(timed_out@[t2] == pre[j].0);
                        }
                    }
                }
                assert forall|t2: int| 0 <= t2 < timed_out@.len() implies events@.contains(
                    ServerEvent::ClientDisconnected(
                        #[trigger] timed_out@[t2],
                        DisconnectReason::Timeout,
                    ),
                ) by {
                    let ev = ServerEvent::ClientDisconnected(
                        timed_out@[t2],
                        DisconnectReason::Timeout,
                    );
                    assert(ev0.is_prefix_of(events@)) by {
                        assert(events@.subrange(0, ev0.len() as int) =~= ev0);
                    }
                    if t2 < pre_timed_out.len() {
                        assert(timed_out@[t2] == pre_timed_out[t2]);
                        assert(ev0.contains(ev));
                        let e = choose|e: int| 0 <= e < ev0.len() && ev0[e] == ev;
                        assert(events@[e] == ev);
                    } else {
                        assert(events@[events@.len() - 1] == ev);
                    }
                }
                assert forall|j: int|
                    0 <= j < i + 1 && spec_recv_timed_out(
                        (#[trigger] old(self).connections@[j]).1,
                        now_ms,
                    ) implies timed_out@.contains(old(self).connections@[j].0) by {
                    if j < i {
                        let p = old(self).connections@[j].0;
                        let t2 = choose|t2: int|
                            0 <= t2 < pre_timed_out.len() && pre_timed_out[t2] == p;
                        assert(timed_out@[t2] == p);
                    }
                }
            }
            i += 1;
        }
        proof {
            assert forall|pk: u64| assoc_has(self.connections@, pk) implies assoc_has(
                old(self).connections@,
                pk,
            ) by {
                let j = choose|j: int|
                    0 <= j < self.connections@.len() && (#[trigger] self.connections@[j]).0
                        == pk;
                assert(old(self).connections@[j].0 == pk);
            }
        }
        let mut t: usize = 0;
        while t < timed_out.len()
            invariant
                self.wf(),
                self.config == old(self).config,
                t <= timed_out@.len(),
                forall|pk: u64| assoc_has(self.connections@, pk) ==> assoc_has(
                    old(self).connections@,
                    pk,
                ),
                forall|j: int| 0 <= j < self.connections@.len() ==> (
                #[trigger] self.connections@[j]).1.send_queue@.len() == 0,
                forall|j: int| 0 <= j < self.connections@.len() ==> (all_receive_buffers_empty(
                    (#[trigger] self.connections@[j]).1,
                ) || timed_out@.contains(self.connections@[j].0)),
                forall|t2: int| 0 <= t2 < t ==> !assoc_has(
                    self.connections@,
                    #[trigger] timed_out@[t2],
                ),
                old(events)@.is_prefix_of(events@),
                self.pending@ == old(self).pending@,
                self.rate_limiter == rl1,
            decreases timed_out@.len() - t,
        {
            let peer = timed_out[t];
            match assoc_find64(&self.connections, peer) {
                Some(idx) => {
                    proof {
                        lemma_lookup_remove(self.connections@, idx as int);
                    }
                    let ghost pre = self.connections@;
                    let _ = self.connections.remove(idx);
                    proof {
                        assert forall|j: int| 0 <= j < self.connections@.len() implies (
                        #[trigger] self.connections@[j]).1.wf() && (
                        #[trigger] self.connections@[j]).1.send_queue@.len() == 0 by {
                            if j < idx {
                                assert(self.connections@[j] == pre[j]);
                            } else {
                                assert(self.connections@[j] == pre[j + 1]);
                            }
                        }
                        assert forall|pk: u64|
                            assoc_has(self.connections@, pk) implies assoc_has(
                            old(self).connections@,
                            pk,
                        ) by {
                            let j = choose|j: int|
                                0 <= j < self.connections@.len() && (
                                #[trigger] self.connections@[j]).0 == pk;
                            if j < idx {
                                assert(pre[j].0 == pk);
                            } else {
                                assert(pre[j + 1].0 == pk);
                            }
                            assert(assoc_has(pre, pk));
                        }
                        assert forall|j: int|
                            0 <= j < self.connections@.len() implies (all_receive_buffers_empty(
                            (#[trigger] self.connections@[j]).1,
                        ) || timed_out@.contains(self.connections@[j].0)) by {
                            if j < idx {
                                assert(self.connections@[j] == pre[j]);
                            } else {
                                assert(self.connections@[j] == pre[j + 1]);
                            }
                        }
                        assert forall|t2: int| 0 <= t2 < t + 1 implies !assoc_has(
                            self.connections@,
                            #[trigger] timed_out@[t2],
                        ) by {
                            crate::assoc::lemma_lookup_some_iff_has(
                                self.connections@,
                                timed_out@[t2],
                            );
                            crate::assoc::lemma_lookup_some_iff_has(pre, timed_out@[t2]);
                        }
                    }
                },
                None => {
                    proof {
                        assert forall|t2: int| 0 <= t2 < t + 1 implies !assoc_has(
                            self.connections@,
                            #[trigger] timed_out@[t2],
                        ) by {
                        }
                    }
                },
            }
            t += 1;
        }
        proof {
            assert forall|j: int|
                0 <= j < self.connections@.len() implies all_receive_buffers_empty(
                (#[trigger] self.connections@[j]).1,
            ) by {
                if timed_out@.contains(self.connections@[j].0) {
                    let t2 = choose|t2: int|
                        0 <= t2 < timed_out@.len() && timed_out@[t2]
                            == self.connections@[j].0;
                    assert(!assoc_has(self.connections@, timed_out@[t2]));
                    assert(assoc_has(self.connections@, self.connections@[j].0));
                }
            }
        }
        let mut q: usize = 0;
        while q < self.pending.len()
            invariant
                self.wf(),
                self.config == old(self).config,
                q <= self.pending@.len(),
                forall|j: int| 0 <= j < q ==> !(now_ms >= (
                #[trigger] self.pending@[j]).1.created_at_ms && now_ms
                    - self.pending@[j].1.created_at_ms
                    > old(self).config.connection_request_timeout_ms),
                forall|pk: u64| assoc_has(self.connections@, pk) ==> assoc_has(
                    old(self).connections@,
                    pk,
                ),
                forall|j: int| 0 <= j < self.connections@.len() ==> (
                #[trigger] self.connections@[j]).1.send_queue@.len() == 0,
                forall|j: int| 0 <= j < self.connections@.len() ==> all_receive_buffers_empty(
                    (#[trigger] self.connections@[j]).1,
                ),
                forall|t2: int| 0 <= t2 < timed_out@.len() ==> !assoc_has(
                    self.connections@,
                    #[trigger] timed_out@[t2],
                ),
                old(events)@.is_prefix_of(events@),
                self.rate_limiter == rl1,
            decreases self.pending@.len() - q,
        {
            let e = self.pending[q];
            if now_ms >= e.1.created_at_ms && now_ms - e.1.created_at_ms
                > self.config.connection_request_timeout_ms {
                proof {
                    lemma_lookup_remove(self.pending@, q as int);
                }
                let ghost pre_pending = self.pending@;
                let _ = self.pending.remove(q);
                proof {
                    assert forall|j: int| 0 <= j < q implies !(now_ms >= (
                    #[trigger] self.pending@[j]).1.created_at_ms && now_ms
                        - self.pending@[j].1.created_at_ms
                        > old(self).config.connection_request_timeout_ms) by {
                        assert(self.pending@[j] == pre_pending[j]);
                    }
                }
            } else {
                q += 1;
            }
        }
        proof {
            assert forall|j: int|
                0 <= j < old(self).connections@.len() && spec_recv_timed_out(
                    (#[trigger] old(self).connections@[j]).1,
                    now_ms,
                ) implies !assoc_has(self.connections@, old(self).connections@[j].0)
                && events@.contains(
                ServerEvent::ClientDisconnected(
                    old(self).connections@[j].0,
                    DisconnectReason::Timeout,
                ),
            ) by {
                let p = old(self).connections@[j].0;
                assert(timed_out@.contains(p));
                let t2 = choose|t2: int| 0 <= t2 < timed_out@.len() && timed_out@[t2] == p;
                assert(!assoc_has(self.connections@, timed_out@[t2]));
                assert(events@.contains(
                    ServerEvent::ClientDisconnected(timed_out@[t2], DisconnectReason::Timeout),
                ));
            }
        }
        out
    }

    /// Queues a message to a connected peer on the given channel; reliable
    /// by default.
    pub fn send(&mut self, peer: u64, channel: u8, data: &[u8]) -> (r: Result<
        (),
        crate::connection::ConnectionError,
    >)
        requires
            old(self).wf(),
        ensures
            final(self).wf(),
            final(self).config == old(self).config,
            !assoc_has(old(self).connections@, peer) ==> r == Err::<
                (),
                crate::connection::ConnectionError,
            >(crate::connection::ConnectionError::NotConnected),
            (match assoc_lookup(old(self).connections@, peer) {
                Some(conn) => {
                    let in_range = conn.state == ConnectionState::Connected && (channel as int)
                        < conn.channels@.len();
                    let ch_config = conn.channels@[channel as int].config;
                    let was_full = conn.channels@[channel as int].send_buffer@.len()
                        >= ch_config.message_buffer_size;
                    &&& (conn.state != ConnectionState::Connected ==> r == Err::<
                        (),
                        crate::connection::ConnectionError,
                    >(crate::connection::ConnectionError::NotConnected))
                    &&& (in_range ==> (r is Ok <==> (data@.len() <= ch_config.max_message_size
                        && !(was_full && ch_config.block_on_full))))
                },
                None => true,
            }),
            *final(self) == (ServerCore { connections: final(self).connections, ..*old(self) }),
            final(self).connections@.len() == old(self).connections@.len(),
            forall|j: int|
                0 <= j < old(self).connections@.len() && (#[trigger] old(self).connections@[j]).0
                    != peer ==> final(self).connections@[j] == old(self).connections@[j],
            forall|j: int|
                0 <= j < old(self).connections@.len() && (#[trigger] old(self).connections@[j]).0
                    == peer ==> final(self).connections@[j].0 == peer && (r is Ok ==> (
                channel as int) < final(self).connections@[j].1.channels@.len() && final(self).connections@[j].1.channels@[channel as int].send_buffer@.last().1@ == data@ && final(self).connections@[j].1.channels@[channel as int].send_buffer@.last().2),
    {
        self.send_with_reliability(peer, channel, data, true)
    }

    /// Queues a message to a connected peer with an explicit per-message
    /// reliability choice.
    pub fn send_with_reliability(&mut self, peer: u64, channel: u8, data: &[u8],
        reliable: bool) -> (r: Result<(), crate::connection::ConnectionError>)
        requires
            old(self).wf(),
        ensures
            final(self).wf(),
            final(self).config == old(self).config,
            !assoc_has(old(self).connections@, peer) ==> r == Err::<
                (),
                crate::connection::ConnectionError,
            >(crate::connection::ConnectionError::NotConnected),
            (match assoc_lookup(old(self).connections@, peer) {
                Some(conn) => {
                    let in_range = conn.state == ConnectionState::Connected && (channel as int)
                        < conn.channels@.len();
                    let ch_config = conn.channels@[channel as int].config;
                    let was_full = conn.channels@[channel as int].send_buffer@.len()
                        >= ch_config.message_buffer_size;
                    &&& (conn.state != ConnectionState::Connected ==> r == Err::<
                        (),
                        crate::connection::ConnectionError,
                    >(crate::connection::ConnectionError::NotConnected))
                    &&& (conn.state == ConnectionState::Connected && (channel as int)
                        >= conn.channels@.len() ==> r == Err::<
                        (),
                        crate::connection::ConnectionError,
                    >(crate::connection::ConnectionError::InvalidPacket))
                    &&& (in_range ==> (r is Ok <==> (data@.len() <= ch_config.max_message_size
                        && !(was_full && ch_config.block_on_full))))
                },
                None => true,
            }),
            *final(self) == (ServerCore { connections: final(self).connections, ..*old(self) }),
            final(self).connections@.len() == old(self).connections@.len(),
            forall|j: int|
                0 <= j < old(self).connections@.len() && (#[trigger] old(self).connections@[j]).0
                    != peer ==> final(self).connections@[j] == old(self).connections@[j],
            forall|j: int|
                0 <= j < old(self).connections@.len() && (#[trigger] old(self).connections@[j]).0
                    == peer ==> final(self).connections@[j].0 == peer && (r is Ok ==> (
                channel as int) < final(self).connections@[j].1.channels@.len() && final(self).connections@[j].1.channels@[channel as int].send_buffer@.last().1@ == data@ && final(self).connections@[j].1.channels@[channel as int].send_buffer@.last().2 == reliable),
    {
        match assoc_find64(&self.connections, peer) {
            Some(idx) => {
                proof {
                    crate::assoc::lemma_lookup_at_index(self.connections@, idx as int);
                }
                let ghost pre = self.connections@;
                let mut entry = (peer, Connection::new(self.config, 0));
                core::mem::swap(&mut entry, &mut self.connections[idx]);
                let mut conn = entry.1;
                let r = conn.send(channel, data, reliable);
                self.connections[idx] = (peer, conn);
                proof {
                    assert(pre[idx as int].0 == peer);
                    assert forall|j: int| 0 <= j < self.connections@.len() implies (
                    #[trigger] self.connections@[j]).1.wf() by {
                        if j != idx {
                            assert(self.connections@[j] == pre[j]);
                        }
                    }
                    assert(assoc_unique(self.connections@)) by {
                        assert(forall|a: int|
                            0 <= a < self.connections@.len() ==> (
                            #[trigger] self.connections@[a]).0 == pre[a].0);
                    }
                    assert forall|j: int|
                        0 <= j < pre.len() && (#[trigger] pre[j]).0 == peer implies j
                        == idx as int by {
                        assert(assoc_unique(pre));
                    }
                }
                r
            },
            None => {
                proof {
                    crate::assoc::lemma_lookup_some_iff_has(self.connections@, peer);
                }
                Err(crate::connection::ConnectionError::NotConnected)
            },
        }
    }

    /// Queues a message to every connected peer but the excluded one: each
    /// eligible peer's channel holds the message at the back of its send
    /// buffer afterwards.
    pub fn broadcast(&mut self, channel: u8, data: &[u8], except: Option<u64>)
        requires
            old(self).wf(),
        ensures
            final(self).wf(),
            final(self).config == old(self).config,
            *final(self) == (ServerCore { connections: final(self).connections, ..*old(self) }),
            final(self).connections@.len() == old(self).connections@.len(),
            forall|j: int|
                0 <= j < old(self).connections@.len() ==> (#[trigger] final(self).connections@[j]).0 == old(self).connections@[j].0 && ({
                    let c0 = old(self).connections@[j].1;
                    let skip_peer = match except {
                        Some(x) => x == old(self).connections@[j].0,
                        None => false,
                    };
                    let in_range = c0.state == ConnectionState::Connected && (channel as int)
                        < c0.channels@.len();
                    let ch_config = c0.channels@[channel as int].config;
                    let was_full = c0.channels@[channel as int].send_buffer@.len()
                        >= ch_config.message_buffer_size;
                    (!skip_peer && in_range && data@.len() <= ch_config.max_message_size && !(
                    was_full && ch_config.block_on_full)) ==> (channel as int) < final(self).connections@[j].1.channels@.len() && final(self).connections@[j].1.channels@[
                        channel as int].send_buffer@.last().1@ == data@ && final(self).connections@[j].1.channels@[channel as int].send_buffer@.last().2
                }),
    {
        let mut peers: Vec<u64> = Vec::new();
        let mut i: usize = 0;
        while i < self.connections.len()
            invariant
                self.wf(),
                i <= self.connections@.len(),
                *self == *old(self),
                peers@.len() == i,
                forall|t: int| 0 <= t < i ==> peers@[t] == old(self).connections@[t].0,
            decreases self.connections@.len() - i,
        {
            peers.push(self.connections[i].0);
            i += 1;
        }
        let mut p: usize = 0;
        while p < peers.len()
            invariant
                self.wf(),
                self.config == old(self).config,
                p <= peers@.len(),
                peers@.len() == old(self).connections@.len(),
                self.connections@.len() == old(self).connections@.len(),
                assoc_unique(old(self).connections@),
                forall|t: int| 0 <= t < peers@.len() ==> peers@[t] == old(self).connections@[t].0,
                *self == (ServerCore { connections: self.connections, ..*old(self) }),
                forall|j: int| p <= j < self.connections@.len() ==> (
                #[trigger] self.connections@[j]) == old(self).connections@[j],
                forall|j: int|
                    0 <= j < p ==> (#[trigger] self.connections@[j]).0 == old(self).connections@[j].0 && ({
                        let c0 = old(self).connections@[j].1;
                        let skip_peer = match except {
                            Some(x) => x == old(self).connections@[j].0,
                            None => false,
                        };
                        let in_range = c0.state == ConnectionState::Connected && (channel as int)
                            < c0.channels@.len();
                        let ch_config = c0.channels@[channel as int].config;
                        let was_full = c0.channels@[channel as int].send_buffer@.len()
                            >= ch_config.message_buffer_size;
                        (!skip_peer && in_range && data@.len() <= ch_config.max_message_size && !(
                        was_full && ch_config.block_on_full)) ==> (channel as int)
                            < self.connections@[j].1.channels@.len() && self.connections@[j].1.channels@[channel as int].send_buffer@.last().1@ == data@ && self.connections@[j].1.channels@[channel as int].send_buffer@.last().2
                    }),
            decreases peers@.len() - p,
        {
            let ghost before = self.connections@;
            let peer = peers[p];
            proof {
                assert(before[p as int].0 == peer);
                crate::assoc::lemma_lookup_at_index(before, p as int);
            }
            let skip_peer = match except {
                Some(x) => x == peer,
                None => false,
            };
            if !skip_peer {
                let _ = self.send(peer, channel, data);
            }
            proof {
                assert forall|j: int|
                    p + 1 <= j < self.connections@.len() implies (
                #[trigger] self.connections@[j]) == old(self).connections@[j] by {
                    assert(before[j].0 != peer);
                    assert(self.connections@[j] == before[j]);
                }
                assert forall|j: int| 0 <= j < p implies (#[trigger] self.connections@[j]).0
                    == old(self).connections@[j].0 && self.connections@[j].1.channels@
                    == before[j].1.channels@ by {
                    assert(before[j].0 != peer);
                    assert(self.connections@[j] == before[j]);
                }
            }
            p += 1;
        }
    }

    /// Starts a graceful disconnect of one peer with the given reason code;
    /// the connection keeps resending its disconnect notice from the tick
    /// loop until it gives up.
    pub fn disconnect(&mut self, peer: u64, reason: u8, now_ms: u64)
        requires
            old(self).wf(),
        ensures
            final(self).wf(),
            final(self).config == old(self).config,
            *final(self) == (ServerCore { connections: final(self).connections, ..*old(self) }),
            final(self).connections@.len() == old(self).connections@.len(),
            forall|j: int|
                0 <= j < old(self).connections@.len() && (#[trigger] old(self).connections@[j]).0
                    != peer ==> final(self).connections@[j] == old(self).connections@[j],
            !assoc_has(old(self).connections@, peer) ==> final(self).connections@ == old(self).connections@,
            forall|j: int|
                0 <= j < old(self).connections@.len() && (#[trigger] old(self).connections@[j]).0
                    == peer ==> ({
                    let c0 = old(self).connections@[j].1;
                    let c1 = final(self).connections@[j].1;
                    &&& final(self).connections@[j].0 == peer
                    &&& ((c0.state == ConnectionState::Connected || c0.state
                        == ConnectionState::Connecting) ==> c1.state
                        == ConnectionState::Disconnecting && c1.send_queue@.len()
                        == c0.send_queue@.len() + 1 && c1.send_queue@.last().packet_type == (
                    PacketType::Disconnect { reason }))
                    &&& (!(c0.state == ConnectionState::Connected || c0.state
                        == ConnectionState::Connecting) ==> c1 == c0)
                }),
    {
        match assoc_find64(&self.connections, peer) {
            Some(idx) => {
                let ghost pre = self.connections@;
                let mut entry = (peer, Connection::new(self.config, now_ms));
                core::mem::swap(&mut entry, &mut self.connections[idx]);
                let mut conn = entry.1;
                let _ = conn.disconnect(reason, now_ms);
                self.connections[idx] = (peer, conn);
                proof {
                    assert(pre[idx as int].0 == peer);
                    assert forall|j: int| 0 <= j < self.connections@.len() implies (
                    #[trigger] self.connections@[j]).1.wf() by {
                        if j != idx {
                            assert(self.connections@[j] == pre[j]);
                        }
                    }
                    assert(assoc_unique(self.connections@)) by {
                        assert(forall|a: int|
                            0 <= a < self.connections@.len() ==> (
                            #[trigger] self.connections@[a]).0 == pre[a].0);
                    }
                    assert forall|j: int|
                        0 <= j < pre.len() && (#[trigger] pre[j]).0 == peer implies j
                        == idx as int by {
                        assert(assoc_unique(pre));
                    }
                }
            },
            None => {
                proof {
                    crate::assoc::lemma_lookup_some_iff_has(self.connections@, peer);
                }
            },
        }
    }

    /// Starts a graceful disconnect of every peer: each live connection drops
    /// to `Disconnecting` with its notice queued.
    pub fn shutdown(&mut self, now_ms: u64)
        requires
            old(self).wf(),
        ensures
            final(self).wf(),
            final(self).config == old(self).config,
            *final(self) == (ServerCore { connections: final(self).connections, ..*old(self) }),
            final(self).connections@.len() == old(self).connections@.len(),
            forall|j: int|
                0 <= j < old(self).connections@.len() ==> (#[trigger] final(self).connections@[j]).0 == old(self).connections@[j].0 && ({
                    let c0 = old(self).connections@[j].1;
                    let c1 = final(self).connections@[j].1;
                    &&& ((c0.state == ConnectionState::Connected || c0.state
                        == ConnectionState::Connecting) ==> c1.state
                        == ConnectionState::Disconnecting && c1.send_queue@.len()
                        == c0.send_queue@.len() + 1 && c1.send_queue@.last().packet_type == (
                    PacketType::Disconnect { reason: DISCONNECT_REASON_REQUESTED }))
                    &&& (!(c0.state == ConnectionState::Connected || c0.state
                        == ConnectionState::Connecting) ==> c1 == c0)
                }),
    {
        let mut peers: Vec<u64> = Vec::new();
        let mut i: usize = 0;
        while i < self.connections.len()
            invariant
                self.wf(),
                i <= self.connections@.len(),
                *self == *old(self),
                peers@.len() == i,
                forall|t: int| 0 <= t < i ==> peers@[t] == old(self).connections@[t].0,
            decreases self.connections@.len() - i,
        {
            peers.push(self.connections[i].0);
            i += 1;
        }
        let mut p: usize = 0;
        while p < peers.len()
            invariant
                self.wf(),
                self.config == old(self).config,
                p <= peers@.len(),
                peers@.len() == old(self).connections@.len(),
                self.connections@.len() == old(self).connections@.len(),
                assoc_unique(old(self).connections@),
                forall|t: int| 0 <= t < peers@.len() ==> peers@[t] == old(self).connections@[t].0,
                *self == (ServerCore { connections: self.connections, ..*old(self) }),
                forall|j: int| p <= j < self.connections@.len() ==> (
                #[trigger] self.connections@[j]) == old(self).connections@[j],
                forall|j: int|
                    0 <= j < p ==> (#[trigger] self.connections@[j]).0 == old(self).connections@[j].0 && ({
                        let c0 = old(self).connections@[j].1;
                        let c1 = self.connections@[j].1;
                        &&& ((c0.state == ConnectionState::Connected || c0.state
                            == ConnectionState::Connecting) ==> c1.state
                            == ConnectionState::Disconnecting && c1.send_queue@.len()
                            == c0.send_queue@.len() + 1 && c1.send_queue@.last().packet_type == (
                        PacketType::Disconnect { reason: DISCONNECT_REASON_REQUESTED }))
                        &&& (!(c0.state == ConnectionState::Connected || c0.state
                            == ConnectionState::Connecting) ==> c1 == c0)
                    }),
            decreases peers@.len() - p,
        {
            let ghost before = self.connections@;
            let peer = peers[p];
            proof {
                assert(before[p as int].0 == peer);
            }
            self.disconnect(peer, DISCONNECT_REASON_REQUESTED, now_ms);
            proof {
                assert forall|j: int|
                    0 <= j < p + 1 implies (#[trigger] self.connections@[j]).0 == old(self).connections@[j].0 && ({
                        let c0 = old(self).connections@[j].1;
                        let c1 = self.connections@[j].1;
                        &&& ((c0.state == ConnectionState::Connected || c0.state
                            == ConnectionState::Connecting) ==> c1.state
                            == ConnectionState::Disconnecting && c1.send_queue@.len()
                            == c0.send_queue@.len() + 1 && c1.send_queue@.last().packet_type == (
                        PacketType::Disconnect { reason: DISCONNECT_REASON_REQUESTED }))
                        &&& (!(c0.state == ConnectionState::Connected || c0.state
                            == ConnectionState::Connecting) ==> c1 == c0)
                    }) by {
                    if j < p {
                        assert(before[j].0 != peer);
                        assert(self.connections@[j] == before[j]);
                    } else {
                        assert(before[j] == old(self).connections@[j]);
                        assert(before[j].0 == peer);
                    }
                }
                assert forall|j: int|
                    p + 1 <= j < self.connections@.len() implies (
                #[trigger] self.connections@[j]) == old(self).connections@[j] by {
                    assert(before[j].0 != peer);
                    assert(self.connections@[j] == before[j]);
                }
            }
            p += 1;
        }
    }
}

/// The connection has heard nothing for longer than its configured timeout.
pub open spec fn spec_recv_timed_out(c: Connection, now_ms: u64) -> bool {
    (c.state == ConnectionState::Connecting || c.state == ConnectionState::Connected) && now_ms
        >= c.last_packet_recv_time_ms && now_ms - c.last_packet_recv_time_ms
        > c.config.connection_timeout_ms
}

/// Every channel of the connection has handed out all delivered messages.
pub open spec fn all_receive_buffers_empty(conn: Connection) -> bool {
    forall|c: int| 0 <= c < conn.channels@.len() ==> (
    #[trigger] conn.channels@[c]).receive_buffer@.len() == 0
}

/// Length of one channel's delivered-message queue, used as a loop measure.
pub open spec fn channel_receive_len(conn: Connection, ch: int) -> nat {
    if 0 <= ch < conn.channels@.len() {
        conn.channels@[ch].receive_buffer@.len()
    } else {
        0
    }
}

} // verus!
