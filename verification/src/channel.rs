//! Per-channel delivery-mode state machines.
//!
//! Every channel has its own 16-bit send and receive sequence spaces. On the
//! wire a channel message is a two-byte big-endian channel sequence followed
//! by the message bytes. The five delivery modes differ in deduplication,
//! ordering, and whether messages are tracked for acknowledgment and
//! retransmission.
use vstd::prelude::*;
use crate::assoc::{assoc_find, assoc_has, assoc_lookup, assoc_unique, lemma_lookup_push,
    lemma_lookup_remove, lemma_lookup_update};
use crate::config::{ChannelConfig, DeliveryMode, spec_mode_reliable};
use crate::reliability::SequenceBuffer;
use crate::util::{greater_spec, sequence_greater_than};

verus! {

/// Size of the per-channel dedup window, in sequence slots.
pub const CHANNEL_DEDUP_WINDOW: usize = 1024;

/// Errors `Channel::send` can return.
#[derive(Debug, Clone, PartialEq, Eq, Structural)]
pub enum ChannelError {
    BufferFull,
    MessageTooLarge,
}

/// A reliable message awaiting acknowledgment, kept for retransmission.
#[derive(Debug)]
pub struct PendingMessage {
    pub wire: Vec<u8>,
    pub last_send_ms: u64,
    pub retry_count: u32,
}

/// The wire frame of one channel message.
pub open spec fn channel_frame(sequence: u16, payload: Seq<u8>) -> Seq<u8> {
    seq![(sequence / 256) as u8, (sequence % 256) as u8] + payload
}

/// Parses a channel frame: the sequence and the message bytes.
pub open spec fn parse_channel_frame(data: Seq<u8>) -> Option<(u16, Seq<u8>)> {
    if data.len() < 2 {
        None
    } else {
        Some((((data[0] as int) * 256 + data[1] as int) as u16, data.skip(2)))
    }
}

/// A tracked reliable message whose retransmission timeout has elapsed.
pub open spec fn pending_due(pm: PendingMessage, now_ms: u64, rto_ms: u64) -> bool {
    now_ms >= pm.last_send_ms && now_ms - pm.last_send_ms >= rto_ms
}

/// The item re-frames a tracked message whose timeout has elapsed.
pub open spec fn retransmit_of(
    item: (u16, Vec<u8>),
    pending: Seq<(u16, PendingMessage)>,
    now_ms: u64,
    rto_ms: u64,
) -> bool {
    exists|j: int|
        0 <= j < pending.len() && pending_due((#[trigger] pending[j]).1, now_ms, rto_ms)
            && item.0 == pending[j].0 && item.1@ == pending[j].1.wire@
}

/// The message is one of the held out-of-order entries.
pub open spec fn drawn_from(v: Vec<u8>, entries: Seq<(u16, Vec<u8>)>) -> bool {
    exists|j: int| 0 <= j < entries.len() && v == (#[trigger] entries[j]).1
}

/// The index a left-to-right scan of the first `upto` entries selects: the
/// smallest held sequence as compared circularly, keeping the earlier entry
/// where the circular comparison orders neither way.
pub open spec fn flush_pick(entries: Seq<(u16, Vec<u8>)>, upto: int) -> int
    decreases upto,
{
    if upto <= 1 {
        0
    } else {
        let prev = flush_pick(entries, upto - 1);
        if greater_spec(entries[prev].0, entries[upto - 1].0) {
            upto - 1
        } else {
            prev
        }
    }
}

/// Every held entry's payload, each exactly once, in the order the timeout
/// flush delivers them: repeatedly the entry the scan selects.
pub open spec fn flush_order(entries: Seq<(u16, Vec<u8>)>) -> Seq<Vec<u8>>
    decreases entries.len(),
{
    if entries.len() == 0 {
        Seq::<Vec<u8>>::empty()
    } else {
        let pick = flush_pick(entries, entries.len() as int);
        let p = if 0 <= pick < entries.len() {
            pick
        } else {
            0int
        };
        seq![entries[p].1] + flush_order(entries.remove(p))
    }
}

/// One logical sub-stream with its own delivery mode and sequence space.
pub struct Channel {
    pub id: u8,
    pub config: ChannelConfig,
    pub send_sequence: u16,
    pub send_buffer: Vec<(u16, Vec<u8>, bool)>,
    pub pending_ack: Vec<(u16, PendingMessage)>,
    pub receive_buffer: Vec<Vec<u8>>,
    pub ordered_buffer: Vec<(u16, Vec<u8>)>,
    pub ordered_since_ms: Option<u64>,
    pub next_expected: u16,
    pub last_delivered: u16,
    pub delivered_any: bool,
    pub received_dedup: SequenceBuffer<bool>,
    pub messages_sent: u64,
    pub messages_received: u64,
}

impl Channel {
    pub open spec fn wf(&self) -> bool {
        &&& assoc_unique(self.pending_ack@)
        &&& assoc_unique(self.ordered_buffer@)
        &&& self.received_dedup.wf()
        &&& self.config.message_buffer_size >= 1
        &&& self.send_buffer@.len() <= self.config.message_buffer_size
    }

    /// A fresh channel in the given mode; sequences start at zero.
    pub fn new(id: u8, config: ChannelConfig) -> (r: Channel)
        requires
            config.message_buffer_size >= 1,
        ensures
            r.wf(),
            r.id == id,
            r.config == config,
            r.send_sequence == 0,
            r.send_buffer@.len() == 0,
            r.pending_ack@.len() == 0,
            r.receive_buffer@.len() == 0,
            r.next_expected == 0,
            !r.delivered_any,
    {
        Channel {
            id,
            config,
            send_sequence: 0,
            send_buffer: Vec::new(),
            pending_ack: Vec::new(),
            receive_buffer: Vec::new(),
            ordered_buffer: Vec::new(),
            ordered_since_ms: None,
            next_expected: 0,
            last_delivered: 0,
            delivered_any: false,
            received_dedup: SequenceBuffer::new(CHANNEL_DEDUP_WINDOW),
            messages_sent: 0,
            messages_received: 0,
        }
    }

    /// True for channels whose messages are tracked for acknowledgment by
    /// default.
    pub fn is_reliable(&self) -> (r: bool)
        ensures
            r == spec_mode_reliable(self.config.delivery_mode),
    {
        self.config.is_reliable()
    }

    /// Queues a message. Oversized messages are refused; when the buffer is
    /// full, the channel either refuses (`block_on_full`) or drops its
    /// oldest unsent message to make room. The `reliable` flag chooses, per
    /// message, whether it will be tracked for acknowledgment.
    pub fn send(&mut self, payload: &[u8], reliable: bool) -> (r: Result<(), ChannelError>)
        requires
            old(self).wf(),
        ensures
            final(self).wf(),
            final(self).config == old(self).config,
            payload@.len() > old(self).config.max_message_size <==> r == Err::<
                (),
                ChannelError,
            >(ChannelError::MessageTooLarge),
            (payload@.len() <= old(self).config.max_message_size && old(self).send_buffer@.len() >= old(self).config.message_buffer_size && old(self).config.block_on_full) <==> r == Err::<(), ChannelError>(ChannelError::BufferFull),
            r is Ok ==> final(self).send_buffer@.len() <= old(self).config.message_buffer_size
                && final(self).send_buffer@.last().0 == old(self).send_sequence && final(self).send_buffer@.last().1@ == payload@ && final(self).send_buffer@.last().2 == reliable
                && final(self).send_sequence == (if old(self).send_sequence == 0xFFFF {
                0u16
            } else {
                (old(self).send_sequence + 1) as u16
            }),
            r is Err ==> *final(self) == *old(self),
    {
        if payload.len() > self.config.max_message_size {
            return Err(ChannelError::MessageTooLarge);
        }
        if self.send_buffer.len() >= self.config.message_buffer_size {
            if self.config.block_on_full {
                return Err(ChannelError::BufferFull);
            }
            let _ = self.send_buffer.remove(0);
        }
        let mut data: Vec<u8> = Vec::new();
        let mut i: usize = 0;
        while i < payload.len()
            invariant
                i <= payload@.len(),
                data@ == payload@.take(i as int),
            decreases payload@.len() - i,
        {
            data.push(payload[i]);
            proof {
                assert(payload@.take(i as int).push(payload@[i as int]) =~= payload@.take(
                    i + 1,
                ));
            }
            i += 1;
        }
        proof {
            assert(payload@.take(payload@.len() as int) =~= payload@);
        }
        let seq = self.send_sequence;
        self.send_sequence = if self.send_sequence == 0xFFFF {
            0
        } else {
            self.send_sequence + 1
        };
        self.send_buffer.push((seq, data, reliable));
        self.messages_sent = if self.messages_sent == u64::MAX {
            self.messages_sent
        } else {
            self.messages_sent + 1
        };
        Ok(())
    }

    /// Takes the oldest queued message and frames it for the wire; a message
    /// sent with the reliable flag also enters the pending-ack window at time
    /// `now_ms`.
    pub fn get_outgoing_message(&mut self, now_ms: u64) -> (r: Option<(u16, Vec<u8>)>)
        requires
            old(self).wf(),
        ensures
            final(self).wf(),
            final(self).config == old(self).config,
            r is Some <==> old(self).send_buffer@.len() > 0,
            r matches Some(out) ==> out.0 == old(self).send_buffer@[0].0 && out.1@
                == channel_frame(old(self).send_buffer@[0].0, old(self).send_buffer@[0].1@)
                && final(self).send_buffer@ == old(self).send_buffer@.skip(1) && (if old(self).send_buffer@[0].2 {
                (match assoc_lookup(final(self).pending_ack@, out.0) {
                    Some(pm) => pm.wire@ == out.1@ && pm.last_send_ms == now_ms && pm.retry_count
                        == 0,
                    None => false,
                }) && (forall|k: u16| k != out.0 ==> assoc_lookup(final(self).pending_ack@, k)
                    == assoc_lookup(old(self).pending_ack@, k))
            } else {
                final(self).pending_ack@ == old(self).pending_ack@
            }),
            r matches Some(out) ==> *final(self) == (Channel {
                send_buffer: final(self).send_buffer,
                pending_ack: final(self).pending_ack,
                ..*old(self)
            }),
            r is None ==> *final(self) == *old(self),
    {
        if self.send_buffer.len() == 0 {
            return None;
        }
        let entry = self.send_buffer.remove(0);
        let seq = entry.0;
        let reliable = entry.2;
        let mut wire: Vec<u8> = Vec::new();
        wire.push((seq / 256) as u8);
        wire.push((seq % 256) as u8);
        let mut i: usize = 0;
        let ghost head = wire@;
        while i < entry.1.len()
            invariant
                i <= entry.1@.len(),
                wire@ == head + entry.1@.take(i as int),
            decreases entry.1@.len() - i,
        {
            wire.push(entry.1[i]);
            proof {
                assert(entry.1@.take(i as int).push(entry.1@[i as int]) =~= entry.1@.take(
                    i + 1,
                ));
            }
            i += 1;
        }
        proof {
            assert(entry.1@.take(entry.1@.len() as int) =~= entry.1@);
            assert(wire@ =~= channel_frame(seq, entry.1@));
        }
        if reliable {
            let mut tracked_copy: Vec<u8> = Vec::new();
            let mut j: usize = 0;
            while j < wire.len()
                invariant
                    j <= wire@.len(),
                    tracked_copy@ == wire@.take(j as int),
                decreases wire@.len() - j,
            {
                tracked_copy.push(wire[j]);
                proof {
                    assert(wire@.take(j as int).push(wire@[j as int]) =~= wire@.take(j + 1));
                }
                j += 1;
            }
            let pm = PendingMessage { wire: tracked_copy, last_send_ms: now_ms, retry_count: 0 };
            match assoc_find(&self.pending_ack, seq) {
                Some(idx) => {
                    proof {
                        lemma_lookup_update(self.pending_ack@, idx as int, pm);
                        assert(self.pending_ack@[idx as int].0 == seq);
                        crate::assoc::lemma_lookup_some_iff_has(
                            self.pending_ack@.update(idx as int, (seq, pm)),
                            seq,
                        );
                    }
                    self.pending_ack[idx] = (seq, pm);
                },
                None => {
                    proof {
                        lemma_lookup_push(self.pending_ack@, seq, pm);
                        crate::assoc::lemma_lookup_some_iff_has(
                            self.pending_ack@.push((seq, pm)),
                            seq,
                        );
                    }
                    self.pending_ack.push((seq, pm));
                },
            }
        }
        Some((seq, wire))
    }

    /// Reliable messages awaiting acknowledgment.
    pub fn pending_ack_count(&self) -> (r: usize)
        ensures
            r == self.pending_ack@.len(),
    {
        self.pending_ack.len()
    }

    /// Releases the send slot of an acknowledged channel sequence: exactly
    /// that tracked entry leaves the pending-ack window, and nothing else
    /// about the channel changes.
    pub fn on_ack(&mut self, sequence: u16)
        requires
            old(self).wf(),
        ensures
            final(self).wf(),
            final(self).config == old(self).config,
            !assoc_has(final(self).pending_ack@, sequence),
            forall|k: u16| k != sequence ==> assoc_lookup(final(self).pending_ack@, k)
                == assoc_lookup(old(self).pending_ack@, k),
            final(self).pending_ack@.len() == old(self).pending_ack@.len() - (if assoc_has(
                old(self).pending_ack@,
                sequence,
            ) {
                1int
            } else {
                0int
            }),
            *final(self) == (Channel { pending_ack: final(self).pending_ack, ..*old(self) }),
            final(self).receive_buffer@ == old(self).receive_buffer@,
            final(self).send_buffer@ == old(self).send_buffer@,
    {
        match assoc_find(&self.pending_ack, sequence) {
            Some(idx) => {
                proof {
                    lemma_lookup_remove(self.pending_ack@, idx as int);
                    crate::assoc::lemma_lookup_some_iff_has(
                        self.pending_ack@.remove(idx as int),
                        sequence,
                    );
                    assert(self.pending_ack@[idx as int].0 == sequence);
                }
                let _ = self.pending_ack.remove(idx);
            },
            None => {
                proof {
                    crate::assoc::lemma_lookup_some_iff_has(self.pending_ack@, sequence);
                }
            },
        }
    }

    /// Accepts one wire frame at time `now_ms` and applies the channel's
    /// receive discipline; anything it delivers is appended to the receive
    /// buffer, in delivery order. Frames shorter than the sequence field are
    /// dropped.
    pub fn on_packet_received(&mut self, wire: Vec<u8>, now_ms: u64)
        requires
            old(self).wf(),
        ensures
            final(self).wf(),
            final(self).config == old(self).config,
            old(self).receive_buffer@.is_prefix_of(final(self).receive_buffer@),
            final(self).pending_ack@ == old(self).pending_ack@,
            final(self).send_buffer@ == old(self).send_buffer@,
            parse_channel_frame(wire@) is None ==> final(self).receive_buffer@ == old(self).receive_buffer@,
            ({
                let parsed = parse_channel_frame(wire@);
                &&& ((parsed is Some && old(self).config.delivery_mode
                    == DeliveryMode::Unreliable) ==> final(self).receive_buffer@.len() == old(self).receive_buffer@.len() + 1 && final(self).receive_buffer@.last()@
                    == parsed.unwrap().1)
                &&& ((parsed is Some && old(self).config.delivery_mode
                    == DeliveryMode::ReliableUnordered && old(self).received_dedup.stored(
                    parsed.unwrap().0,
                ) is None) ==> final(self).receive_buffer@.len() == old(self).receive_buffer@.len() + 1 && final(self).receive_buffer@.last()@
                    == parsed.unwrap().1)
                &&& ((parsed is Some && (old(self).config.delivery_mode
                    == DeliveryMode::UnreliableSequenced || old(self).config.delivery_mode
                    == DeliveryMode::ReliableSequenced)) ==> ({
                    let newer = !old(self).delivered_any || greater_spec(
                        parsed.unwrap().0,
                        old(self).last_delivered,
                    );
                    &&& (newer ==> final(self).receive_buffer@.len() == old(self).receive_buffer@.len() + 1 && final(self).receive_buffer@.last()@
                        == parsed.unwrap().1 && final(self).last_delivered == parsed.unwrap().0
                        && final(self).delivered_any)
                    &&& (!newer ==> final(self).receive_buffer@ == old(self).receive_buffer@
                        && final(self).last_delivered == old(self).last_delivered)
                }))
                &&& ((parsed is Some && old(self).config.delivery_mode
                    == DeliveryMode::ReliableOrdered) ==> ({
                    let arrived = parsed.unwrap().0;
                    let dup = old(self).received_dedup.stored(arrived) is Some;
                    &&& (dup ==> final(self).receive_buffer@ == old(self).receive_buffer@
                        && final(self).ordered_buffer@ == old(self).ordered_buffer@)
                    &&& ((!dup && arrived == old(self).next_expected) ==> final(self).receive_buffer@.len() > old(self).receive_buffer@.len() && final(self).receive_buffer@[old(self).receive_buffer@.len() as int]@
                        == parsed.unwrap().1)
                    &&& ((!dup && arrived != old(self).next_expected) ==> final(self).receive_buffer@ == old(self).receive_buffer@ && assoc_has(
                        final(self).ordered_buffer@,
                        arrived,
                    ) && (!assoc_has(old(self).ordered_buffer@, arrived) ==> (
                    match assoc_lookup(final(self).ordered_buffer@, arrived) {
                        Some(held) => held@ == parsed.unwrap().1,
                        None => false,
                    })))
                }))
            }),
    {
        if wire.len() < 2 {
            return ;
        }
        let sequence: u16 = (wire[0] as u16) * 256 + (wire[1] as u16);
        let mut payload: Vec<u8> = Vec::new();
        let mut i: usize = 2;
        proof {
            assert(wire@.subrange(2, 2) =~= Seq::<u8>::empty());
        }
        while i < wire.len()
            invariant
                2 <= i <= wire@.len(),
                payload@ == wire@.subrange(2, i as int),
            decreases wire@.len() - i,
        {
            payload.push(wire[i]);
            proof {
                assert(wire@.subrange(2, i as int).push(wire@[i as int]) =~= wire@.subrange(
                    2,
                    i + 1,
                ));
            }
            i += 1;
        }
        self.messages_received = if self.messages_received == u64::MAX {
            self.messages_received
        } else {
            self.messages_received + 1
        };
        match self.config.delivery_mode {
            DeliveryMode::Unreliable => {
                self.receive_buffer.push(payload);
            },
            DeliveryMode::UnreliableSequenced => {
                if !self.delivered_any || sequence_greater_than(sequence, self.last_delivered) {
                    self.receive_buffer.push(payload);
                    self.last_delivered = sequence;
                    self.delivered_any = true;
                }
            },
            DeliveryMode::ReliableUnordered => {
                if !self.received_dedup.contains(sequence) {
                    self.received_dedup.insert(sequence, true);
                    self.receive_buffer.push(payload);
                }
            },
            DeliveryMode::ReliableOrdered => {
                if !self.received_dedup.contains(sequence) {
                    self.received_dedup.insert(sequence, true);
                    if sequence == self.next_expected {
                        self.receive_buffer.push(payload);
                        let ghost mid = self.receive_buffer@;
                        self.next_expected = if self.next_expected == 0xFFFF {
                            0
                        } else {
                            self.next_expected + 1
                        };
                        self.drain_ordered_buffer();
                        proof {
                            assert(mid.len() <= self.receive_buffer@.len());
                            assert(self.receive_buffer@[mid.len() - 1] == mid[mid.len() - 1]);
                        }
                        if self.ordered_buffer.len() == 0 {
                            self.ordered_since_ms = None;
                        }
                    } else {
                        match assoc_find(&self.ordered_buffer, sequence) {
                            Some(i) => {
                                proof {
                                    assert(self.ordered_buffer@[i as int].0 == sequence);
                                    assert(assoc_has(self.ordered_buffer@, sequence));
                                }
                            },
                            None => {
                                proof {
                                    crate::assoc::lemma_lookup_some_iff_has(
                                        self.ordered_buffer@,
                                        sequence,
                                    );
                                    lemma_lookup_push(self.ordered_buffer@, sequence, payload);
                                }
                                self.ordered_buffer.push((sequence, payload));
                                proof {
                                    crate::assoc::lemma_lookup_some_iff_has(
                                        self.ordered_buffer@,
                                        sequence,
                                    );
                                }
                                if self.ordered_since_ms.is_none() {
                                    self.ordered_since_ms = Some(now_ms);
                                }
                            },
                        }
                    }
                }
            },
            DeliveryMode::ReliableSequenced => {
                if !self.delivered_any || sequence_greater_than(sequence, self.last_delivered) {
                    self.receive_buffer.push(payload);
                    self.last_delivered = sequence;
                    self.delivered_any = true;
                }
            },
        }
    }

    /// Delivers consecutively buffered messages starting at the next
    /// expected sequence.
    fn drain_ordered_buffer(&mut self)
        requires
            old(self).wf(),
        ensures
            final(self).wf(),
            final(self).config == old(self).config,
            old(self).receive_buffer@.is_prefix_of(final(self).receive_buffer@),
            final(self).pending_ack@ == old(self).pending_ack@,
            final(self).send_buffer@ == old(self).send_buffer@,
        decreases old(self).ordered_buffer@.len(),
    {
        match assoc_find(&self.ordered_buffer, self.next_expected) {
            Some(idx) => {
                proof {
                    lemma_lookup_remove(self.ordered_buffer@, idx as int);
                }
                let entry = self.ordered_buffer.remove(idx);
                self.receive_buffer.push(entry.1);
                self.next_expected = if self.next_expected == 0xFFFF {
                    0
                } else {
                    self.next_expected + 1
                };
                proof {
                    assert(old(self).receive_buffer@.is_prefix_of(self.receive_buffer@));
                }
                let ghost mid = self.receive_buffer@;
                self.drain_ordered_buffer();
                proof {
                    assert(old(self).receive_buffer@.is_prefix_of(mid));
                }
            },
            None => {},
        }
    }

    /// Hands over the next delivered message, oldest first.
    pub fn receive(&mut self) -> (r: Option<Vec<u8>>)
        requires
            old(self).wf(),
        ensures
            final(self).wf(),
            final(self).config == old(self).config,
            r is Some <==> old(self).receive_buffer@.len() > 0,
            r matches Some(msg) ==> msg@ == old(self).receive_buffer@[0]@
                && final(self).receive_buffer@ == old(self).receive_buffer@.skip(1),
            r is None ==> *final(self) == *old(self),
    {
        if self.receive_buffer.len() == 0 {
            return None;
        }
        let msg = self.receive_buffer.remove(0);
        Some(msg)
    }

    /// Ordered-buffer timeout processing: once the gap has stood at least
    /// the configured timeout, everything buffered is appended to the
    /// receive buffer (smallest held sequence first, as compared circularly)
    /// and the channel advances past the gap; otherwise nothing changes.
    pub fn update(&mut self, now_ms: u64)
        requires
            old(self).wf(),
        ensures
            final(self).wf(),
            final(self).config == old(self).config,
            old(self).receive_buffer@.is_prefix_of(final(self).receive_buffer@),
            final(self).pending_ack@ == old(self).pending_ack@,
            final(self).send_buffer@ == old(self).send_buffer@,
            ({
                let due = match old(self).ordered_since_ms {
                    Some(since) => now_ms >= since && now_ms - since
                        >= old(self).config.ordered_buffer_timeout_ms,
                    None => false,
                };
                &&& (due ==> final(self).ordered_buffer@.len() == 0 && final(self).ordered_since_ms is None && final(self).receive_buffer@.len() == old(self).receive_buffer@.len() + old(self).ordered_buffer@.len() && final(self).receive_buffer@ == old(self).receive_buffer@ + flush_order(old(self).ordered_buffer@) && (forall|m: int|
                    old(self).receive_buffer@.len() <= m < final(self).receive_buffer@.len()
                        ==> drawn_from(
                        #[trigger] final(self).receive_buffer@[m],
                        old(self).ordered_buffer@,
                    )))
                &&& (!due ==> *final(self) == *old(self))
            }),
    {
        match self.ordered_since_ms {
            Some(since) => {
                if now_ms >= since && now_ms - since >= self.config.ordered_buffer_timeout_ms {
                    self.flush_ordered_buffer();
                    let ghost fr = self.receive_buffer@;
                    self.ordered_since_ms = None;
                    proof {
                        assert forall|m: int|
                            old(self).receive_buffer@.len() <= m
                                < self.receive_buffer@.len() implies drawn_from(
                            #[trigger] self.receive_buffer@[m],
                            old(self).ordered_buffer@,
                        ) by {
                            assert(fr[m] == self.receive_buffer@[m]);
                            assert(drawn_from(fr[m], old(self).ordered_buffer@));
                        }
                    }
                }
            },
            None => {},
        }
    }

    /// Delivers everything held in the ordered buffer — repeatedly the
    /// smallest held sequence, as compared circularly — and advances the next
    /// expected sequence past each.
    fn flush_ordered_buffer(&mut self)
        requires
            old(self).wf(),
        ensures
            final(self).wf(),
            final(self).config == old(self).config,
            old(self).receive_buffer@.is_prefix_of(final(self).receive_buffer@),
            final(self).pending_ack@ == old(self).pending_ack@,
            final(self).send_buffer@ == old(self).send_buffer@,
            final(self).ordered_buffer@.len() == 0,
            final(self).receive_buffer@.len() == old(self).receive_buffer@.len() + old(self).ordered_buffer@.len(),
            final(self).receive_buffer@ == old(self).receive_buffer@ + flush_order(
                old(self).ordered_buffer@,
            ),
            forall|m: int|
                old(self).receive_buffer@.len() <= m < final(self).receive_buffer@.len()
                    ==> drawn_from(
                    #[trigger] final(self).receive_buffer@[m],
                    old(self).ordered_buffer@,
                ),
            final(self).ordered_since_ms == old(self).ordered_since_ms,
        decreases old(self).ordered_buffer@.len(),
    {
        if self.ordered_buffer.len() == 0 {
            proof {
                assert(flush_order(old(self).ordered_buffer@) =~= Seq::<Vec<u8>>::empty());
                assert(self.receive_buffer@ =~= old(self).receive_buffer@ + flush_order(
                    old(self).ordered_buffer@,
                ));
            }
            return ;
        }
        let mut lowest: usize = 0;
        let mut i: usize = 1;
        let n = self.ordered_buffer.len();
        while i < n
            invariant
                1 <= i <= n,
                n == self.ordered_buffer@.len(),
                lowest < i,
                *self == *old(self),
                lowest as int == flush_pick(self.ordered_buffer@, i as int),
            decreases n - i,
        {
            if sequence_greater_than(
                self.ordered_buffer[lowest].0,
                self.ordered_buffer[i].0,
            ) {
                lowest = i;
            }
            i += 1;
        }
        proof {
            lemma_lookup_remove(self.ordered_buffer@, lowest as int);
        }
        let entry = self.ordered_buffer.remove(lowest);
        self.receive_buffer.push(entry.1);
        self.next_expected = if entry.0 == 0xFFFF {
            0
        } else {
            entry.0 + 1
        };
        let ghost mid = self.receive_buffer@;
        self.flush_ordered_buffer();
        proof {
            assert(old(self).receive_buffer@.is_prefix_of(mid));
            let before_ord = old(self).ordered_buffer@;
            let after_ord = before_ord.remove(lowest as int);
            assert(flush_order(before_ord) == seq![before_ord[lowest as int].1] + flush_order(
                after_ord,
            ));
            assert(mid =~= old(self).receive_buffer@ + seq![before_ord[lowest as int].1]);
            assert(self.receive_buffer@ =~= old(self).receive_buffer@ + flush_order(
                before_ord,
            ));
            assert(mid[mid.len() - 1] == before_ord[lowest as int].1);
            assert(self.receive_buffer@.subrange(0, mid.len() as int)[mid.len() - 1]
                == self.receive_buffer@[mid.len() - 1]);
            assert forall|m: int|
                old(self).receive_buffer@.len() <= m
                    < self.receive_buffer@.len() implies drawn_from(
                #[trigger] self.receive_buffer@[m],
                before_ord,
            ) by {
                if m == mid.len() - 1 {
                    assert(self.receive_buffer@[m] == before_ord[lowest as int].1);
                } else {
                    assert(drawn_from(self.receive_buffer@[m], after_ord));
                    let j2 = choose|j2: int|
                        0 <= j2 < after_ord.len() && self.receive_buffer@[m] == (
                        #[trigger] after_ord[j2]).1;
                    let j = if j2 < lowest {
                        j2
                    } else {
                        j2 + 1
                    };
                    assert(after_ord[j2] == before_ord[j]);
                }
            }
        }
    }

    /// Re-frames exactly the reliable messages whose retransmission timeout
    /// has elapsed; each is timestamped anew and its retry count rises, and
    /// everything else stays as it was.
    pub fn get_retransmit_messages(&mut self, now_ms: u64, rto_ms: u64) -> (r: Vec<(u16, Vec<u8>)>)
        requires
            old(self).wf(),
        ensures
            final(self).wf(),
            final(self).config == old(self).config,
            final(self).pending_ack@.len() == old(self).pending_ack@.len(),
            forall|j: int|
                0 <= j < old(self).pending_ack@.len() ==> (#[trigger] final(self).pending_ack@[j]).0 == old(self).pending_ack@[j].0 && (if pending_due(
                    old(self).pending_ack@[j].1,
                    now_ms,
                    rto_ms,
                ) {
                    final(self).pending_ack@[j].1.wire@ == old(self).pending_ack@[j].1.wire@
                        && final(self).pending_ack@[j].1.last_send_ms == now_ms && final(self).pending_ack@[j].1.retry_count == (if old(self).pending_ack@[j].1.retry_count == u32::MAX {
                        old(self).pending_ack@[j].1.retry_count
                    } else {
                        (old(self).pending_ack@[j].1.retry_count + 1) as u32
                    })
                } else {
                    final(self).pending_ack@[j].1 == old(self).pending_ack@[j].1
                }),
            forall|j: int|
                0 <= j < old(self).pending_ack@.len() && pending_due(
                    (#[trigger] old(self).pending_ack@[j]).1,
                    now_ms,
                    rto_ms,
                ) ==> exists|qi: int|
                    0 <= qi < r@.len() && (#[trigger] r@[qi]).0 == old(self).pending_ack@[j].0
                        && r@[qi].1@ == old(self).pending_ack@[j].1.wire@,
            forall|qi: int|
                0 <= qi < r@.len() ==> retransmit_of(
                    #[trigger] r@[qi],
                    old(self).pending_ack@,
                    now_ms,
                    rto_ms,
                ),
            *final(self) == (Channel { pending_ack: final(self).pending_ack, ..*old(self) }),
            final(self).receive_buffer@ == old(self).receive_buffer@,
            final(self).send_buffer@ == old(self).send_buffer@,
    {
        let mut out: Vec<(u16, Vec<u8>)> = Vec::new();
        let mut i: usize = 0;
        let n = self.pending_ack.len();
        while i < n
            invariant
                i <= n,
                n == self.pending_ack@.len(),
                self.wf(),
                self.config == old(self).config,
                self.pending_ack@.len() == old(self).pending_ack@.len(),
                *self == (Channel { pending_ack: self.pending_ack, ..*old(self) }),
                forall|j: int|
                    i <= j < old(self).pending_ack@.len() ==> (
                    #[trigger] self.pending_ack@[j]) == old(self).pending_ack@[j],
                forall|j: int|
                    0 <= j < i ==> (#[trigger] self.pending_ack@[j]).0 == old(self).pending_ack@[j].0 && (if pending_due(
                        old(self).pending_ack@[j].1,
                        now_ms,
                        rto_ms,
                    ) {
                        self.pending_ack@[j].1.wire@ == old(self).pending_ack@[j].1.wire@
                            && self.pending_ack@[j].1.last_send_ms == now_ms
                            && self.pending_ack@[j].1.retry_count == (if old(self).pending_ack@[j].1.retry_count == u32::MAX {
                            old(self).pending_ack@[j].1.retry_count
                        } else {
                            (old(self).pending_ack@[j].1.retry_count + 1) as u32
                        })
                    } else {
                        self.pending_ack@[j].1 == old(self).pending_ack@[j].1
                    }),
                forall|j: int|
                    0 <= j < i && pending_due(
                        (#[trigger] old(self).pending_ack@[j]).1,
                        now_ms,
                        rto_ms,
                    ) ==> exists|qi: int|
                        0 <= qi < out@.len() && (#[trigger] out@[qi]).0 == old(self).pending_ack@[j].0 && out@[qi].1@ == old(self).pending_ack@[j].1.wire@,
                forall|qi: int|
                    0 <= qi < out@.len() ==> retransmit_of(
                        #[trigger] out@[qi],
                        old(self).pending_ack@,
                        now_ms,
                        rto_ms,
                    ),
                self.receive_buffer@ == old(self).receive_buffer@,
                self.send_buffer@ == old(self).send_buffer@,
            decreases n - i,
        {
            let ghost snap = *self;
            let due = now_ms >= self.pending_ack[i].1.last_send_ms && now_ms
                - self.pending_ack[i].1.last_send_ms >= rto_ms;
            if due {
                let seq = self.pending_ack[i].0;
                let mut wire_copy: Vec<u8> = Vec::new();
                let mut j: usize = 0;
                let m = self.pending_ack[i].1.wire.len();
                while j < m
                    invariant
                        j <= m,
                        *self == snap,
                        i < self.pending_ack@.len(),
                        m == self.pending_ack@[i as int].1.wire@.len(),
                        wire_copy@ == self.pending_ack@[i as int].1.wire@.take(j as int),
                    decreases m - j,
                {
                    wire_copy.push(self.pending_ack[i].1.wire[j]);
                    proof {
                        let w = self.pending_ack@[i as int].1.wire@;
                        assert(w.take(j as int).push(w[j as int]) =~= w.take(j + 1));
                    }
                    j += 1;
                }
                let mut wire_keep: Vec<u8> = Vec::new();
                let mut j2: usize = 0;
                while j2 < wire_copy.len()
                    invariant
                        j2 <= wire_copy@.len(),
                        *self == snap,
                        wire_keep@ == wire_copy@.take(j2 as int),
                    decreases wire_copy@.len() - j2,
                {
                    wire_keep.push(wire_copy[j2]);
                    proof {
                        assert(wire_copy@.take(j2 as int).push(wire_copy@[j2 as int])
                            =~= wire_copy@.take(j2 + 1));
                    }
                    j2 += 1;
                }
                let retry = self.pending_ack[i].1.retry_count;
                let nretry = if retry == u32::MAX {
                    retry
                } else {
                    retry + 1
                };
                let pm = PendingMessage {
                    wire: wire_keep,
                    last_send_ms: now_ms,
                    retry_count: nretry,
                };
                proof {
                    lemma_lookup_update(self.pending_ack@, i as int, pm);
                    assert(self.pending_ack@[i as int].0 == seq);
                    assert(self.pending_ack@[i as int] == old(self).pending_ack@[i as int]);
                    assert(wire_copy@ == old(self).pending_ack@[i as int].1.wire@);
                }
                let ghost out_before = out@;
                self.pending_ack[i] = (seq, pm);
                out.push((seq, wire_copy));
                proof {
                    assert(out@[out@.len() - 1].0 == seq && out@[out@.len() - 1].1@
                        == wire_copy@);
                    assert forall|j3: int|
                        0 <= j3 < i + 1 && pending_due(
                            (#[trigger] old(self).pending_ack@[j3]).1,
                            now_ms,
                            rto_ms,
                        ) implies exists|qi: int|
                        0 <= qi < out@.len() && (#[trigger] out@[qi]).0 == old(self).pending_ack@[j3].0 && out@[qi].1@ == old(self).pending_ack@[j3].1.wire@ by {
                        if j3 < i {
                            let qi = choose|qi: int|
                                0 <= qi < out_before.len() && (#[trigger] out_before[qi]).0
                                    == old(self).pending_ack@[j3].0 && out_before[qi].1@
                                    == old(self).pending_ack@[j3].1.wire@;
                            assert(out@[qi] == out_before[qi]);
                        } else {
                            assert(out@[out@.len() - 1].0 == old(self).pending_ack@[j3].0);
                        }
                    }
                    assert forall|qi: int| 0 <= qi < out@.len() implies retransmit_of(
                        #[trigger] out@[qi],
                        old(self).pending_ack@,
                        now_ms,
                        rto_ms,
                    ) by {
                        if qi < out_before.len() {
                            assert(out@[qi] == out_before[qi]);
                            assert(retransmit_of(
                                out_before[qi],
                                old(self).pending_ack@,
                                now_ms,
                                rto_ms,
                            ));
                        } else {
                            assert(pending_due(
                                old(self).pending_ack@[i as int].1,
                                now_ms,
                                rto_ms,
                            ));
                            assert(out@[qi].0 == old(self).pending_ack@[i as int].0
                                && out@[qi].1@ == old(self).pending_ack@[i as int].1.wire@);
                        }
                    }
                }
            }
            i += 1;
        }
        out
    }
}

} // verus!
