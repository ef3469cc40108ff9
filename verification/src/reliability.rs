//! Reliable packet delivery: sequence tracking, acknowledgment bitfields,
//! integer Jacobson/Karels round-trip estimation with adaptive backoff, fast
//! retransmit, and a bounded in-flight window with eviction.
use vstd::prelude::*;
use crate::assoc::{assoc_find, assoc_has, assoc_lookup, assoc_unique, lemma_lookup_at_index,
    lemma_lookup_push, lemma_lookup_remove, lemma_lookup_update};
use crate::config::{DEFAULT_MAX_IN_FLIGHT, DEFAULT_MAX_RELIABLE_RETRIES,
    DEFAULT_MAX_SEQUENCE_DISTANCE};
use crate::stats::ReliabilityStats;
use crate::util::{diff_spec, greater_spec, sequence_diff, sequence_greater_than};

verus! {

/// Starting retransmission timeout before any round-trip sample.
pub const INITIAL_RTO_MILLIS: u64 = 100;

/// Width of the acknowledgment bitfield.
pub const ACK_BITS_WINDOW: u32 = 32;

/// Duplicate acks of one sequence that trigger an immediate retransmission.
pub const FAST_RETRANSMIT_THRESHOLD: u32 = 3;

/// Lower clamp of the adaptive retransmission timeout.
pub const MIN_RTO_MS: u64 = 50;

/// Upper clamp of the adaptive retransmission timeout.
pub const MAX_RTO_MS: u64 = 2000;

/// Round-trip samples above one hour are treated as one hour, which keeps the
/// estimator's arithmetic inside `u64`.
pub const MAX_RTT_SAMPLE_MS: u64 = 3600000;

/// Slots of the rolling packet-loss window.
pub const LOSS_WINDOW_SIZE: usize = 256;

/// A circular buffer for tracking values keyed by 16-bit sequence number.
/// Each slot remembers the sequence that occupies it, so two sequences that
/// collide modulo the size are never confused.
pub struct SequenceBuffer<T> {
    pub entries: Vec<Option<(u16, T)>>,
    pub newest: u16,
    pub size: usize,
}

impl<T> SequenceBuffer<T> {
    /// A buffer is well formed when it has its declared positive size.
    pub open spec fn wf(&self) -> bool {
        self.size >= 1 && self.entries@.len() == self.size
    }

    /// The value stored for a sequence: the slot it hashes to, if that slot
    /// currently holds exactly this sequence.
    pub open spec fn stored(&self, sequence: u16) -> Option<T> {
        match self.entries@[sequence as int % self.size as int] {
            Some((s, v)) => if s == sequence {
                Some(v)
            } else {
                None
            },
            None => None,
        }
    }

    /// An empty buffer with `size` slots.
    pub fn new(size: usize) -> (r: SequenceBuffer<T>)
        requires
            size >= 1,
        ensures
            r.wf(),
            r.size == size,
            r.newest == 0,
            forall|s: u16| r.stored(s) is None,
    {
        let mut entries: Vec<Option<(u16, T)>> = Vec::new();
        let mut i: usize = 0;
        while i < size
            invariant
                i <= size,
                entries@.len() == i,
                forall|j: int| 0 <= j < i ==> entries@[j] is None,
            decreases size - i,
        {
            entries.push(None);
            i += 1;
        }
        SequenceBuffer { entries, newest: 0, size }
    }

    /// Stores a value for a sequence, displacing whatever occupied its slot,
    /// and advances the newest-seen sequence when this one is newer.
    pub fn insert(&mut self, sequence: u16, data: T)
        requires
            old(self).wf(),
        ensures
            final(self).wf(),
            final(self).size == old(self).size,
            final(self).stored(sequence) == Some(data),
            forall|s: u16| s as int % final(self).size as int != sequence as int
                % final(self).size as int ==> final(self).stored(s) == old(self).stored(s),
            forall|s: u16| s != sequence && s as int % final(self).size as int == sequence as int
                % final(self).size as int ==> final(self).stored(s) is None,
            final(self).newest == (if greater_spec(sequence, old(self).newest) {
                sequence
            } else {
                old(self).newest
            }),
    {
        if sequence_greater_than(sequence, self.newest) {
            self.newest = sequence;
        }
        let index = (sequence as usize) % self.size;
        self.entries[index] = Some((sequence, data));
    }

    /// True exactly when this sequence is currently stored.
    pub fn contains(&self, sequence: u16) -> (r: bool)
        requires
            self.wf(),
        ensures
            r == (self.stored(sequence) is Some),
    {
        let index = (sequence as usize) % self.size;
        match &self.entries[index] {
            Some((s, _)) => *s == sequence,
            None => false,
        }
    }

    /// The value stored for this sequence, if any.
    pub fn get(&self, sequence: u16) -> (r: Option<&T>)
        requires
            self.wf(),
        ensures
            match r {
                Some(v) => self.stored(sequence) == Some(*v),
                None => self.stored(sequence) is None,
            },
    {
        let index = (sequence as usize) % self.size;
        match &self.entries[index] {
            Some((s, v)) => if *s == sequence {
                Some(v)
            } else {
                None
            },
            None => None,
        }
    }
}

/// A packet retained for possible retransmission. The channel tag records
/// which channel's message the packet carried, so that retiring the packet
/// can release that channel's send slot.
#[derive(Debug)]
pub struct SentPacketData {
    pub send_time_ms: u64,
    pub retry_count: u32,
    pub data: Vec<u8>,
    pub size: usize,
    pub channel_id: u8,
    pub channel_seq: u16,
}

/// The packets to retransmit this tick. They are kept in a `smallvec` so
/// that the common case of a handful of retransmissions allocates nothing;
/// the vector itself is opaque to the verifier and is reached only through
/// the wrappers below.
#[verifier::external_body]
pub struct RetransmitQueue {
    inner: smallvec::SmallVec<[(u16, Vec<u8>); 8]>,
}

/// What a retransmission queue holds, in order.
pub uninterp spec fn retransmit_entries(v: RetransmitQueue) -> Seq<(u16, Vec<u8>)>;

impl RetransmitQueue {
    /// Relies on smallvec::SmallVec::new: a newly constructed small vector
    /// holds nothing.
    #[verifier::external_body]
    fn new() -> (r: RetransmitQueue)
        ensures
            retransmit_entries(r) == Seq::<(u16, Vec<u8>)>::empty(),
    {
        RetransmitQueue { inner: smallvec::SmallVec::new() }
    }

    /// Relies on smallvec::SmallVec::push: appends the item at the back.
    #[verifier::external_body]
    fn push(&mut self, sequence: u16, data: Vec<u8>)
        ensures
            retransmit_entries(*final(self)) == retransmit_entries(*old(self)).push(
                (sequence, data),
            ),
    {
        self.inner.push((sequence, data));
    }

    /// Relies on smallvec::SmallVec::len: the number of items held.
    #[verifier::external_body]
    pub fn len(&self) -> (r: usize)
        ensures
            r == retransmit_entries(*self).len(),
    {
        self.inner.len()
    }

    /// Relies on indexing through smallvec's deref to a slice.
    #[verifier::external_body]
    pub fn get(&self, i: usize) -> (r: &(u16, Vec<u8>))
        requires
            i < retransmit_entries(*self).len(),
        ensures
            *r == retransmit_entries(*self)[i as int],
    {
        &self.inner[i]
    }
}

/// The sequence `k` steps before `a` in the circular space.
pub open spec fn seq_sub(a: u16, k: u32) -> u16 {
    (((a as int) - (k as int)) % 0x10000) as u16
}

fn seq_sub_exec(a: u16, k: u32) -> (r: u16)
    requires
        k <= 32,
    ensures
        r == seq_sub(a, k),
{
    let k16 = k as u16;
    let r = if a >= k16 {
        a - k16
    } else {
        (((a as u32) + 0x10000) - k) as u16
    };
    proof {
        let x = a as int - k as int;
        if x >= 0 {
            assert(x % 0x10000 == x);
        } else {
            vstd::arithmetic::div_mod::lemma_mod_multiples_vanish(1, x, 0x10000);
            assert((x + 0x10000) % 0x10000 == x % 0x10000);
            assert((x + 0x10000) % 0x10000 == x + 0x10000);
        }
    }
    r
}

/// A byte-for-byte copy of a buffer.
pub(crate) fn copy_bytes(src: &Vec<u8>) -> (r: Vec<u8>)
    ensures
        r@ == src@,
{
    let mut out: Vec<u8> = Vec::new();
    let mut i: usize = 0;
    while i < src.len()
        invariant
            i <= src@.len(),
            out@ == src@.take(i as int),
        decreases src@.len() - i,
    {
        out.push(src[i]);
        proof {
            assert(src@.take(i as int).push(src@[i as int]) =~= src@.take(i + 1));
        }
        i += 1;
    }
    proof {
        assert(src@.take(src@.len() as int) =~= src@);
    }
    out
}

/// The doubling factor applied to the retransmission timeout after this many
/// retries, capped at `MAX_BACKOFF_EXPONENT` (six) doublings.
pub open spec fn backoff_factor(retry_count: u32) -> u64 {
    if retry_count == 0 {
        1u64
    } else if retry_count == 1 {
        2u64
    } else if retry_count == 2 {
        4u64
    } else if retry_count == 3 {
        8u64
    } else if retry_count == 4 {
        16u64
    } else if retry_count == 5 {
        32u64
    } else {
        64u64
    }
}

fn backoff_factor_exec(retry_count: u32) -> (r: u64)
    ensures
        r == backoff_factor(retry_count),
{
    if retry_count == 0 {
        1
    } else if retry_count == 1 {
        2
    } else if retry_count == 2 {
        4
    } else if retry_count == 3 {
        8
    } else if retry_count == 4 {
        16
    } else if retry_count == 5 {
        32
    } else {
        64
    }
}

/// True when a sent packet's backed-off timeout has elapsed.
pub open spec fn retransmit_due(rec: SentPacketData, now_ms: u64, rto_ms: u64) -> bool {
    now_ms >= rec.send_time_ms && now_ms - rec.send_time_ms >= rto_ms * backoff_factor(
        rec.retry_count,
    )
}

/// A round-trip sample clamped to the largest value the estimator takes.
pub open spec fn clamped_sample(sample_ms: u64) -> u64 {
    if sample_ms > MAX_RTT_SAMPLE_MS {
        MAX_RTT_SAMPLE_MS
    } else {
        sample_ms
    }
}

/// The retransmission timeout clamped to its configured band.
pub open spec fn clamp_rto(x: int) -> u64 {
    if x < MIN_RTO_MS {
        MIN_RTO_MS
    } else if x > MAX_RTO_MS {
        MAX_RTO_MS
    } else {
        x as u64
    }
}

/// Absolute difference of two samples.
pub open spec fn abs_diff(a: u64, b: u64) -> u64 {
    if a >= b {
        (a - b) as u64
    } else {
        (b - a) as u64
    }
}

/// Saturating add for statistics counters.
pub open spec fn sat_add(a: u64, b: u64) -> u64 {
    if a + b > u64::MAX {
        u64::MAX
    } else {
        (a + b) as u64
    }
}

fn sat_add_exec(a: u64, b: u64) -> (r: u64)
    ensures
        r == sat_add(a, b),
{
    if b > u64::MAX - a {
        u64::MAX
    } else {
        a + b
    }
}

/// No bit is set in a zero bitfield.
pub proof fn lemma_zero_bits()
    ensures
        forall|i: u32| i < 32 ==> (#[trigger] (0u32 & (1u32 << i))) == 0,
{
    assert forall|i: u32| i < 32 implies (#[trigger] (0u32 & (1u32 << i))) == 0 by {
        assert((0u32 & (1u32 << i)) == 0) by (bit_vector)
            requires
                i < 32,
        ;
    }
}

/// Tracks sent packets for reliability and acknowledgment: sequence numbers,
/// the ack bitfield, the round-trip estimator, and the in-flight window.
pub struct ReliableEndpoint {
    pub local_sequence: u16,
    pub remote_sequence: u16,
    pub ack_bits: u32,
    pub sent_packets: Vec<(u16, SentPacketData)>,
    pub received_packets: SequenceBuffer<bool>,
    pub received_any: bool,
    pub max_sequence_distance: u16,
    pub max_retries: u32,
    pub max_in_flight: usize,
    pub srtt_ms: u64,
    pub rttvar_ms: u64,
    pub rto_ms: u64,
    pub has_rtt_sample: bool,
    pub loss_window: Vec<bool>,
    pub loss_window_index: usize,
    pub loss_window_count: usize,
    pub dup_ack_counts: Vec<(u16, u32)>,
    pub total_packets_sent: u64,
    pub total_packets_acked: u64,
    pub total_packets_lost: u64,
    pub packets_evicted: u64,
    pub bytes_sent: u64,
    pub bytes_acked: u64,
    pub received_history: Ghost<Set<u16>>,
}

/// Losses among the first `n` slots of the loss window.
pub open spec fn count_losses(s: Seq<bool>, n: int) -> int
    decreases n,
{
    if n <= 0 {
        0
    } else {
        count_losses(s, n - 1) + (if s[n - 1] {
            1int
        } else {
            0int
        })
    }
}

/// The loss window and write index after recording `n` samples of the same
/// kind in a row.
pub open spec fn samples_recorded(w: Seq<bool>, idx: int, n: int, lost: bool) -> (Seq<bool>, int)
    decreases n,
{
    if n <= 0 {
        (w, idx)
    } else {
        let prev = samples_recorded(w, idx, n - 1, lost);
        (prev.0.update(prev.1, lost), (prev.1 + 1) % (LOSS_WINDOW_SIZE as int))
    }
}

/// The number of filled loss-window slots after `n` more samples.
pub open spec fn count_after_samples(c: int, n: int) -> int {
    if c + n > LOSS_WINDOW_SIZE {
        LOSS_WINDOW_SIZE as int
    } else {
        c + n
    }
}

/// The bytes held across the in-flight window.
pub open spec fn total_in_flight_bytes(s: Seq<(u16, SentPacketData)>) -> int
    decreases s.len(),
{
    if s.len() == 0 {
        0
    } else {
        total_in_flight_bytes(s.drop_last()) + s.last().1.size
    }
}

/// The in-flight byte total never goes negative.
proof fn lemma_total_bytes_nonneg(s: Seq<(u16, SentPacketData)>)
    ensures
        total_in_flight_bytes(s) >= 0,
    decreases s.len(),
{
    if s.len() > 0 {
        lemma_total_bytes_nonneg(s.drop_last());
    }
}

/// Removing one record takes exactly its size out of the byte total.
proof fn lemma_total_bytes_remove(s: Seq<(u16, SentPacketData)>, i: int)
    requires
        0 <= i < s.len(),
    ensures
        total_in_flight_bytes(s.remove(i)) == total_in_flight_bytes(s) - s[i].1.size,
    decreases s.len(),
{
    if i == s.len() - 1 {
        assert(s.remove(i) =~= s.drop_last());
    } else {
        assert(s.remove(i).drop_last() =~= s.drop_last().remove(i));
        assert(s.remove(i).last() == s.last());
        lemma_total_bytes_remove(s.drop_last(), i);
    }
}

/// The tag names a packet that was in flight before and is retired after.
pub open spec fn released_tag_of(
    tag: (u8, u16),
    before: Seq<(u16, SentPacketData)>,
    after: Seq<(u16, SentPacketData)>,
) -> bool {
    exists|j: int|
        0 <= j < before.len() && !assoc_has(after, (#[trigger] before[j]).0) && tag == (
        before[j].1.channel_id,
        before[j].1.channel_seq,
        )
}

/// Packet loss over the rolling window, in parts per thousand.
pub open spec fn spec_loss_permille(e: ReliableEndpoint) -> u32 {
    if e.loss_window_count == 0 {
        0u32
    } else {
        (1000 * count_losses(e.loss_window@, e.loss_window_count as int) / (
        e.loss_window_count as int)) as u32
    }
}

impl ReliableEndpoint {
    /// Every ack bit the endpoint would advertise stands for a sequence that
    /// was in fact received: bit `i` for `remote_sequence - (i + 1)`, and
    /// `remote_sequence` itself once anything was received.
    pub open spec fn acks_sound(&self) -> bool {
        &&& (!self.received_any ==> self.ack_bits == 0)
        &&& (self.received_any ==> self.received_history@.contains(self.remote_sequence))
        &&& (forall|i: u32|
            i < 32 && (self.ack_bits & (1u32 << i)) != 0
                ==> self.received_history@.contains(seq_sub(self.remote_sequence, (i + 1) as u32)))
    }

    /// Structural well-formedness: buffers have their sizes, keys are unique,
    /// the in-flight window respects its cap, and the estimator stays in its
    /// clamped band.
    pub open spec fn wf(&self) -> bool {
        &&& self.received_packets.wf()
        &&& self.loss_window@.len() == LOSS_WINDOW_SIZE
        &&& self.loss_window_index < LOSS_WINDOW_SIZE
        &&& self.loss_window_count <= LOSS_WINDOW_SIZE
        &&& assoc_unique(self.sent_packets@)
        &&& assoc_unique(self.dup_ack_counts@)
        &&& self.sent_packets@.len() <= self.max_in_flight
        &&& self.max_in_flight >= 1
        &&& self.srtt_ms <= MAX_RTT_SAMPLE_MS
        &&& self.rttvar_ms <= MAX_RTT_SAMPLE_MS
        &&& MIN_RTO_MS <= self.rto_ms <= MAX_RTO_MS
        &&& self.acks_sound()
    }

    /// An endpoint with no traffic yet: sequences at zero, the initial
    /// retransmission timeout, and an empty in-flight window.
    pub fn new(buffer_size: usize) -> (r: ReliableEndpoint)
        requires
            buffer_size >= 1,
        ensures
            r.wf(),
            r.local_sequence == 0,
            r.remote_sequence == 0,
            r.ack_bits == 0,
            r.sent_packets@.len() == 0,
            r.rto_ms == INITIAL_RTO_MILLIS,
            !r.has_rtt_sample,
            r.max_in_flight == DEFAULT_MAX_IN_FLIGHT,
            r.max_retries == DEFAULT_MAX_RELIABLE_RETRIES,
            r.loss_window_count == 0,
            r.loss_window_index == 0,
            forall|i: int| 0 <= i < r.loss_window@.len() ==> !r.loss_window@[i],
            r.received_history@ == Set::<u16>::empty(),
            r.dup_ack_counts@.len() == 0,
            r.total_packets_sent == 0,
            r.total_packets_acked == 0,
            r.total_packets_lost == 0,
            r.packets_evicted == 0,
            r.bytes_sent == 0,
            r.bytes_acked == 0,
            r.srtt_ms == 0,
            r.rttvar_ms == 0,
    {
        let mut loss_window: Vec<bool> = Vec::new();
        let mut i: usize = 0;
        while i < LOSS_WINDOW_SIZE
            invariant
                i <= LOSS_WINDOW_SIZE,
                loss_window@.len() == i,
                forall|t: int| 0 <= t < i ==> !loss_window@[t],
            decreases LOSS_WINDOW_SIZE - i,
        {
            loss_window.push(false);
            i += 1;
        }
        proof {
            lemma_zero_bits();
        }
        ReliableEndpoint {
            local_sequence: 0,
            remote_sequence: 0,
            ack_bits: 0,
            sent_packets: Vec::new(),
            received_packets: SequenceBuffer::new(buffer_size),
            received_any: false,
            max_sequence_distance: DEFAULT_MAX_SEQUENCE_DISTANCE,
            max_retries: DEFAULT_MAX_RELIABLE_RETRIES,
            max_in_flight: DEFAULT_MAX_IN_FLIGHT,
            srtt_ms: 0,
            rttvar_ms: 0,
            rto_ms: INITIAL_RTO_MILLIS,
            has_rtt_sample: false,
            loss_window,
            loss_window_index: 0,
            loss_window_count: 0,
            dup_ack_counts: Vec::new(),
            total_packets_sent: 0,
            total_packets_acked: 0,
            total_packets_lost: 0,
            packets_evicted: 0,
            bytes_sent: 0,
            bytes_acked: 0,
            received_history: Ghost(Set::<u16>::empty()),
        }
    }

    /// The same endpoint with the in-flight cap replaced.
    pub fn with_max_in_flight(self, max: usize) -> (r: ReliableEndpoint)
        requires
            self.wf(),
            max >= 1,
            self.sent_packets@.len() <= max,
        ensures
            r.wf(),
            r == (ReliableEndpoint { max_in_flight: max, ..self }),
    {
        ReliableEndpoint { max_in_flight: max, ..self }
    }

    /// Hands out the next outgoing sequence number, advancing it modulo 2^16.
    pub fn next_sequence(&mut self) -> (r: u16)
        requires
            old(self).wf(),
        ensures
            final(self).wf(),
            r == old(self).local_sequence,
            final(self).local_sequence == (if old(self).local_sequence == 0xFFFF {
                0u16
            } else {
                (old(self).local_sequence + 1) as u16
            }),
            *final(self) == (ReliableEndpoint {
                local_sequence: final(self).local_sequence,
                ..*old(self)
            }),
    {
        let seq = self.local_sequence;
        self.local_sequence = if self.local_sequence == 0xFFFF {
            0
        } else {
            self.local_sequence + 1
        };
        seq
    }

    /// Records a packet as sent. When the in-flight window is full, the
    /// packet with the most retries is evicted first, so the cap always
    /// holds afterwards.
    pub fn on_packet_sent(
        &mut self,
        sequence: u16,
        send_time_ms: u64,
        data: Vec<u8>,
        channel_id: u8,
        channel_seq: u16,
    )
        requires
            old(self).wf(),
        ensures
            final(self).wf(),
            final(self).sent_packets@.len() <= final(self).max_in_flight,
            final(self).max_in_flight == old(self).max_in_flight,
            assoc_has(final(self).sent_packets@, sequence),
            match assoc_lookup(final(self).sent_packets@, sequence) {
                Some(rec) => rec.send_time_ms == send_time_ms && rec.retry_count == 0
                    && rec.data@ == data@ && rec.size == data@.len() && rec.channel_id
                    == channel_id && rec.channel_seq == channel_seq,
                None => false,
            },
            final(self).total_packets_sent == sat_add(old(self).total_packets_sent, 1),
            final(self).bytes_sent == sat_add(old(self).bytes_sent, data@.len() as u64),
            (old(self).sent_packets@.len() < old(self).max_in_flight || assoc_has(
                old(self).sent_packets@,
                sequence,
            )) ==> (forall|k: u16| k != sequence ==> assoc_lookup(final(self).sent_packets@, k)
                == assoc_lookup(old(self).sent_packets@, k)) && final(self).packets_evicted
                == old(self).packets_evicted && final(self).total_packets_lost == old(self).total_packets_lost && final(self).sent_packets@.len() == old(self).sent_packets@.len() + (if assoc_has(old(self).sent_packets@, sequence) {
                0int
            } else {
                1int
            }),
            (old(self).sent_packets@.len() >= old(self).max_in_flight && !assoc_has(
                old(self).sent_packets@,
                sequence,
            )) ==> final(self).sent_packets@.len() == old(self).sent_packets@.len() && final(self).packets_evicted == sat_add(old(self).packets_evicted, 1) && (exists|vi: int|
                0 <= vi < old(self).sent_packets@.len() && !assoc_has(
                    final(self).sent_packets@,
                    (#[trigger] old(self).sent_packets@[vi]).0,
                ) && (forall|j: int|
                    0 <= j < old(self).sent_packets@.len() ==> (
                    #[trigger] old(self).sent_packets@[j]).1.retry_count <= old(self).sent_packets@[vi].1.retry_count) && (forall|k: u16|
                    k != sequence && k != old(self).sent_packets@[vi].0 ==> assoc_lookup(
                        final(self).sent_packets@,
                        k,
                    ) == assoc_lookup(old(self).sent_packets@, k))),
            final(self).srtt_ms == old(self).srtt_ms,
            final(self).rttvar_ms == old(self).rttvar_ms,
            final(self).rto_ms == old(self).rto_ms,
            final(self).has_rtt_sample == old(self).has_rtt_sample,
            final(self).dup_ack_counts@ == old(self).dup_ack_counts@,
            final(self).max_retries == old(self).max_retries,
            final(self).remote_sequence == old(self).remote_sequence,
            final(self).ack_bits == old(self).ack_bits,
            final(self).local_sequence == old(self).local_sequence,
            final(self).received_history == old(self).received_history,
            final(self).received_any == old(self).received_any,
            final(self).received_packets == old(self).received_packets,
    {
        let size = data.len();
        let rec = SentPacketData { send_time_ms, retry_count: 0, data, size, channel_id, channel_seq };
        match assoc_find(&self.sent_packets, sequence) {
            Some(idx) => {
                proof {
                    lemma_lookup_update(self.sent_packets@, idx as int, rec);
                    assert(self.sent_packets@[idx as int].0 == sequence);
                }
                self.sent_packets[idx] = (sequence, rec);
            },
            None => {
                if self.sent_packets.len() >= self.max_in_flight {
                    self.evict_worst_in_flight();
                }
                let ghost mid = self.sent_packets@;
                proof {
                    crate::assoc::lemma_lookup_some_iff_has(mid, sequence);
                    lemma_lookup_push(mid, sequence, rec);
                }
                self.sent_packets.push((sequence, rec));
                proof {
                    crate::assoc::lemma_lookup_some_iff_has(self.sent_packets@, sequence);
                    if old(self).sent_packets@.len() >= old(self).max_in_flight {
                        let vi = choose|vi: int|
                            0 <= vi < old(self).sent_packets@.len() && !assoc_has(
                                mid,
                                (#[trigger] old(self).sent_packets@[vi]).0,
                            ) && (forall|j: int|
                                0 <= j < old(self).sent_packets@.len() ==> (
                                #[trigger] old(self).sent_packets@[j]).1.retry_count <= old(self).sent_packets@[vi].1.retry_count && (old(self).sent_packets@[j].1.retry_count == old(self).sent_packets@[vi].1.retry_count ==> old(self).sent_packets@[j].1.send_time_ms >= old(self).sent_packets@[vi].1.send_time_ms)) && (
                            forall|k: u16|
                                k != old(self).sent_packets@[vi].0 ==> assoc_lookup(mid, k)
                                    == assoc_lookup(old(self).sent_packets@, k));
                        let key = old(self).sent_packets@[vi].0;
                        assert(key != sequence);
                        crate::assoc::lemma_lookup_some_iff_has(mid, key);
                        crate::assoc::lemma_lookup_some_iff_has(self.sent_packets@, key);
                        assert(!assoc_has(self.sent_packets@, key));
                        assert(forall|k: u16|
                            k != sequence && k != key ==> assoc_lookup(self.sent_packets@, k)
                                == assoc_lookup(old(self).sent_packets@, k));
                        assert(0 <= vi < old(self).sent_packets@.len() && !assoc_has(
                            self.sent_packets@,
                            old(self).sent_packets@[vi].0,
                        ) && (forall|j: int|
                            0 <= j < old(self).sent_packets@.len() ==> (
                            #[trigger] old(self).sent_packets@[j]).1.retry_count <= old(self).sent_packets@[vi].1.retry_count) && (forall|k: u16|
                            k != sequence && k != old(self).sent_packets@[vi].0
                                ==> assoc_lookup(self.sent_packets@, k) == assoc_lookup(
                                old(self).sent_packets@,
                                k,
                            )));
                    }
                }
            },
        }
        self.total_packets_sent = sat_add_exec(self.total_packets_sent, 1);
        self.bytes_sent = sat_add_exec(self.bytes_sent, size as u64);
    }

    /// Evicts the in-flight packet with the most retries (oldest send time
    /// among ties), counting it as a loss.
    fn evict_worst_in_flight(&mut self)
        requires
            old(self).wf(),
            old(self).sent_packets@.len() >= 1,
        ensures
            final(self).wf(),
            final(self).sent_packets@.len() == old(self).sent_packets@.len() - 1,
            final(self).max_in_flight == old(self).max_in_flight,
            forall|k: u16| assoc_has(final(self).sent_packets@, k) ==> assoc_has(
                old(self).sent_packets@,
                k,
            ) && assoc_lookup(final(self).sent_packets@, k) == assoc_lookup(
                old(self).sent_packets@,
                k,
            ),
            exists|vi: int|
                0 <= vi < old(self).sent_packets@.len() && !assoc_has(
                    final(self).sent_packets@,
                    (#[trigger] old(self).sent_packets@[vi]).0,
                ) && (forall|j: int|
                    0 <= j < old(self).sent_packets@.len() ==> (
                    #[trigger] old(self).sent_packets@[j]).1.retry_count <= old(self).sent_packets@[vi].1.retry_count && (old(self).sent_packets@[j].1.retry_count
                        == old(self).sent_packets@[vi].1.retry_count ==> old(self).sent_packets@[j].1.send_time_ms >= old(self).sent_packets@[vi].1.send_time_ms)) && (
                forall|k: u16|
                    k != old(self).sent_packets@[vi].0 ==> assoc_lookup(
                        final(self).sent_packets@,
                        k,
                    ) == assoc_lookup(old(self).sent_packets@, k)),
            final(self).packets_evicted == sat_add(old(self).packets_evicted, 1),
            final(self).total_packets_lost == sat_add(old(self).total_packets_lost, 1),
            final(self).loss_window@ == old(self).loss_window@.update(
                old(self).loss_window_index as int,
                true,
            ),
            final(self).total_packets_sent == old(self).total_packets_sent,
            final(self).total_packets_acked == old(self).total_packets_acked,
            final(self).bytes_sent == old(self).bytes_sent,
            final(self).bytes_acked == old(self).bytes_acked,
            final(self).srtt_ms == old(self).srtt_ms,
            final(self).rttvar_ms == old(self).rttvar_ms,
            final(self).rto_ms == old(self).rto_ms,
            final(self).has_rtt_sample == old(self).has_rtt_sample,
            final(self).dup_ack_counts@ == old(self).dup_ack_counts@,
            final(self).max_retries == old(self).max_retries,
            final(self).remote_sequence == old(self).remote_sequence,
            final(self).ack_bits == old(self).ack_bits,
            final(self).local_sequence == old(self).local_sequence,
            final(self).received_history == old(self).received_history,
            final(self).received_any == old(self).received_any,
            final(self).received_packets == old(self).received_packets,
    {
        let mut worst: usize = 0;
        let mut i: usize = 1;
        let n = self.sent_packets.len();
        while i < n
            invariant
                1 <= i <= n,
                n == self.sent_packets@.len(),
                worst < i,
                *self == *old(self),
                forall|j: int| 0 <= j < i ==> (#[trigger] self.sent_packets@[j]).1.retry_count
                    <= self.sent_packets@[worst as int].1.retry_count && (
                self.sent_packets@[j].1.retry_count
                    == self.sent_packets@[worst as int].1.retry_count
                    ==> self.sent_packets@[j].1.send_time_ms
                    >= self.sent_packets@[worst as int].1.send_time_ms),
            decreases n - i,
        {
            let better = self.sent_packets[i].1.retry_count
                > self.sent_packets[worst].1.retry_count || (self.sent_packets[i].1.retry_count
                == self.sent_packets[worst].1.retry_count && self.sent_packets[i].1.send_time_ms
                < self.sent_packets[worst].1.send_time_ms);
            if better {
                worst = i;
            }
            i += 1;
        }
        proof {
            lemma_lookup_remove(self.sent_packets@, worst as int);
        }
        let ghost before = self.sent_packets@;
        self.sent_packets.remove(worst);
        proof {
            crate::assoc::lemma_lookup_some_iff_has(self.sent_packets@, before[worst as int].0);
            assert forall|k: u16| assoc_has(self.sent_packets@, k) implies assoc_has(before, k)
                && assoc_lookup(self.sent_packets@, k) == assoc_lookup(before, k) by {
                crate::assoc::lemma_lookup_some_iff_has(self.sent_packets@, k);
                crate::assoc::lemma_lookup_some_iff_has(before, k);
            }
            assert((worst as int) < before.len() && !assoc_has(
                self.sent_packets@,
                before[worst as int].0,
            ));
        }
        self.record_loss_sample(true);
        self.total_packets_lost = sat_add_exec(self.total_packets_lost, 1);
        self.packets_evicted = sat_add_exec(self.packets_evicted, 1);
    }

    /// Records one slot of the rolling loss window.
    pub fn record_loss_sample(&mut self, lost: bool)
        requires
            old(self).loss_window@.len() == LOSS_WINDOW_SIZE,
            old(self).loss_window_index < LOSS_WINDOW_SIZE,
            old(self).loss_window_count <= LOSS_WINDOW_SIZE,
        ensures
            final(self).loss_window@ == old(self).loss_window@.update(
                old(self).loss_window_index as int,
                lost,
            ),
            final(self).loss_window_index == (old(self).loss_window_index + 1) as int
                % (LOSS_WINDOW_SIZE as int),
            final(self).loss_window_count == (if old(self).loss_window_count < LOSS_WINDOW_SIZE {
                old(self).loss_window_count + 1
            } else {
                old(self).loss_window_count as int
            }),
            *final(self) == (ReliableEndpoint {
                loss_window: final(self).loss_window,
                loss_window_index: final(self).loss_window_index,
                loss_window_count: final(self).loss_window_count,
                ..*old(self)
            }),
    {
        self.loss_window[self.loss_window_index] = lost;
        self.loss_window_index = (self.loss_window_index + 1) % LOSS_WINDOW_SIZE;
        if self.loss_window_count < LOSS_WINDOW_SIZE {
            self.loss_window_count = self.loss_window_count + 1;
        }
    }

    /// Feeds one round-trip sample to the Jacobson/Karels estimator; the new
    /// estimate and timeout are exactly `spec_rtt_update` of the old.
    pub fn update_rtt(&mut self, sample_ms: u64)
        requires
            old(self).srtt_ms <= MAX_RTT_SAMPLE_MS,
            old(self).rttvar_ms <= MAX_RTT_SAMPLE_MS,
        ensures
            *final(self) == spec_rtt_update(*old(self), sample_ms),
            final(self).srtt_ms <= MAX_RTT_SAMPLE_MS,
            final(self).rttvar_ms <= MAX_RTT_SAMPLE_MS,
            MIN_RTO_MS <= final(self).rto_ms <= MAX_RTO_MS,
    {
        let s = if sample_ms > MAX_RTT_SAMPLE_MS {
            MAX_RTT_SAMPLE_MS
        } else {
            sample_ms
        };
        if !self.has_rtt_sample {
            self.srtt_ms = s;
            self.rttvar_ms = s / 2;
            self.has_rtt_sample = true;
        } else {
            let d = if s >= self.srtt_ms {
                s - self.srtt_ms
            } else {
                self.srtt_ms - s
            };
            self.rttvar_ms = (3 * self.rttvar_ms + d) / 4;
            self.srtt_ms = (7 * self.srtt_ms + s) / 8;
        }
        let raw = self.srtt_ms + 4 * self.rttvar_ms;
        self.rto_ms = if raw < MIN_RTO_MS {
            MIN_RTO_MS
        } else if raw > MAX_RTO_MS {
            MAX_RTO_MS
        } else {
            raw
        };
    }

    /// The current ack information to piggyback on outgoing packets.
    pub fn get_ack_info(&self) -> (r: (u16, u32))
        ensures
            r == (self.remote_sequence, self.ack_bits),
    {
        (self.remote_sequence, self.ack_bits)
    }

    /// The current adaptive retransmission timeout in milliseconds.
    pub fn rto(&self) -> (r: u64)
        ensures
            r == self.rto_ms,
    {
        self.rto_ms
    }

    /// The smoothed round-trip estimate in milliseconds.
    pub fn srtt(&self) -> (r: u64)
        ensures
            r == self.srtt_ms,
    {
        self.srtt_ms
    }

    /// Packet loss over the rolling window, in parts per thousand.
    pub fn packet_loss_permille(&self) -> (r: u32)
        requires
            self.loss_window@.len() == LOSS_WINDOW_SIZE,
            self.loss_window_count <= LOSS_WINDOW_SIZE,
        ensures
            r == spec_loss_permille(*self),
    {
        if self.loss_window_count == 0 {
            return 0;
        }
        let mut lost: u32 = 0;
        let mut i: usize = 0;
        while i < self.loss_window_count
            invariant
                i <= self.loss_window_count <= LOSS_WINDOW_SIZE,
                self.loss_window@.len() == LOSS_WINDOW_SIZE,
                lost == count_losses(self.loss_window@, i as int),
                lost <= i,
            decreases self.loss_window_count - i,
        {
            if self.loss_window[i] {
                lost = lost + 1;
            }
            i += 1;
        }
        (1000 * lost) / (self.loss_window_count as u32)
    }

    /// Packets currently awaiting acknowledgment.
    pub fn packets_in_flight(&self) -> (r: usize)
        ensures
            r == self.sent_packets@.len(),
    {
        self.sent_packets.len()
    }

    /// Packets dropped to keep the in-flight window under its cap.
    pub fn packets_evicted(&self) -> (r: u64)
        ensures
            r == self.packets_evicted,
    {
        self.packets_evicted
    }
}

/// Two integers at distance 0 or a full sequence space apart agree modulo
/// the sequence space.
proof fn lemma_mod65536_equal(a: int, b: int)
    requires
        a - b == 0 || a - b == 65536 || a - b == -65536,
    ensures
        a % 65536 == b % 65536,
{
    if a - b == 65536 {
        vstd::arithmetic::div_mod::lemma_mod_multiples_vanish(1, b, 65536);
    } else if a - b == -65536 {
        vstd::arithmetic::div_mod::lemma_mod_multiples_vanish(1, a, 65536);
    }
}

/// When `s` is `d` ahead of `base` in the circular space, stepping `d` back
/// from `s` lands on `base`, and stepping `j + 1` back from `s` is stepping
/// `j + 1 - d` back from `base`.
proof fn lemma_seq_sub_rel(base: u16, s: u16, d: int)
    requires
        d == diff_spec(s, base),
        1 <= d <= 32,
    ensures
        seq_sub(s, d as u32) == base,
        forall|j: u32| d <= j < 32 ==> #[trigger] seq_sub(s, (j + 1) as u32) == seq_sub(
            base,
            (j + 1 - d) as u32,
        ),
{
    let delta = s as int - base as int;
    assert(delta - d == 0 || delta - d == 65536 || delta - d == -65536);
    lemma_mod65536_equal(s as int - d, base as int);
    assert(base as int % 65536 == base as int) by {
        vstd::arithmetic::div_mod::lemma_small_mod(base as nat, 65536);
    }
    assert forall|j: u32| d <= j < 32 implies #[trigger] seq_sub(s, (j + 1) as u32) == seq_sub(
        base,
        (j + 1 - d) as u32,
    ) by {
        lemma_mod65536_equal(s as int - (j + 1), base as int - (j + 1 - d));
    }
}

/// Which bits can be set after the window shifts by `d` and the bit for the
/// previous newest sequence is set: the new bit `d - 1`, or an old bit moved
/// up by `d`.
proof fn lemma_bits_after_shift(ob: u32, d: u32, j: u32, jd: u32)
    requires
        1 <= d,
        d <= 31,
        j < 32,
        jd < 32,
        j >= d ==> j == d + jd,
    ensures
        ((ob << d) | (1u32 << (d - 1) as u32)) & (1u32 << j) != 0 ==> (j == d - 1 || (j >= d && (
        ob & (1u32 << jd)) != 0)),
{
    assert(((ob << d) | (1u32 << (d - 1) as u32)) & (1u32 << j) != 0 ==> (j == d - 1 || (j >= d
        && (ob & (1u32 << jd)) != 0))) by (bit_vector)
        requires
            1 <= d,
            d <= 31,
            j < 32,
            jd < 32,
            j >= d ==> j == d + jd,
    ;
}

/// Which bits can be set after setting bit `d - 1`: that bit, or a bit that
/// was already set.
proof fn lemma_bits_after_set(ob: u32, d: u32, j: u32)
    requires
        1 <= d,
        d <= 32,
        j < 32,
    ensures
        (ob | (1u32 << (d - 1) as u32)) & (1u32 << j) != 0 ==> (j == d - 1 || (ob & (1u32 << j))
            != 0),
{
    assert((ob | (1u32 << (d - 1) as u32)) & (1u32 << j) != 0 ==> (j == d - 1 || (ob & (1u32
        << j)) != 0)) by (bit_vector)
        requires
            1 <= d,
            d <= 32,
            j < 32,
    ;
}

/// The bitfield after the window advances by `d`: old bits shifted up, the
/// bit for the previous newest sequence set at position `d - 1`, everything
/// dropped once the jump clears the whole window.
pub open spec fn spec_shifted_bits(bits: u32, d: int) -> u32 {
    if 1 <= d <= 31 {
        (bits << (d as u32)) | (1u32 << ((d - 1) as u32))
    } else if d == 32 {
        1u32 << 31u32
    } else {
        0u32
    }
}

impl ReliableEndpoint {
    /// Processes an incoming packet's sequence number: records it, and
    /// updates the newest remote sequence and the ack bitfield. Sequences
    /// too far from the newest, and duplicates, are ignored. Every bit the
    /// endpoint then advertises still stands for a received sequence.
    pub fn on_packet_received(&mut self, sequence: u16, _recv_time_ms: u64)
        requires
            old(self).wf(),
        ensures
            final(self).wf(),
            final(self).sent_packets@ == old(self).sent_packets@,
            final(self).local_sequence == old(self).local_sequence,
            final(self).max_in_flight == old(self).max_in_flight,
            final(self).rto_ms == old(self).rto_ms,
            ({
                let d = diff_spec(sequence, old(self).remote_sequence);
                let dist_ok = (if d < 0 {
                    -d
                } else {
                    d
                }) <= old(self).max_sequence_distance as int;
                let accepted = dist_ok && old(self).received_packets.stored(sequence) is None;
                let kept_history = final(self).received_history == old(self).received_history;
                let grown_history = final(self).received_history@ == old(self).received_history@.insert(sequence);
                &&& (accepted ==> grown_history && final(self).received_packets.stored(sequence)
                    == Some(true) && final(self).received_any)
                &&& (accepted && !old(self).received_any ==> final(self).remote_sequence
                    == sequence && final(self).ack_bits == 0)
                &&& (accepted && old(self).received_any && greater_spec(
                    sequence,
                    old(self).remote_sequence,
                ) ==> final(self).remote_sequence == sequence && final(self).ack_bits
                    == spec_shifted_bits(old(self).ack_bits, d))
                &&& (accepted && old(self).received_any && !greater_spec(
                    sequence,
                    old(self).remote_sequence,
                ) ==> final(self).remote_sequence == old(self).remote_sequence && ({
                    let back = diff_spec(old(self).remote_sequence, sequence);
                    final(self).ack_bits == (if 1 <= back <= 32 {
                        old(self).ack_bits | (1u32 << ((back - 1) as u32))
                    } else {
                        old(self).ack_bits
                    })
                }))
                &&& (!accepted ==> kept_history && final(self).remote_sequence == old(self).remote_sequence && final(self).ack_bits == old(self).ack_bits && final(self).received_packets == old(self).received_packets)
            }),
    {
        let distance = sequence_diff(sequence, self.remote_sequence);
        let dist_abs: i32 = if distance < 0 {
            -distance
        } else {
            distance
        };
        if dist_abs > self.max_sequence_distance as i32 {
            return ;
        }
        if self.received_packets.contains(sequence) {
            return ;
        }
        self.received_packets.insert(sequence, true);
        self.received_history = Ghost(self.received_history@.insert(sequence));
        if !self.received_any {
            self.received_any = true;
            self.remote_sequence = sequence;
            self.ack_bits = 0;
            proof {
                lemma_zero_bits();
            }
        } else if sequence_greater_than(sequence, self.remote_sequence) {
            let d = sequence_diff(sequence, self.remote_sequence);
            let ghost ob = self.ack_bits;
            let ghost orold = self.remote_sequence;
            proof {
                crate::util::lemma_greater_iff_diff_positive(sequence, orold);
            }
            if d <= 31 {
                self.ack_bits = (self.ack_bits << (d as u32)) | (1u32 << ((d - 1) as u32));
            } else if d == 32 {
                self.ack_bits = 1u32 << 31u32;
            } else {
                self.ack_bits = 0;
                proof {
                    lemma_zero_bits();
                }
            }
            self.remote_sequence = sequence;
            proof {
                let dd = d as int;
                assert forall|i: u32|
                    i < 32 && (self.ack_bits & (1u32 << i)) != 0 implies self.received_history@
                    .contains(seq_sub(self.remote_sequence, (i + 1) as u32)) by {
                    if dd <= 31 {
                        let jd: u32 = if i >= d as u32 {
                            (i - d as u32) as u32
                        } else {
                            0u32
                        };
                        lemma_bits_after_shift(ob, d as u32, i, jd);
                        lemma_seq_sub_rel(orold, sequence, dd);
                        if i == d as u32 - 1 {
                            assert(seq_sub(sequence, (i + 1) as u32) == orold);
                        } else {
                            assert(i >= d as u32 && (ob & (1u32 << jd)) != 0);
                            assert(old(self).received_history@.contains(
                                seq_sub(orold, (jd + 1) as u32),
                            ));
                            assert(seq_sub(sequence, (i + 1) as u32) == seq_sub(
                                orold,
                                (i + 1 - dd) as u32,
                            ));
                        }
                    } else if dd == 32 {
                        lemma_bits_after_set(0u32, 32, i);
                        lemma_zero_bits();
                        let nb = self.ack_bits;
                        assert((0u32 | (1u32 << 31u32)) == nb) by (bit_vector)
                            requires
                                nb == 1u32 << 31u32,
                        ;
                        lemma_seq_sub_rel(orold, sequence, dd);
                        assert(i == 31);
                        assert(seq_sub(sequence, 32) == orold);
                    }
                }
            }
        } else {
            let d = sequence_diff(self.remote_sequence, sequence);
            let ghost ob = self.ack_bits;
            if d >= 1 && d <= 32 {
                self.ack_bits = self.ack_bits | (1u32 << ((d - 1) as u32));
                proof {
                    let dd = d as int;
                    assert forall|i: u32|
                        i < 32 && (self.ack_bits & (1u32 << i)) != 0 implies self
                        .received_history@.contains(
                        seq_sub(self.remote_sequence, (i + 1) as u32),
                    ) by {
                        lemma_bits_after_set(ob, d as u32, i);
                        if i == d as u32 - 1 {
                            lemma_seq_sub_rel(sequence, self.remote_sequence, dd);
                            assert(seq_sub(self.remote_sequence, (i + 1) as u32) == sequence);
                        }
                    }
                }
            }
        }
    }

    /// Retires one acknowledged sequence: removes it from the in-flight
    /// window, feeds the round-trip estimator for first transmissions
    /// (Karn's rule: retransmitted packets give no sample), and records a
    /// delivery in the loss window.
    fn ack_single(&mut self, sequence: u16, now_ms: u64) -> (r: Option<(u8, u16)>)
        requires
            old(self).wf(),
        ensures
            final(self).wf(),
            r is Some <==> assoc_has(old(self).sent_packets@, sequence),
            r matches Some(tag) ==> ({
                let rec = assoc_lookup(old(self).sent_packets@, sequence).unwrap();
                tag.0 == rec.channel_id && tag.1 == rec.channel_seq
            }),
            final(self).bytes_acked == (match assoc_lookup(old(self).sent_packets@, sequence) {
                Some(rec) => sat_add(old(self).bytes_acked, rec.size as u64),
                None => old(self).bytes_acked,
            }),
            total_in_flight_bytes(final(self).sent_packets@) == total_in_flight_bytes(
                old(self).sent_packets@,
            ) - (match assoc_lookup(old(self).sent_packets@, sequence) {
                Some(rec) => rec.size as int,
                None => 0int,
            }),
            (assoc_has(old(self).sent_packets@, sequence) ==> final(self).loss_window@ == old(self).loss_window@.update(old(self).loss_window_index as int, false) && final(self).loss_window_index == (old(self).loss_window_index + 1) as int % (
            LOSS_WINDOW_SIZE as int) && final(self).loss_window_count == (if old(self).loss_window_count < LOSS_WINDOW_SIZE {
                old(self).loss_window_count + 1
            } else {
                old(self).loss_window_count as int
            })),
            (!assoc_has(old(self).sent_packets@, sequence) ==> final(self).loss_window@ == old(self).loss_window@ && final(self).loss_window_index == old(self).loss_window_index
                && final(self).loss_window_count == old(self).loss_window_count),
            !assoc_has(final(self).sent_packets@, sequence),
            forall|k: u16| k != sequence ==> assoc_lookup(final(self).sent_packets@, k)
                == assoc_lookup(old(self).sent_packets@, k),
            final(self).sent_packets@.len() == old(self).sent_packets@.len() - (if assoc_has(
                old(self).sent_packets@,
                sequence,
            ) {
                1int
            } else {
                0int
            }),
            final(self).total_packets_acked == (if assoc_has(old(self).sent_packets@, sequence) {
                sat_add(old(self).total_packets_acked, 1)
            } else {
                old(self).total_packets_acked
            }),
            !assoc_has(final(self).dup_ack_counts@, sequence),
            forall|k: u16| k != sequence ==> assoc_lookup(final(self).dup_ack_counts@, k)
                == assoc_lookup(old(self).dup_ack_counts@, k),
            ({
                let retired_first = match assoc_lookup(old(self).sent_packets@, sequence) {
                    Some(rec) => rec.retry_count == 0,
                    None => false,
                };
                &&& (!retired_first ==> final(self).srtt_ms == old(self).srtt_ms && final(self).rttvar_ms == old(self).rttvar_ms && final(self).rto_ms == old(self).rto_ms
                    && final(self).has_rtt_sample == old(self).has_rtt_sample)
                &&& (retired_first ==> ({
                    let rec = assoc_lookup(old(self).sent_packets@, sequence).unwrap();
                    let sample = if now_ms >= rec.send_time_ms {
                        (now_ms - rec.send_time_ms) as u64
                    } else {
                        0u64
                    };
                    let e2 = spec_rtt_update(*old(self), sample);
                    final(self).srtt_ms == e2.srtt_ms && final(self).rttvar_ms == e2.rttvar_ms
                        && final(self).rto_ms == e2.rto_ms && final(self).has_rtt_sample
                }))
            }),
            final(self).remote_sequence == old(self).remote_sequence,
            final(self).ack_bits == old(self).ack_bits,
            final(self).local_sequence == old(self).local_sequence,
            final(self).received_any == old(self).received_any,
            final(self).received_history == old(self).received_history,
            final(self).received_packets == old(self).received_packets,
            final(self).max_in_flight == old(self).max_in_flight,
            final(self).max_retries == old(self).max_retries,
    {
        let released: Option<(u8, u16)>;
        match assoc_find(&self.sent_packets, sequence) {
            Some(idx) => {
                proof {
                    crate::assoc::lemma_lookup_at_index(self.sent_packets@, idx as int);
                    lemma_lookup_remove(self.sent_packets@, idx as int);
                    lemma_total_bytes_remove(self.sent_packets@, idx as int);
                    crate::assoc::lemma_lookup_some_iff_has(
                        self.sent_packets@.remove(idx as int),
                        sequence,
                    );
                    crate::assoc::lemma_lookup_some_iff_has(self.sent_packets@, sequence);
                }
                let entry = self.sent_packets.remove(idx);
                let rec = entry.1;
                if rec.retry_count == 0 {
                    let sample = if now_ms >= rec.send_time_ms {
                        now_ms - rec.send_time_ms
                    } else {
                        0
                    };
                    self.update_rtt(sample);
                }
                self.total_packets_acked = sat_add_exec(self.total_packets_acked, 1);
                self.bytes_acked = sat_add_exec(self.bytes_acked, rec.size as u64);
                self.record_loss_sample(false);
                released = Some((rec.channel_id, rec.channel_seq));
            },
            None => {
                proof {
                    crate::assoc::lemma_lookup_some_iff_has(self.sent_packets@, sequence);
                }
                released = None;
            },
        }
        match assoc_find(&self.dup_ack_counts, sequence) {
            Some(idx) => {
                proof {
                    lemma_lookup_remove(self.dup_ack_counts@, idx as int);
                    crate::assoc::lemma_lookup_some_iff_has(
                        self.dup_ack_counts@.remove(idx as int),
                        sequence,
                    );
                    assert(self.dup_ack_counts@[idx as int].0 == sequence);
                }
                let _ = self.dup_ack_counts.remove(idx);
            },
            None => {
                proof {
                    crate::assoc::lemma_lookup_some_iff_has(self.dup_ack_counts@, sequence);
                }
            },
        }
        released
    }

    /// Consumes the peer's acknowledgment word: retires the directly acked
    /// sequence and every sequence a set bit stands for. Afterwards none of
    /// them is in flight, and every packet still in flight is unchanged. The
    /// result reports each retired packet's `(channel_id, channel_seq)` tag,
    /// one entry per retirement, so the owning channel can release its slot.
    pub fn process_acks(&mut self, ack: u16, ack_bits: u32, now_ms: u64) -> (released: Vec<
        (u8, u16),
    >)
        requires
            old(self).wf(),
        ensures
            final(self).wf(),
            released@.len() == old(self).sent_packets@.len() - final(self).sent_packets@.len(),
            forall|j: int|
                0 <= j < old(self).sent_packets@.len() && !assoc_has(
                    final(self).sent_packets@,
                    (#[trigger] old(self).sent_packets@[j]).0,
                ) ==> released@.contains(
                    (old(self).sent_packets@[j].1.channel_id, old(self).sent_packets@[j].1.channel_seq),
                ),
            forall|qi: int|
                0 <= qi < released@.len() ==> released_tag_of(
                    #[trigger] released@[qi],
                    old(self).sent_packets@,
                    final(self).sent_packets@,
                ),
            old(self).bytes_acked + total_in_flight_bytes(old(self).sent_packets@) <= u64::MAX
                ==> final(self).bytes_acked == old(self).bytes_acked + (total_in_flight_bytes(
                old(self).sent_packets@,
            ) - total_in_flight_bytes(final(self).sent_packets@)),
            (final(self).loss_window@, final(self).loss_window_index as int) == samples_recorded(
                old(self).loss_window@,
                old(self).loss_window_index as int,
                old(self).sent_packets@.len() - final(self).sent_packets@.len(),
                false,
            ),
            final(self).loss_window_count == count_after_samples(
                old(self).loss_window_count as int,
                old(self).sent_packets@.len() - final(self).sent_packets@.len(),
            ),
            (match assoc_lookup(old(self).sent_packets@, ack) {
                Some(rec) => rec.retry_count == 0 && (forall|i: u32|
                    i < 32 && (ack_bits & (1u32 << i)) != 0 ==> !assoc_has(
                        old(self).sent_packets@,
                        seq_sub(ack, (i + 1) as u32),
                    )),
                None => false,
            }) ==> ({
                let rec = assoc_lookup(old(self).sent_packets@, ack).unwrap();
                let sample = if now_ms >= rec.send_time_ms {
                    (now_ms - rec.send_time_ms) as u64
                } else {
                    0u64
                };
                let e2 = spec_rtt_update(*old(self), sample);
                final(self).srtt_ms == e2.srtt_ms && final(self).rttvar_ms == e2.rttvar_ms
                    && final(self).rto_ms == e2.rto_ms && final(self).has_rtt_sample
            }),
            !assoc_has(final(self).sent_packets@, ack),
            forall|i: u32| i < 32 && (ack_bits & (1u32 << i)) != 0 ==> !assoc_has(
                final(self).sent_packets@,
                seq_sub(ack, (i + 1) as u32),
            ),
            final(self).sent_packets@.len() <= old(self).sent_packets@.len(),
            forall|k: u16| assoc_has(final(self).sent_packets@, k) ==> assoc_lookup(
                final(self).sent_packets@,
                k,
            ) == assoc_lookup(old(self).sent_packets@, k),
            old(self).total_packets_acked + old(self).sent_packets@.len() <= u64::MAX ==> final(self).total_packets_acked == old(self).total_packets_acked + (
            old(self).sent_packets@.len() - final(self).sent_packets@.len()),
            !assoc_has(final(self).dup_ack_counts@, ack),
            forall|i: u32| i < 32 && (ack_bits & (1u32 << i)) != 0 ==> !assoc_has(
                final(self).dup_ack_counts@,
                seq_sub(ack, (i + 1) as u32),
            ),
            forall|k: u16| assoc_has(final(self).dup_ack_counts@, k) ==> assoc_lookup(
                final(self).dup_ack_counts@,
                k,
            ) == assoc_lookup(old(self).dup_ack_counts@, k),
            (forall|j: int|
                0 <= j < old(self).sent_packets@.len() ==> (
                #[trigger] old(self).sent_packets@[j]).1.retry_count > 0) ==> (final(self).srtt_ms
                == old(self).srtt_ms && final(self).rttvar_ms == old(self).rttvar_ms && final(self).rto_ms == old(self).rto_ms && final(self).has_rtt_sample == old(self).has_rtt_sample),
            final(self).remote_sequence == old(self).remote_sequence,
            final(self).ack_bits == old(self).ack_bits,
            final(self).local_sequence == old(self).local_sequence,
            final(self).received_history == old(self).received_history,
            final(self).max_in_flight == old(self).max_in_flight,
    {
        let mut released: Vec<(u8, u16)> = Vec::new();
        let ghost sp0 = old(self).sent_packets@;
        let ghost w0 = old(self).loss_window@;
        let ghost wi0 = old(self).loss_window_index as int;
        let ghost wc0 = old(self).loss_window_count as int;
        let ghost karn = forall|j: int|
            0 <= j < old(self).sent_packets@.len() ==> (
            #[trigger] old(self).sent_packets@[j]).1.retry_count > 0;
        let ghost pos = match assoc_lookup(sp0, ack) {
            Some(rec) => rec.retry_count == 0 && (forall|i2: u32|
                i2 < 32 && (ack_bits & (1u32 << i2)) != 0 ==> !assoc_has(
                    sp0,
                    seq_sub(ack, (i2 + 1) as u32),
                )),
            None => false,
        };
        let ghost epos = ({
            let rec = assoc_lookup(sp0, ack).unwrap();
            let sample = if now_ms >= rec.send_time_ms {
                (now_ms - rec.send_time_ms) as u64
            } else {
                0u64
            };
            spec_rtt_update(*old(self), sample)
        });
        proof {
            crate::assoc::lemma_lookup_some_iff_has(self.sent_packets@, ack);
            lemma_total_bytes_nonneg(sp0);
            if assoc_has(self.sent_packets@, ack) {
                crate::assoc::lemma_lookup_index_of(self.sent_packets@, ack);
                let j = choose|j: int|
                    0 <= j < self.sent_packets@.len() && (#[trigger] self.sent_packets@[j]).0
                        == ack && self.sent_packets@[j].1 == assoc_lookup(
                        self.sent_packets@,
                        ack,
                    ).unwrap();
                if karn {
                    assert(old(self).sent_packets@[j].1.retry_count > 0);
                    assert(assoc_lookup(self.sent_packets@, ack).unwrap().retry_count > 0);
                }
                lemma_total_bytes_remove(sp0, j);
                lemma_total_bytes_nonneg(sp0.remove(j));
                assert(assoc_lookup(sp0, ack).unwrap().size <= total_in_flight_bytes(sp0));
            }
        }
        let first = self.ack_single(ack, now_ms);
        match first {
            Some(tag) => {
                released.push(tag);
            },
            None => {},
        }
        proof {
            assert forall|k: u16| assoc_has(self.sent_packets@, k) implies assoc_lookup(
                self.sent_packets@,
                k,
            ) == assoc_lookup(old(self).sent_packets@, k) by {
                crate::assoc::lemma_lookup_some_iff_has(self.sent_packets@, k);
            }
            assert forall|k: u16| assoc_has(self.dup_ack_counts@, k) implies assoc_lookup(
                self.dup_ack_counts@,
                k,
            ) == assoc_lookup(old(self).dup_ack_counts@, k) by {
                crate::assoc::lemma_lookup_some_iff_has(self.dup_ack_counts@, k);
            }
            assert forall|j: int|
                0 <= j < sp0.len() && !assoc_has(
                    self.sent_packets@,
                    (#[trigger] sp0[j]).0,
                ) implies released@.contains((sp0[j].1.channel_id, sp0[j].1.channel_seq)) by {
                let key = sp0[j].0;
                crate::assoc::lemma_lookup_some_iff_has(self.sent_packets@, key);
                crate::assoc::lemma_lookup_some_iff_has(sp0, key);
                assert(assoc_has(sp0, key));
                if key == ack {
                    crate::assoc::lemma_lookup_at_index(sp0, j);
                    assert(released@[0] == (sp0[j].1.channel_id, sp0[j].1.channel_seq));
                }
            }
            assert forall|qi: int| 0 <= qi < released@.len() implies released_tag_of(
                #[trigger] released@[qi],
                sp0,
                self.sent_packets@,
            ) by {
                if released@.len() > 0 {
                    crate::assoc::lemma_lookup_index_of(sp0, ack);
                    let j = choose|j: int|
                        0 <= j < sp0.len() && (#[trigger] sp0[j]).0 == ack && sp0[j].1
                            == assoc_lookup(sp0, ack).unwrap();
                    assert(!assoc_has(self.sent_packets@, sp0[j].0));
                    assert(released@[qi] == (sp0[j].1.channel_id, sp0[j].1.channel_seq));
                    assert(released_tag_of(released@[qi], sp0, self.sent_packets@));
                }
            }
            assert(samples_recorded(w0, wi0, 0, false) == (w0, wi0));
            assert(samples_recorded(w0, wi0, 1, false) == (
                w0.update(wi0, false),
                (wi0 + 1) % (LOSS_WINDOW_SIZE as int),
            ));
        }
        let mut i: u32 = 0;
        while i < 32
            invariant
                i <= 32,
                self.wf(),
                !assoc_has(self.sent_packets@, ack),
                forall|i2: u32| i2 < i && (ack_bits & (1u32 << i2)) != 0 ==> !assoc_has(
                    self.sent_packets@,
                    seq_sub(ack, (i2 + 1) as u32),
                ),
                self.sent_packets@.len() <= old(self).sent_packets@.len(),
                forall|k: u16| assoc_has(self.sent_packets@, k) ==> assoc_lookup(
                    self.sent_packets@,
                    k,
                ) == assoc_lookup(old(self).sent_packets@, k),
                karn == (forall|j: int|
                    0 <= j < old(self).sent_packets@.len() ==> (
                    #[trigger] old(self).sent_packets@[j]).1.retry_count > 0),
                sp0 == old(self).sent_packets@,
                assoc_unique(sp0),
                w0 == old(self).loss_window@,
                wi0 == old(self).loss_window_index as int,
                wc0 == old(self).loss_window_count as int,
                pos == (match assoc_lookup(sp0, ack) {
                    Some(rec) => rec.retry_count == 0 && (forall|i2: u32|
                        i2 < 32 && (ack_bits & (1u32 << i2)) != 0 ==> !assoc_has(
                            sp0,
                            seq_sub(ack, (i2 + 1) as u32),
                        )),
                    None => false,
                }),
                epos == ({
                    let rec = assoc_lookup(sp0, ack).unwrap();
                    let sample = if now_ms >= rec.send_time_ms {
                        (now_ms - rec.send_time_ms) as u64
                    } else {
                        0u64
                    };
                    spec_rtt_update(*old(self), sample)
                }),
                pos ==> (self.srtt_ms == epos.srtt_ms && self.rttvar_ms == epos.rttvar_ms
                    && self.rto_ms == epos.rto_ms && self.has_rtt_sample),
                released@.len() == sp0.len() - self.sent_packets@.len(),
                forall|j: int|
                    0 <= j < sp0.len() && !assoc_has(self.sent_packets@, (#[trigger] sp0[j]).0)
                        ==> released@.contains((sp0[j].1.channel_id, sp0[j].1.channel_seq)),
                forall|qi: int|
                    0 <= qi < released@.len() ==> released_tag_of(
                        #[trigger] released@[qi],
                        sp0,
                        self.sent_packets@,
                    ),
                old(self).bytes_acked + total_in_flight_bytes(sp0) <= u64::MAX
                    ==> self.bytes_acked == old(self).bytes_acked + (total_in_flight_bytes(sp0)
                    - total_in_flight_bytes(self.sent_packets@)),
                (self.loss_window@, self.loss_window_index as int) == samples_recorded(
                    w0,
                    wi0,
                    sp0.len() - self.sent_packets@.len(),
                    false,
                ),
                self.loss_window_count == count_after_samples(
                    wc0,
                    sp0.len() - self.sent_packets@.len(),
                ),
                old(self).total_packets_acked + old(self).sent_packets@.len() <= u64::MAX
                    ==> self.total_packets_acked == old(self).total_packets_acked + (
                old(self).sent_packets@.len() - self.sent_packets@.len()),
                !assoc_has(self.dup_ack_counts@, ack),
                forall|i2: u32| i2 < i && (ack_bits & (1u32 << i2)) != 0 ==> !assoc_has(
                    self.dup_ack_counts@,
                    seq_sub(ack, (i2 + 1) as u32),
                ),
                forall|k: u16| assoc_has(self.dup_ack_counts@, k) ==> assoc_lookup(
                    self.dup_ack_counts@,
                    k,
                ) == assoc_lookup(old(self).dup_ack_counts@, k),
                karn ==> (self.srtt_ms == old(self).srtt_ms && self.rttvar_ms == old(self).rttvar_ms && self.rto_ms == old(self).rto_ms && self.has_rtt_sample == old(self).has_rtt_sample),
                self.remote_sequence == old(self).remote_sequence,
                self.ack_bits == old(self).ack_bits,
                self.local_sequence == old(self).local_sequence,
                self.received_history == old(self).received_history,
                self.max_in_flight == old(self).max_in_flight,
            decreases 32 - i,
        {
            if (ack_bits & (1u32 << i)) != 0 {
                let acked = seq_sub_exec(ack, i + 1);
                let ghost prev = self.sent_packets@;
                let ghost prev_dup = self.dup_ack_counts@;
                let ghost prev_released = released@;
                proof {
                    crate::assoc::lemma_lookup_some_iff_has(self.sent_packets@, acked);
                    if karn && assoc_has(self.sent_packets@, acked) {
                        crate::assoc::lemma_lookup_index_of(old(self).sent_packets@, acked);
                        let j = choose|j: int|
                            0 <= j < old(self).sent_packets@.len() && (
                            #[trigger] old(self).sent_packets@[j]).0 == acked && old(self).sent_packets@[j].1 == assoc_lookup(
                                old(self).sent_packets@,
                                acked,
                            ).unwrap();
                        assert(old(self).sent_packets@[j].1.retry_count > 0);
                        assert(assoc_lookup(self.sent_packets@, acked).unwrap().retry_count
                            > 0);
                    }
                    if assoc_has(prev, acked) {
                        crate::assoc::lemma_lookup_index_of(prev, acked);
                        let jp = choose|jp: int|
                            0 <= jp < prev.len() && (#[trigger] prev[jp]).0 == acked
                                && prev[jp].1 == assoc_lookup(prev, acked).unwrap();
                        lemma_total_bytes_remove(prev, jp);
                        lemma_total_bytes_nonneg(prev.remove(jp));
                        assert(assoc_lookup(prev, acked).unwrap().size
                            <= total_in_flight_bytes(prev));
                    }
                    lemma_total_bytes_nonneg(prev);
                    if pos {
                        assert(!assoc_has(sp0, seq_sub(ack, (i + 1) as u32)));
                        if assoc_has(prev, acked) {
                            crate::assoc::lemma_lookup_some_iff_has(sp0, acked);
                            assert(false);
                        }
                    }
                }
                let out = self.ack_single(acked, now_ms);
                match out {
                    Some(tag) => {
                        released.push(tag);
                    },
                    None => {},
                }
                proof {
                    let ghost m = sp0.len() - prev.len();
                    assert(samples_recorded(w0, wi0, m + 1, false) == (
                        samples_recorded(w0, wi0, m, false).0.update(
                            samples_recorded(w0, wi0, m, false).1,
                            false,
                        ),
                        (samples_recorded(w0, wi0, m, false).1 + 1) % (LOSS_WINDOW_SIZE as int),
                    ));
                    assert forall|j: int|
                        0 <= j < sp0.len() && !assoc_has(
                            self.sent_packets@,
                            (#[trigger] sp0[j]).0,
                        ) implies released@.contains(
                        (sp0[j].1.channel_id, sp0[j].1.channel_seq),
                    ) by {
                        let key = sp0[j].0;
                        crate::assoc::lemma_lookup_some_iff_has(self.sent_packets@, key);
                        crate::assoc::lemma_lookup_some_iff_has(prev, key);
                        crate::assoc::lemma_lookup_some_iff_has(sp0, key);
                        if assoc_has(prev, key) {
                            assert(key == acked);
                            crate::assoc::lemma_lookup_at_index(sp0, j);
                            assert(assoc_lookup(prev, key) == assoc_lookup(sp0, key));
                            assert(released@[released@.len() - 1] == (
                                sp0[j].1.channel_id,
                                sp0[j].1.channel_seq,
                            ));
                        } else {
                            let t = choose|t: int|
                                0 <= t < prev_released.len() && prev_released[t] == (
                                sp0[j].1.channel_id,
                                sp0[j].1.channel_seq,
                            );
                            assert(released@[t] == (
                                sp0[j].1.channel_id,
                                sp0[j].1.channel_seq,
                            ));
                        }
                    }
                    assert forall|qi: int| 0 <= qi < released@.len() implies released_tag_of(
                        #[trigger] released@[qi],
                        sp0,
                        self.sent_packets@,
                    ) by {
                        if qi < prev_released.len() {
                            assert(released_tag_of(prev_released[qi], sp0, prev));
                            let j = choose|j: int|
                                0 <= j < sp0.len() && !assoc_has(prev, (#[trigger] sp0[j]).0)
                                    && prev_released[qi] == (
                                sp0[j].1.channel_id,
                                sp0[j].1.channel_seq,
                            );
                            crate::assoc::lemma_lookup_some_iff_has(
                                self.sent_packets@,
                                sp0[j].0,
                            );
                            crate::assoc::lemma_lookup_some_iff_has(prev, sp0[j].0);
                            assert(!assoc_has(self.sent_packets@, sp0[j].0));
                            assert(released@[qi] == (
                                sp0[j].1.channel_id,
                                sp0[j].1.channel_seq,
                            ));
                            assert(released_tag_of(released@[qi], sp0, self.sent_packets@));
                        } else {
                            crate::assoc::lemma_lookup_some_iff_has(prev, acked);
                            crate::assoc::lemma_lookup_index_of(sp0, acked);
                            let j = choose|j: int|
                                0 <= j < sp0.len() && (#[trigger] sp0[j]).0 == acked
                                    && sp0[j].1 == assoc_lookup(sp0, acked).unwrap();
                            assert(!assoc_has(self.sent_packets@, sp0[j].0));
                            assert(released@[qi] == (
                                sp0[j].1.channel_id,
                                sp0[j].1.channel_seq,
                            ));
                            assert(released_tag_of(released@[qi], sp0, self.sent_packets@));
                        }
                    }
                    assert forall|i2: u32|
                        i2 < i + 1 && (ack_bits & (1u32 << i2)) != 0 implies !assoc_has(
                        self.dup_ack_counts@,
                        seq_sub(ack, (i2 + 1) as u32),
                    ) by {
                        let key = seq_sub(ack, (i2 + 1) as u32);
                        crate::assoc::lemma_lookup_some_iff_has(self.dup_ack_counts@, key);
                        crate::assoc::lemma_lookup_some_iff_has(prev_dup, key);
                    }
                    assert(!assoc_has(self.dup_ack_counts@, ack)) by {
                        crate::assoc::lemma_lookup_some_iff_has(self.dup_ack_counts@, ack);
                        crate::assoc::lemma_lookup_some_iff_has(prev_dup, ack);
                    }
                    assert forall|k: u16|
                        assoc_has(self.dup_ack_counts@, k) implies assoc_lookup(
                        self.dup_ack_counts@,
                        k,
                    ) == assoc_lookup(old(self).dup_ack_counts@, k) by {
                        crate::assoc::lemma_lookup_some_iff_has(self.dup_ack_counts@, k);
                        crate::assoc::lemma_lookup_some_iff_has(prev_dup, k);
                    }
                    assert forall|i2: u32|
                        i2 < i + 1 && (ack_bits & (1u32 << i2)) != 0 implies !assoc_has(
                        self.sent_packets@,
                        seq_sub(ack, (i2 + 1) as u32),
                    ) by {
                        let key = seq_sub(ack, (i2 + 1) as u32);
                        crate::assoc::lemma_lookup_some_iff_has(self.sent_packets@, key);
                        crate::assoc::lemma_lookup_some_iff_has(prev, key);
                    }
                    assert(!assoc_has(self.sent_packets@, ack)) by {
                        crate::assoc::lemma_lookup_some_iff_has(self.sent_packets@, ack);
                        crate::assoc::lemma_lookup_some_iff_has(prev, ack);
                    }
                    assert forall|k: u16| assoc_has(self.sent_packets@, k) implies assoc_lookup(
                        self.sent_packets@,
                        k,
                    ) == assoc_lookup(old(self).sent_packets@, k) by {
                        crate::assoc::lemma_lookup_some_iff_has(self.sent_packets@, k);
                        crate::assoc::lemma_lookup_some_iff_has(prev, k);
                    }
                }
            }
            i += 1;
        }
        released
    }

    /// Counts a duplicate acknowledgment of a sequence; on the third the
    /// packet is retransmitted immediately: its timer resets, its retry
    /// count rises, and a copy of its bytes is returned for the send path.
    pub fn on_duplicate_ack(&mut self, sequence: u16, now_ms: u64) -> (r: Option<(u16, Vec<u8>)>)
        requires
            old(self).wf(),
        ensures
            final(self).wf(),
            ({
                let old_count = match assoc_lookup(old(self).dup_ack_counts@, sequence) {
                    Some(c) => c,
                    None => 0u32,
                };
                let new_count = if old_count == u32::MAX {
                    old_count
                } else {
                    (old_count + 1) as u32
                };
                &&& assoc_lookup(final(self).dup_ack_counts@, sequence) == Some(new_count)
                &&& (forall|k: u16| k != sequence ==> assoc_lookup(final(self).dup_ack_counts@, k)
                    == assoc_lookup(old(self).dup_ack_counts@, k))
                &&& (r is Some <==> new_count == FAST_RETRANSMIT_THRESHOLD && assoc_has(
                    old(self).sent_packets@,
                    sequence,
                ))
                &&& (r matches Some(item) ==> item.0 == sequence && (match assoc_lookup(
                    old(self).sent_packets@,
                    sequence,
                ) {
                    Some(rec) => item.1@ == rec.data@ && (match assoc_lookup(
                        final(self).sent_packets@,
                        sequence,
                    ) {
                        Some(nrec) => nrec.send_time_ms == now_ms && nrec.retry_count == (if
                        rec.retry_count == u32::MAX {
                            rec.retry_count
                        } else {
                            (rec.retry_count + 1) as u32
                        }) && nrec.data@ == rec.data@ && nrec.size == rec.size
                            && nrec.channel_id == rec.channel_id && nrec.channel_seq
                            == rec.channel_seq,
                        None => false,
                    }),
                    None => false,
                }))
                &&& (r is Some ==> forall|k: u16|
                    k != sequence ==> assoc_lookup(final(self).sent_packets@, k) == assoc_lookup(
                        old(self).sent_packets@,
                        k,
                    ))
                &&& (r is None ==> final(self).sent_packets@ == old(self).sent_packets@)
            }),
            final(self).sent_packets@.len() == old(self).sent_packets@.len(),
            final(self).remote_sequence == old(self).remote_sequence,
            final(self).ack_bits == old(self).ack_bits,
            final(self).local_sequence == old(self).local_sequence,
            final(self).received_history == old(self).received_history,
            final(self).max_in_flight == old(self).max_in_flight,
            final(self).srtt_ms == old(self).srtt_ms,
            final(self).rto_ms == old(self).rto_ms,
    {
        let count: u32;
        match assoc_find(&self.dup_ack_counts, sequence) {
            Some(idx) => {
                let c = self.dup_ack_counts[idx].1;
                let nc = if c == u32::MAX {
                    c
                } else {
                    c + 1
                };
                proof {
                    crate::assoc::lemma_lookup_at_index(self.dup_ack_counts@, idx as int);
                    lemma_lookup_update(self.dup_ack_counts@, idx as int, nc);
                    assert(self.dup_ack_counts@[idx as int].0 == sequence);
                }
                self.dup_ack_counts[idx] = (sequence, nc);
                count = nc;
            },
            None => {
                proof {
                    crate::assoc::lemma_lookup_some_iff_has(self.dup_ack_counts@, sequence);
                    lemma_lookup_push(self.dup_ack_counts@, sequence, 1u32);
                }
                self.dup_ack_counts.push((sequence, 1));
                count = 1;
            },
        }
        if count == FAST_RETRANSMIT_THRESHOLD {
            match assoc_find(&self.sent_packets, sequence) {
                Some(idx) => {
                    proof {
                        crate::assoc::lemma_lookup_at_index(self.sent_packets@, idx as int);
                    }
                    let retry = self.sent_packets[idx].1.retry_count;
                    let nretry = if retry == u32::MAX {
                        retry
                    } else {
                        retry + 1
                    };
                    let size = self.sent_packets[idx].1.size;
                    let chid = self.sent_packets[idx].1.channel_id;
                    let chseq = self.sent_packets[idx].1.channel_seq;
                    let data_out = copy_bytes(&self.sent_packets[idx].1.data);
                    let data_keep = copy_bytes(&self.sent_packets[idx].1.data);
                    let nrec = SentPacketData {
                        send_time_ms: now_ms,
                        retry_count: nretry,
                        data: data_keep,
                        size,
                        channel_id: chid,
                        channel_seq: chseq,
                    };
                    proof {
                        lemma_lookup_update(self.sent_packets@, idx as int, nrec);
                        assert(self.sent_packets@[idx as int].0 == sequence);
                    }
                    self.sent_packets[idx] = (sequence, nrec);
                    proof {
                        crate::assoc::lemma_lookup_some_iff_has(self.sent_packets@, sequence);
                    }
                    Some((sequence, data_out))
                },
                None => {
                    proof {
                        crate::assoc::lemma_lookup_some_iff_has(self.sent_packets@, sequence);
                    }
                    None
                },
            }
        } else {
            proof {
                crate::assoc::lemma_lookup_some_iff_has(self.sent_packets@, sequence);
            }
            None
        }
    }

    /// Scans the in-flight window at time `now_ms`. A packet whose backed-off
    /// timeout has elapsed is retransmitted (timer reset, retry count up, a
    /// copy of its bytes queued) or, once out of retries, dropped as lost;
    /// everything else stays exactly as it was.
    pub fn update(&mut self, now_ms: u64) -> (r: RetransmitQueue)
        requires
            old(self).wf(),
        ensures
            final(self).wf(),
            final(self).sent_packets@.len() <= old(self).sent_packets@.len(),
            forall|k: u16|
                match #[trigger] assoc_lookup(old(self).sent_packets@, k) {
                    None => !assoc_has(final(self).sent_packets@, k),
                    Some(rec) => if !retransmit_due(rec, now_ms, old(self).rto_ms) {
                        assoc_lookup(final(self).sent_packets@, k) == Some(rec)
                    } else if rec.retry_count >= old(self).max_retries {
                        !assoc_has(final(self).sent_packets@, k)
                    } else {
                        (match assoc_lookup(final(self).sent_packets@, k) {
                            Some(nrec) => nrec.send_time_ms == now_ms && nrec.retry_count
                                == rec.retry_count + 1 && nrec.data@ == rec.data@ && nrec.size
                                == rec.size && nrec.channel_id == rec.channel_id
                                && nrec.channel_seq == rec.channel_seq,
                            None => false,
                        }) && queue_has(retransmit_entries(r), k, rec.data@)
                    },
                },
            forall|qi: int|
                0 <= qi < retransmit_entries(r).len() ==> (match assoc_lookup(
                    old(self).sent_packets@,
                    (#[trigger] retransmit_entries(r)[qi]).0,
                ) {
                    Some(rec) => retransmit_due(rec, now_ms, old(self).rto_ms)
                        && rec.retry_count < old(self).max_retries && retransmit_entries(
                        r,
                    )[qi].1@ == rec.data@,
                    None => false,
                }),
            forall|qi: int, qj: int|
                0 <= qi < qj < retransmit_entries(r).len() ==> (
                #[trigger] retransmit_entries(r)[qi]).0 != (
                #[trigger] retransmit_entries(r)[qj]).0,
            old(self).total_packets_lost + old(self).sent_packets@.len() <= u64::MAX ==> final(self).total_packets_lost == old(self).total_packets_lost + (
            old(self).sent_packets@.len() - final(self).sent_packets@.len()),
            (final(self).loss_window@, final(self).loss_window_index as int) == samples_recorded(
                old(self).loss_window@,
                old(self).loss_window_index as int,
                old(self).sent_packets@.len() - final(self).sent_packets@.len(),
                true,
            ),
            final(self).loss_window_count == count_after_samples(
                old(self).loss_window_count as int,
                old(self).sent_packets@.len() - final(self).sent_packets@.len(),
            ),
            final(self).remote_sequence == old(self).remote_sequence,
            final(self).ack_bits == old(self).ack_bits,
            final(self).local_sequence == old(self).local_sequence,
            final(self).received_history == old(self).received_history,
            final(self).max_in_flight == old(self).max_in_flight,
            final(self).rto_ms == old(self).rto_ms,
            final(self).srtt_ms == old(self).srtt_ms,
            final(self).rttvar_ms == old(self).rttvar_ms,
            final(self).has_rtt_sample == old(self).has_rtt_sample,
            final(self).total_packets_sent == old(self).total_packets_sent,
            final(self).total_packets_acked == old(self).total_packets_acked,
            final(self).bytes_sent == old(self).bytes_sent,
            final(self).bytes_acked == old(self).bytes_acked,
            final(self).dup_ack_counts@ == old(self).dup_ack_counts@,
    {
        let mut queue = RetransmitQueue::new();
        let mut entries: Vec<(u16, SentPacketData)> = Vec::new();
        core::mem::swap(&mut entries, &mut self.sent_packets);
        let ghost orig = entries@;
        let ghost n = orig.len();
        let mut k: usize = 0;
        proof {
            assert(orig.take(0) =~= Seq::<(u16, SentPacketData)>::empty());
            assert(orig.skip(0) =~= orig);
        }
        while entries.len() > 0
            invariant
                n == orig.len(),
                k + entries@.len() == n,
                k <= n,
                entries@ == orig.skip(k as int),
                assoc_unique(orig),
                n <= old(self).max_in_flight,
                self.wf(),
                self.sent_packets@.len() <= k,
                self.max_in_flight == old(self).max_in_flight,
                self.max_retries == old(self).max_retries,
                self.rto_ms == old(self).rto_ms,
                self.remote_sequence == old(self).remote_sequence,
                self.ack_bits == old(self).ack_bits,
                self.local_sequence == old(self).local_sequence,
                self.received_history == old(self).received_history,
                self.received_any == old(self).received_any,
                self.received_packets == old(self).received_packets,
                self.srtt_ms == old(self).srtt_ms,
                self.rttvar_ms == old(self).rttvar_ms,
                self.has_rtt_sample == old(self).has_rtt_sample,
                self.total_packets_sent == old(self).total_packets_sent,
                self.total_packets_acked == old(self).total_packets_acked,
                self.bytes_sent == old(self).bytes_sent,
                self.bytes_acked == old(self).bytes_acked,
                self.dup_ack_counts@ == old(self).dup_ack_counts@,
                forall|qi: int|
                    0 <= qi < retransmit_entries(queue).len() ==> (match assoc_lookup(
                        orig,
                        (#[trigger] retransmit_entries(queue)[qi]).0,
                    ) {
                        Some(rec) => retransmit_due(rec, now_ms, old(self).rto_ms)
                            && rec.retry_count < old(self).max_retries && retransmit_entries(
                            queue,
                        )[qi].1@ == rec.data@,
                        None => false,
                    }),
                old(self).total_packets_lost + n <= u64::MAX ==> self.total_packets_lost == old(self).total_packets_lost + (k - self.sent_packets@.len()),
                forall|qi: int|
                    0 <= qi < retransmit_entries(queue).len() ==> assoc_has(
                        orig.take(k as int),
                        (#[trigger] retransmit_entries(queue)[qi]).0,
                    ),
                forall|qi: int, qj: int|
                    0 <= qi < qj < retransmit_entries(queue).len() ==> (
                    #[trigger] retransmit_entries(queue)[qi]).0 != (
                    #[trigger] retransmit_entries(queue)[qj]).0,
                (self.loss_window@, self.loss_window_index as int) == samples_recorded(
                    old(self).loss_window@,
                    old(self).loss_window_index as int,
                    k - self.sent_packets@.len(),
                    true,
                ),
                self.loss_window_count == count_after_samples(
                    old(self).loss_window_count as int,
                    k - self.sent_packets@.len(),
                ),
                forall|k2: u16| assoc_has(self.sent_packets@, k2) ==> assoc_has(
                    orig.take(k as int),
                    k2,
                ),
                forall|k2: u16|
                    match #[trigger] assoc_lookup(orig.take(k as int), k2) {
                        None => !assoc_has(self.sent_packets@, k2),
                        Some(rec) => if !retransmit_due(rec, now_ms, old(self).rto_ms) {
                            assoc_lookup(self.sent_packets@, k2) == Some(rec)
                        } else if rec.retry_count >= old(self).max_retries {
                            !assoc_has(self.sent_packets@, k2)
                        } else {
                            (match assoc_lookup(self.sent_packets@, k2) {
                                Some(nrec) => nrec.send_time_ms == now_ms && nrec.retry_count
                                    == rec.retry_count + 1 && nrec.data@ == rec.data@
                                    && nrec.size == rec.size && nrec.channel_id == rec.channel_id
                                    && nrec.channel_seq == rec.channel_seq,
                                None => false,
                            }) && queue_has(retransmit_entries(queue), k2, rec.data@)
                        },
                    },
            decreases entries@.len(),
        {
            let ghost prev_kept = self.sent_packets@;
            let ghost prev_queue = retransmit_entries(queue);
            let ghost before_entries = entries@;
            let entry = entries.remove(0);
            let s = entry.0;
            let rec = entry.1;
            proof {
                assert(before_entries == orig.skip(k as int));
                assert(entries@ == before_entries.remove(0));
                crate::assoc::lemma_skip_front(orig, k as int);
                assert(entries@ == orig.skip(k + 1));
                assert(entry == before_entries[0]);
                assert(orig[k as int] == entry);
                assert(orig[k as int].0 == s && orig[k as int].1 == rec);
                assert(!assoc_has(orig.take(k as int), s)) by {
                    if assoc_has(orig.take(k as int), s) {
                        let j = choose|j: int|
                            0 <= j < k && (#[trigger] orig.take(k as int)[j]).0 == s;
                        assert(orig[j].0 == orig[k as int].0);
                    }
                }
                crate::assoc::lemma_lookup_some_iff_has(prev_kept, s);
            }
            let factor = backoff_factor_exec(rec.retry_count);
            let backoff = self.rto_ms * factor;
            let due = now_ms >= rec.send_time_ms && now_ms - rec.send_time_ms >= backoff;
            proof {
                assert(due == retransmit_due(rec, now_ms, old(self).rto_ms));
            }
            if !due {
                proof {
                    lemma_lookup_push(self.sent_packets@, s, rec);
                }
                self.sent_packets.push((s, rec));
            } else if rec.retry_count >= self.max_retries {
                proof {
                    let mm = k - self.sent_packets@.len();
                    let s0 = samples_recorded(
                        old(self).loss_window@,
                        old(self).loss_window_index as int,
                        mm,
                        true,
                    );
                    assert(samples_recorded(
                        old(self).loss_window@,
                        old(self).loss_window_index as int,
                        mm + 1,
                        true,
                    ) == (s0.0.update(s0.1, true), (s0.1 + 1) % (LOSS_WINDOW_SIZE as int)));
                }
                self.total_packets_lost = sat_add_exec(self.total_packets_lost, 1);
                self.record_loss_sample(true);
            } else {
                proof {
                    lemma_lookup_at_index(orig, k as int);
                }
                let data_copy = copy_bytes(&rec.data);
                queue.push(s, data_copy);
                let nrec = SentPacketData {
                    send_time_ms: now_ms,
                    retry_count: rec.retry_count + 1,
                    data: rec.data,
                    size: rec.size,
                    channel_id: rec.channel_id,
                    channel_seq: rec.channel_seq,
                };
                proof {
                    assert(retransmit_entries(queue)[prev_queue.len() as int].0 == s);
                    assert(retransmit_entries(queue)[prev_queue.len() as int].1@ == nrec.data@);
                    assert(queue_has(retransmit_entries(queue), s, nrec.data@));
                    assert forall|qi: int| 0 <= qi < prev_queue.len() implies retransmit_entries(
                        queue,
                    )[qi] == prev_queue[qi] by {
                        assert(prev_queue.push(
                            (s, retransmit_entries(queue).last().1),
                        )[qi] == prev_queue[qi]);
                    }
                    assert forall|qi: int, qj: int|
                        0 <= qi < qj < retransmit_entries(queue).len() implies (
                        #[trigger] retransmit_entries(queue)[qi]).0 != (
                        #[trigger] retransmit_entries(queue)[qj]).0 by {
                        if qj == retransmit_entries(queue).len() - 1 {
                            assert(retransmit_entries(queue)[qi] == prev_queue[qi]);
                            assert(assoc_has(orig.take(k as int), prev_queue[qi].0));
                            assert(retransmit_entries(queue)[qj].0 == s);
                        } else {
                            assert(retransmit_entries(queue)[qi] == prev_queue[qi]);
                            assert(retransmit_entries(queue)[qj] == prev_queue[qj]);
                        }
                    }
                    lemma_lookup_push(self.sent_packets@, s, nrec);
                }
                self.sent_packets.push((s, nrec));
            }
            k += 1;
            proof {
                assert(orig.take(k as int).drop_last() =~= orig.take(k - 1));
                assert(orig.take(k as int).last() == orig[k - 1]);
                assert forall|qi: int|
                    0 <= qi < retransmit_entries(queue).len() implies assoc_has(
                    orig.take(k as int),
                    (#[trigger] retransmit_entries(queue)[qi]).0,
                ) by {
                    let key = retransmit_entries(queue)[qi].0;
                    if qi < prev_queue.len() {
                        assert(retransmit_entries(queue)[qi] == prev_queue[qi]);
                        assert(assoc_has(orig.take(k - 1), key));
                        let j = choose|j: int|
                            0 <= j < k - 1 && (#[trigger] orig.take(k - 1)[j]).0 == key;
                        assert(orig.take(k as int)[j].0 == key);
                    } else {
                        assert(key == s);
                        assert(orig.take(k as int)[k - 1].0 == s);
                    }
                }
                assert forall|k2: u16| assoc_has(self.sent_packets@, k2) implies assoc_has(
                    orig.take(k as int),
                    k2,
                ) by {
                    if k2 == s {
                        assert(orig.take(k as int)[k - 1].0 == s);
                    } else {
                        crate::assoc::lemma_lookup_some_iff_has(self.sent_packets@, k2);
                        crate::assoc::lemma_lookup_some_iff_has(prev_kept, k2);
                        if assoc_has(orig.take(k - 1), k2) {
                            let j = choose|j: int|
                                0 <= j < k - 1 && (#[trigger] orig.take(k - 1)[j]).0 == k2;
                            assert(orig.take(k as int)[j].0 == k2);
                        }
                    }
                }
                lemma_take_lookup_step(orig, k as int);
                assert forall|k2: u16|
                    match #[trigger] assoc_lookup(orig.take(k as int), k2) {
                        None => !assoc_has(self.sent_packets@, k2),
                        Some(rec2) => if !retransmit_due(rec2, now_ms, old(self).rto_ms) {
                            assoc_lookup(self.sent_packets@, k2) == Some(rec2)
                        } else if rec2.retry_count >= old(self).max_retries {
                            !assoc_has(self.sent_packets@, k2)
                        } else {
                            (match assoc_lookup(self.sent_packets@, k2) {
                                Some(nrec) => nrec.send_time_ms == now_ms && nrec.retry_count
                                    == rec2.retry_count + 1 && nrec.data@ == rec2.data@
                                    && nrec.size == rec2.size && nrec.channel_id
                                    == rec2.channel_id && nrec.channel_seq == rec2.channel_seq,
                                None => false,
                            }) && queue_has(retransmit_entries(queue), k2, rec2.data@)
                        },
                    } by {
                    crate::assoc::lemma_lookup_some_iff_has(self.sent_packets@, k2);
                    crate::assoc::lemma_lookup_some_iff_has(prev_kept, k2);
                    crate::assoc::lemma_lookup_some_iff_has(orig.take(k as int), k2);
                    crate::assoc::lemma_lookup_some_iff_has(orig.take(k - 1), k2);
                    if k2 == s {
                        assert(assoc_lookup(orig.take(k as int), s) == Some(rec));
                        assert(!assoc_has(prev_kept, s));
                        if due && rec.retry_count >= self.max_retries {
                            assert(self.sent_packets@ == prev_kept);
                        }
                    } else {
                        if assoc_has(orig.take(k - 1), k2) {
                            let j = choose|j: int|
                                0 <= j < k - 1 && (#[trigger] orig.take(k - 1)[j]).0 == k2;
                            assert(orig.take(k as int)[j].0 == k2);
                        }
                        if assoc_has(orig.take(k as int), k2) {
                            let j = choose|j: int|
                                0 <= j < k && (#[trigger] orig.take(k as int)[j]).0 == k2;
                            assert(j < k - 1);
                            assert(orig.take(k - 1)[j].0 == k2);
                        }
                        assert(assoc_lookup(orig.take(k as int), k2) == assoc_lookup(
                            orig.take(k - 1),
                            k2,
                        ));
                        assert(assoc_lookup(self.sent_packets@, k2) == assoc_lookup(
                            prev_kept,
                            k2,
                        ));
                        match assoc_lookup(orig.take(k - 1), k2) {
                            Some(rec2) => {
                                if retransmit_due(rec2, now_ms, old(self).rto_ms)
                                    && rec2.retry_count < old(self).max_retries {
                                    let qi = choose|qi: int|
                                        0 <= qi < prev_queue.len() && (
                                        #[trigger] prev_queue[qi]).0 == k2
                                            && prev_queue[qi].1@ == rec2.data@;
                                    assert(retransmit_entries(queue)[qi] == prev_queue[qi]);
                                    assert(queue_has(
                                        retransmit_entries(queue),
                                        k2,
                                        rec2.data@,
                                    ));
                                }
                            },
                            None => {},
                        }
                    }
                }
            }
        }
        proof {
            assert(orig.take(n as int) =~= orig);
        }
        queue
    }

    /// A snapshot of the endpoint's counters and estimator state.
    pub fn stats(&self) -> (r: ReliabilityStats)
        requires
            self.wf(),
        ensures
            r.packets_in_flight == self.sent_packets@.len(),
            r.local_sequence == self.local_sequence,
            r.remote_sequence == self.remote_sequence,
            r.srtt_ms == self.srtt_ms,
            r.rttvar_ms == self.rttvar_ms,
            r.rto_ms == self.rto_ms,
            r.total_sent == self.total_packets_sent,
            r.total_acked == self.total_packets_acked,
            r.total_lost == self.total_packets_lost,
            r.packets_evicted == self.packets_evicted,
    {
        ReliabilityStats {
            packets_in_flight: self.sent_packets.len(),
            local_sequence: self.local_sequence,
            remote_sequence: self.remote_sequence,
            srtt_ms: self.srtt_ms,
            rttvar_ms: self.rttvar_ms,
            rto_ms: self.rto_ms,
            packet_loss_permille: self.packet_loss_permille(),
            total_sent: self.total_packets_sent,
            total_acked: self.total_packets_acked,
            total_lost: self.total_packets_lost,
            packets_evicted: self.packets_evicted,
        }
    }
}

/// The queue holds an entry with this key and these bytes.
pub open spec fn queue_has(q: Seq<(u16, Vec<u8>)>, key: u16, data: Seq<u8>) -> bool {
    exists|i: int| 0 <= i < q.len() && (#[trigger] q[i]).0 == key && q[i].1@ == data
}

/// One step of lookups over a growing prefix: the new element's key maps to
/// its value, other keys look up as before.
proof fn lemma_take_lookup_step(orig: Seq<(u16, SentPacketData)>, k: int)
    requires
        assoc_unique(orig),
        1 <= k <= orig.len(),
    ensures
        assoc_lookup(orig.take(k), orig[k - 1].0) == Some(orig[k - 1].1),
        forall|k2: u16| k2 != orig[k - 1].0 ==> assoc_lookup(orig.take(k), k2) == assoc_lookup(
            orig.take(k - 1),
            k2,
        ),
{
    assert(assoc_unique(orig.take(k))) by {
        assert(forall|a: int, b: int|
            0 <= a < b < k ==> orig.take(k)[a] == orig[a] && orig.take(k)[b] == orig[b]);
    }
    lemma_lookup_at_index(orig.take(k), k - 1);
    assert(!assoc_has(orig.take(k - 1), orig[k - 1].0)) by {
        if assoc_has(orig.take(k - 1), orig[k - 1].0) {
            let j = choose|j: int|
                0 <= j < k - 1 && (#[trigger] orig.take(k - 1)[j]).0 == orig[k - 1].0;
            assert(orig[j].0 == orig[k - 1].0);
        }
    }
    lemma_lookup_push(orig.take(k - 1), orig[k - 1].0, orig[k - 1].1);
    assert(orig.take(k - 1).push(orig[k - 1]) =~= orig.take(k));
}

/// Ack bits never signal a sequence that was not received: every set bit of
/// a well-formed endpoint's advertised bitfield stands for a sequence in its
/// received history, with no false positives after gaps.
pub proof fn lemma_ack_bits_no_false_positives(e: &ReliableEndpoint, i: u32)
    requires
        e.wf(),
        i < 32,
        e.ack_bits & (1u32 << i) != 0,
    ensures
        e.received_history@.contains(seq_sub(e.remote_sequence, (i + 1) as u32)),
{
}

/// The exact estimator transition `update_rtt` performs: Jacobson/Karels
/// with weights 7/8 and 3/4 in integer arithmetic, then the clamped timeout.
pub open spec fn spec_rtt_update(e: ReliableEndpoint, sample_ms: u64) -> ReliableEndpoint {
    let s = clamped_sample(sample_ms);
    let srtt = if !e.has_rtt_sample {
        s
    } else {
        (((7 * e.srtt_ms + s) / 8) as u64)
    };
    let rttvar = if !e.has_rtt_sample {
        s / 2
    } else {
        (((3 * e.rttvar_ms + abs_diff(s, e.srtt_ms)) / 4) as u64)
    };
    ReliableEndpoint {
        srtt_ms: srtt,
        rttvar_ms: rttvar,
        rto_ms: clamp_rto(srtt + 4 * rttvar),
        has_rtt_sample: true,
        ..e
    }
}

/// The estimator state after feeding `n` equal samples.
pub open spec fn rtt_iterate(e: ReliableEndpoint, sample_ms: u64, n: nat) -> ReliableEndpoint
    decreases n,
{
    if n == 0 {
        e
    } else {
        spec_rtt_update(rtt_iterate(e, sample_ms, (n - 1) as nat), sample_ms)
    }
}

/// Feeding any number of identical round-trip samples to a fresh estimator
/// pins the smoothed estimate to exactly that sample, and the adaptive
/// timeout always stays inside its clamped band.
pub proof fn lemma_rtt_identical_samples(e: ReliableEndpoint, x: u64, n: nat)
    requires
        !e.has_rtt_sample,
        x <= MAX_RTT_SAMPLE_MS,
        n >= 1,
    ensures
        rtt_iterate(e, x, n).srtt_ms == x,
        rtt_iterate(e, x, n).has_rtt_sample,
        MIN_RTO_MS <= rtt_iterate(e, x, n).rto_ms <= MAX_RTO_MS,
    decreases n,
{
    if n == 1 {
        assert(rtt_iterate(e, x, 0) == e);
        assert(rtt_iterate(e, x, 1) == spec_rtt_update(e, x));
        assert(clamped_sample(x) == x);
    } else {
        lemma_rtt_identical_samples(e, x, (n - 1) as nat);
        let prev = rtt_iterate(e, x, (n - 1) as nat);
        assert(rtt_iterate(e, x, n) == spec_rtt_update(prev, x));
        assert(clamped_sample(x) == x);
        assert(7 * prev.srtt_ms + x == 8 * x);
        vstd::arithmetic::div_mod::lemma_div_multiples_vanish(x as int, 8);
        assert((8 * (x as int)) / 8 == x);
    }
}

} // verus!
