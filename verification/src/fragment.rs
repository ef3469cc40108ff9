//! Message fragmentation and reassembly, and MTU discovery.
//!
//! A message longer than the fragment threshold is split into at most 255
//! fragments, each carrying a six-byte header: message id (16 bits), fragment
//! index (8), fragment count (8), payload size (16), all big-endian. The
//! assembler buffers fragments per message id and hands the concatenated
//! bytes up once every index has arrived, whatever order they came in.
use vstd::prelude::*;
use crate::assoc::{assoc_find, assoc_has, assoc_lookup, assoc_unique, lemma_lookup_push,
    lemma_lookup_remove, lemma_lookup_update};

verus! {

/// Bytes of the per-fragment header.
pub const FRAGMENT_HEADER_SIZE: usize = 6;

/// A message splits into at most this many fragments.
pub const MAX_FRAGMENT_COUNT: usize = 255;

/// Fragmentation errors surfaced to the sender.
#[derive(Debug, Clone, PartialEq, Eq, Structural)]
pub enum FragmentError {
    MessageTooLarge,
}

/// The header fields of one fragment on the wire.
#[derive(Debug, Clone, PartialEq, Eq, Structural)]
pub struct FragmentHeader {
    pub message_id: u16,
    pub fragment_index: u8,
    pub fragment_count: u8,
    pub payload_size: u16,
}

/// The wire bytes of one fragment: the six header bytes, then the payload.
pub open spec fn fragment_frame(message_id: u16, index: u8, count: u8, payload: Seq<u8>) -> Seq<
    u8,
> {
    seq![(message_id / 256) as u8, (message_id % 256) as u8, index, count, (
    payload.len() / 256) as u8, (payload.len() % 256) as u8] + payload
}

/// How many fragments a message of `len` bytes needs at a given threshold;
/// an empty message still sends one (empty) fragment.
pub open spec fn frag_count(len: int, threshold: int) -> int {
    if len == 0 {
        1
    } else {
        (len + threshold - 1) / threshold
    }
}

/// The bytes of the `i`-th fragment of a message.
pub open spec fn fragment_payload(data: Seq<u8>, threshold: int, i: int) -> Seq<u8> {
    data.subrange(
        i * threshold,
        if (i + 1) * threshold <= data.len() {
            (i + 1) * threshold
        } else {
            data.len() as int
        },
    )
}

/// The fragment count is the least number of threshold-sized pieces covering
/// the message.
pub proof fn lemma_frag_count_bounds(len: int, threshold: int)
    requires
        threshold >= 1,
        len >= 1,
    ensures
        frag_count(len, threshold) * threshold >= len,
        (frag_count(len, threshold) - 1) * threshold < len,
        frag_count(len, threshold) >= 1,
{
    let q = (len + threshold - 1) / threshold;
    vstd::arithmetic::div_mod::lemma_fundamental_div_mod(len + threshold - 1, threshold);
    let r = (len + threshold - 1) % threshold;
    assert(0 <= (len + threshold - 1) % threshold < threshold) by (nonlinear_arith)
        requires
            threshold >= 1,
    ;
    assert(0 <= r < threshold);
    assert(len + threshold - 1 == threshold * q + r);
    assert(q * threshold == threshold * q) by (nonlinear_arith);
    assert((q - 1) * threshold == threshold * q - threshold) by (nonlinear_arith);
    assert(q * threshold >= len);
    assert((q - 1) * threshold < len);
    assert(q >= 1) by (nonlinear_arith)
        requires
            q * threshold >= len,
            len >= 1,
            threshold >= 1,
    ;
}

/// Parses one fragment: `None` when the bytes are shorter than a header, the
/// declared payload size disagrees with the bytes present, the count is zero,
/// or the index is out of range.
pub open spec fn parse_fragment(data: Seq<u8>) -> Option<(u16, u8, u8, Seq<u8>)> {
    if data.len() < 6 {
        None
    } else {
        let message_id = ((data[0] as int) * 256 + data[1] as int) as u16;
        let index = data[2];
        let count = data[3];
        let payload_size = (data[4] as int) * 256 + (data[5] as int);
        if count == 0 || index >= count || payload_size != data.len() - 6 {
            None
        } else {
            Some((message_id, index, count, data.skip(6)))
        }
    }
}

/// Splits a message into fragments of at most `fragment_threshold` bytes.
/// Fails exactly when more than 255 fragments would be needed; otherwise the
/// `i`-th returned buffer is the frame of the `i`-th piece of the message.
pub fn fragment_message(message_id: u16, data: &[u8], fragment_threshold: usize) -> (r: Result<
    Vec<Vec<u8>>,
    FragmentError,
>)
    requires
        1 <= fragment_threshold <= 65535,
    ensures
        r is Ok <==> frag_count(data@.len() as int, fragment_threshold as int)
            <= MAX_FRAGMENT_COUNT,
        r matches Ok(frags) ==> frags@.len() == frag_count(
            data@.len() as int,
            fragment_threshold as int,
        ) && forall|i: int| 0 <= i < frags@.len() ==> (#[trigger] frags@[i])@ == fragment_frame(
            message_id,
            i as u8,
            frags@.len() as u8,
            fragment_payload(data@, fragment_threshold as int, i),
        ),
{
    let len = data.len();
    let count: usize = if len == 0 {
        1
    } else {
        (len - 1) / fragment_threshold + 1
    };
    proof {
        if len > 0 {
            vstd::arithmetic::div_mod::lemma_fundamental_div_mod(len - 1, fragment_threshold as int);
            vstd::arithmetic::div_mod::lemma_fundamental_div_mod(
                len + fragment_threshold - 1,
                fragment_threshold as int,
            );
            assert((len - 1) / (fragment_threshold as int) + 1 == (len + fragment_threshold - 1)
                / (fragment_threshold as int)) by (nonlinear_arith)
                requires
                    fragment_threshold >= 1,
                    len >= 1,
            ;
        }
    }
    if count > MAX_FRAGMENT_COUNT {
        return Err(FragmentError::MessageTooLarge);
    }
    let mut frags: Vec<Vec<u8>> = Vec::new();
    let mut i: usize = 0;
    while i < count
        invariant
            i <= count,
            count == frag_count(data@.len() as int, fragment_threshold as int),
            1 <= count <= MAX_FRAGMENT_COUNT,
            1 <= fragment_threshold <= 65535,
            len == data@.len(),
            frags@.len() == i,
            forall|j: int| 0 <= j < i ==> (#[trigger] frags@[j])@ == fragment_frame(
                message_id,
                j as u8,
                count as u8,
                fragment_payload(data@, fragment_threshold as int, j),
            ),
        decreases count - i,
    {
        proof {
            assert(i * (fragment_threshold as int) <= 254 * 65535) by (nonlinear_arith)
                requires
                    i < count,
                    count <= 255,
                    fragment_threshold <= 65535,
            ;
        }
        let start = i * fragment_threshold;
        proof {
            assert((i + 1) * (fragment_threshold as int) == start + fragment_threshold)
                by (nonlinear_arith)
                requires
                    start == i * fragment_threshold,
            ;
            if len > 0 {
                lemma_frag_count_bounds(len as int, fragment_threshold as int);
                assert(i * (fragment_threshold as int) <= (count - 1) * (
                fragment_threshold as int)) by (nonlinear_arith)
                    requires
                        i < count,
                        fragment_threshold >= 1,
                ;
                assert(start <= len);
            } else {
                assert(count == 1 && i == 0 && start == 0);
            }
        }
        let end = if len - start >= fragment_threshold {
            start + fragment_threshold
        } else {
            len
        };
        let piece_len = end - start;
        let mut frame: Vec<u8> = Vec::new();
        frame.push((message_id / 256) as u8);
        frame.push((message_id % 256) as u8);
        frame.push(i as u8);
        frame.push(count as u8);
        frame.push((piece_len / 256) as u8);
        frame.push((piece_len % 256) as u8);
        let ghost head = frame@;
        let mut j: usize = start;
        while j < end
            invariant
                start <= j <= end <= data@.len(),
                frame@ == head + data@.subrange(start as int, j as int),
            decreases end - j,
        {
            frame.push(data[j]);
            proof {
                assert(data@.subrange(start as int, j as int).push(data@[j as int])
                    =~= data@.subrange(start as int, j + 1));
            }
            j += 1;
        }
        proof {
            assert(frame@ =~= fragment_frame(
                message_id,
                i as u8,
                count as u8,
                fragment_payload(data@, fragment_threshold as int, i as int),
            ));
        }
        frags.push(frame);
        i += 1;
    }
    Ok(frags)
}

/// One message being reassembled: a slot per fragment index, a running count
/// of filled slots, and the time of the last accepted fragment.
pub struct PartialMessage {
    pub fragment_count: u8,
    pub received: Vec<Option<Vec<u8>>>,
    pub received_count: usize,
    pub total_bytes: usize,
    pub last_activity_ms: u64,
}

/// The payload views of the slots of a partial message.
pub open spec fn slots_views(slots: Seq<Option<Vec<u8>>>) -> Seq<Option<Seq<u8>>> {
    slots.map_values(
        |s: Option<Vec<u8>>|
            match s {
                Some(v) => Some(v@),
                None => None,
            },
    )
}

/// The concatenation of the filled slots, in index order.
pub open spec fn concat_views(slots: Seq<Option<Seq<u8>>>) -> Seq<u8>
    decreases slots.len(),
{
    if slots.len() == 0 {
        Seq::<u8>::empty()
    } else {
        (match slots[0] {
            Some(p) => p,
            None => Seq::<u8>::empty(),
        }) + concat_views(slots.skip(1))
    }
}

/// Slots among the first `n` that hold a fragment.
pub open spec fn filled_slots(slots: Seq<Option<Vec<u8>>>, n: int) -> int
    decreases n,
{
    if n <= 0 {
        0
    } else {
        filled_slots(slots, n - 1) + (if slots[n - 1] is Some {
            1int
        } else {
            0int
        })
    }
}

/// Slot sequences that agree below `n` have the same filled count.
proof fn lemma_filled_agree(a: Seq<Option<Vec<u8>>>, b: Seq<Option<Vec<u8>>>, n: int)
    requires
        forall|t: int| 0 <= t < n ==> a[t] == b[t],
    ensures
        filled_slots(a, n) == filled_slots(b, n),
    decreases n,
{
    if n > 0 {
        lemma_filled_agree(a, b, n - 1);
    }
}

/// Filling an empty slot raises the filled count by one.
proof fn lemma_filled_update(slots: Seq<Option<Vec<u8>>>, i: int, v: Vec<u8>, n: int)
    requires
        0 <= i < n,
        n <= slots.len(),
        slots[i] is None,
    ensures
        filled_slots(slots.update(i, Some(v)), n) == filled_slots(slots, n) + 1,
    decreases n,
{
    if n - 1 == i {
        lemma_filled_agree(slots.update(i, Some(v)), slots, n - 1);
    } else {
        lemma_filled_update(slots, i, v, n - 1);
    }
}

/// The filled count never exceeds the slots scanned.
proof fn lemma_filled_bound(slots: Seq<Option<Vec<u8>>>, n: int)
    ensures
        0 <= filled_slots(slots, n) <= (if n >= 0 {
            n
        } else {
            0int
        }),
    decreases n,
{
    if n > 0 {
        lemma_filled_bound(slots, n - 1);
    }
}

/// An empty slot keeps the filled count below the slots scanned.
proof fn lemma_filled_missing(slots: Seq<Option<Vec<u8>>>, i: int, n: int)
    requires
        0 <= i < n,
        slots[i] is None,
    ensures
        filled_slots(slots, n) <= n - 1,
    decreases n,
{
    if n - 1 == i {
        lemma_filled_bound(slots, n - 1);
    } else {
        lemma_filled_missing(slots, i, n - 1);
    }
}

/// With every slot but one filled, the count is one short of full.
proof fn lemma_filled_almost_full(slots: Seq<Option<Vec<u8>>>, i: int, n: int)
    requires
        0 <= i < n,
        slots[i] is None,
        forall|t: int| 0 <= t < n && t != i ==> (#[trigger] slots[t]) is Some,
    ensures
        filled_slots(slots, n) == n - 1,
    decreases n,
{
    if n - 1 == i {
        lemma_filled_full(slots, n - 1);
    } else {
        lemma_filled_almost_full(slots, i, n - 1);
    }
}

/// With every slot filled, the count is full.
proof fn lemma_filled_full(slots: Seq<Option<Vec<u8>>>, n: int)
    requires
        0 <= n,
        forall|t: int| 0 <= t < n ==> (#[trigger] slots[t]) is Some,
    ensures
        filled_slots(slots, n) == n,
    decreases n,
{
    if n > 0 {
        lemma_filled_full(slots, n - 1);
    }
}

/// With no slot filled, the count is zero.
proof fn lemma_filled_none(slots: Seq<Option<Vec<u8>>>, n: int)
    requires
        0 <= n,
        forall|t: int| 0 <= t < n ==> (#[trigger] slots[t]) is None,
    ensures
        filled_slots(slots, n) == 0,
    decreases n,
{
    if n > 0 {
        lemma_filled_none(slots, n - 1);
    }
}

/// A partial message is well formed when its slot vector matches its count
/// and its filled-slot counter counts exactly the filled slots.
pub open spec fn wf_partial(pm: PartialMessage) -> bool {
    &&& pm.fragment_count >= 1
    &&& pm.received@.len() == pm.fragment_count
    &&& pm.received_count <= pm.fragment_count
    &&& pm.received_count == filled_slots(pm.received@, pm.fragment_count as int)
}

/// Buffers fragments per message id and reassembles complete messages;
/// buffers idle longer than the timeout are dropped by `cleanup`.
pub struct FragmentAssembler {
    pub partial: Vec<(u16, PartialMessage)>,
    pub reassembly_timeout_ms: u64,
    pub max_buffered_bytes: usize,
    pub buffered_bytes: usize,
}

impl FragmentAssembler {
    pub open spec fn wf(&self) -> bool {
        &&& assoc_unique(self.partial@)
        &&& forall|j: int| 0 <= j < self.partial@.len() ==> wf_partial(
            (#[trigger] self.partial@[j]).1,
        )
    }

    /// An empty assembler with the given idle timeout and memory bound.
    pub fn new(reassembly_timeout_ms: u64, max_buffered_bytes: usize) -> (r: FragmentAssembler)
        ensures
            r.wf(),
            r.partial@ == Seq::<(u16, PartialMessage)>::empty(),
            r.reassembly_timeout_ms == reassembly_timeout_ms,
            r.max_buffered_bytes == max_buffered_bytes,
            r.buffered_bytes == 0,
    {
        FragmentAssembler {
            partial: Vec::new(),
            reassembly_timeout_ms,
            max_buffered_bytes,
            buffered_bytes: 0,
        }
    }

    /// Feeds one fragment at time `now_ms`. Total on any byte string:
    /// malformed headers, mismatched counts, duplicate indices, and fragments
    /// that would exceed the memory bound are dropped. Returns the message
    /// exactly once, when its last missing fragment arrives: the returned
    /// bytes are the stored payloads concatenated in index order, the slot of
    /// the arriving fragment holding its payload.
    pub fn process_fragment(&mut self, data: &[u8], now_ms: u64) -> (r: Option<Vec<u8>>)
        requires
            old(self).wf(),
        ensures
            final(self).wf(),
            final(self).reassembly_timeout_ms == old(self).reassembly_timeout_ms,
            final(self).max_buffered_bytes == old(self).max_buffered_bytes,
            r matches Some(msg) ==> (match parse_fragment(data@) {
                Some((message_id, index, count, payload)) => {
                    match assoc_lookup(old(self).partial@, message_id) {
                        Some(pm) => msg@ == concat_views(
                            slots_views(pm.received@).update(index as int, Some(payload)),
                        ) && !assoc_has(final(self).partial@, message_id),
                        None => count == 1 && msg@ == payload,
                    }
                },
                None => false,
            }),
            (match parse_fragment(data@) {
                Some((message_id, index, count, payload)) => ({
                    let within = old(self).buffered_bytes < old(self).max_buffered_bytes
                        && payload.len() <= old(self).max_buffered_bytes - old(self).buffered_bytes;
                    &&& (within && assoc_lookup(old(self).partial@, message_id) is None && count
                        == 1 ==> r is Some)
                    &&& (within && (match assoc_lookup(old(self).partial@, message_id) {
                        Some(pm) => pm.fragment_count == count && slots_views(pm.received@)[
                            index as int] is None && (forall|s: int|
                            0 <= s < count && s != index ==> (#[trigger] slots_views(
                                pm.received@,
                            )[s]) is Some),
                        None => false,
                    }) ==> r is Some)
                }),
                None => r is None,
            }),
            (r is None && (match parse_fragment(data@) {
                Some((message_id, index, count, payload)) => count >= 2 && assoc_lookup(
                    old(self).partial@,
                    message_id,
                ) is None && old(self).buffered_bytes < old(self).max_buffered_bytes
                    && payload.len() <= old(self).max_buffered_bytes - old(self).buffered_bytes,
                None => false,
            })) ==> (match parse_fragment(data@) {
                Some((message_id, index, count, payload)) => (match assoc_lookup(
                    final(self).partial@,
                    message_id,
                ) {
                    Some(npm) => npm.fragment_count == count && npm.received@.len() == count
                        && slots_views(npm.received@)[index as int] == Some(payload) && (forall|
                        s: int,
                    |
                        0 <= s < count && s != index ==> slots_views(npm.received@)[s] is None),
                    None => false,
                }),
                None => false,
            }),
            (r is None && (match parse_fragment(data@) {
                Some((message_id, index, count, payload)) => (match assoc_lookup(
                    old(self).partial@,
                    message_id,
                ) {
                    Some(pm) => pm.fragment_count == count && slots_views(pm.received@)[
                        index as int] is None && old(self).buffered_bytes < old(self).max_buffered_bytes && payload.len() <= old(self).max_buffered_bytes - old(self).buffered_bytes,
                    None => false,
                }),
                None => false,
            })) ==> (match parse_fragment(data@) {
                Some((message_id, index, count, payload)) => (match assoc_lookup(
                    final(self).partial@,
                    message_id,
                ) {
                    Some(npm) => slots_views(npm.received@) == slots_views(
                        assoc_lookup(old(self).partial@, message_id).unwrap().received@,
                    ).update(index as int, Some(payload)),
                    None => false,
                }),
                None => false,
            }),
    {
        if data.len() < FRAGMENT_HEADER_SIZE {
            return None;
        }
        let message_id: u16 = (data[0] as u16) * 256 + (data[1] as u16);
        let index = data[2];
        let count = data[3];
        let payload_size: usize = (data[4] as usize) * 256 + (data[5] as usize);
        if count == 0 || index >= count || payload_size != data.len() - 6 {
            return None;
        }
        proof {
            assert(parse_fragment(data@) == Some(
                (message_id, index, count, data@.skip(6)),
            ));
        }
        let mut payload: Vec<u8> = Vec::new();
        let mut j: usize = 6;
        proof {
            assert(data@.subrange(6, 6) =~= Seq::<u8>::empty());
        }
        while j < data.len()
            invariant
                6 <= j <= data@.len(),
                payload@ == data@.subrange(6, j as int),
            decreases data@.len() - j,
        {
            payload.push(data[j]);
            proof {
                assert(data@.subrange(6, j as int).push(data@[j as int]) =~= data@.subrange(
                    6,
                    j + 1,
                ));
            }
            j += 1;
        }
        proof {
            assert(payload@ =~= data@.skip(6));
        }
        let payload_len = payload.len();
        if self.buffered_bytes >= self.max_buffered_bytes || payload_len
            > self.max_buffered_bytes - self.buffered_bytes {
            return None;
        }
        match assoc_find(&self.partial, message_id) {
            Some(idx) => {
                proof {
                    assert(wf_partial(self.partial@[idx as int].1));
                    crate::assoc::lemma_lookup_at_index(self.partial@, idx as int);
                }
                if self.partial[idx].1.fragment_count != count {
                    return None;
                }
                if self.partial[idx].1.received[index as usize].is_some() {
                    return None;
                }
                let pm_received_count = self.partial[idx].1.received_count;
                let pm_total_bytes = self.partial[idx].1.total_bytes;
                let mut entry = (
                    message_id,
                    PartialMessage {
                        fragment_count: count,
                        received: Vec::new(),
                        received_count: 0,
                        total_bytes: 0,
                        last_activity_ms: now_ms,
                    },
                );
                core::mem::swap(&mut entry, &mut self.partial[idx]);
                let mut pm = entry.1;
                let ghost old_pm = pm;
                pm.received[index as usize] = Some(payload);
                proof {
                    lemma_filled_missing(old_pm.received@, index as int, count as int);
                    lemma_filled_update(old_pm.received@, index as int, payload, count as int);
                }
                let new_count = if pm_received_count < count as usize {
                    pm_received_count + 1
                } else {
                    pm_received_count
                };
                pm.received_count = new_count;
                pm.total_bytes = sat_add_usize(pm_total_bytes, payload_len);
                pm.last_activity_ms = now_ms;
                proof {
                    assert(slots_views(pm.received@) =~= slots_views(old_pm.received@).update(
                        index as int,
                        Some(data@.skip(6)),
                    ));
                }
                proof {
                    assert(assoc_unique(self.partial@)) by {
                        assert(forall|a: int|
                            0 <= a < self.partial@.len() ==> (#[trigger] self.partial@[a]).0
                                == old(self).partial@[a].0);
                    }
                    assert(self.partial@[idx as int].0 == message_id);
                }
                if pm.received_count >= count as usize {
                    let assembled = concat_slots_exec(&pm.received);
                    proof {
                        lemma_lookup_remove(self.partial@, idx as int);
                        crate::assoc::lemma_lookup_some_iff_has(
                            self.partial@.remove(idx as int),
                            message_id,
                        );
                    }
                    let ghost dummied = self.partial@;
                    let _ = self.partial.remove(idx);
                    proof {
                        assert forall|j: int| 0 <= j < self.partial@.len() implies wf_partial(
                            (#[trigger] self.partial@[j]).1,
                        ) by {
                            if j < idx {
                                assert(self.partial@[j] == old(self).partial@[j]);
                            } else {
                                assert(self.partial@[j] == dummied[j + 1]);
                                assert(dummied[j + 1] == old(self).partial@[j + 1]);
                            }
                        }
                    }
                    if self.buffered_bytes >= pm_total_bytes {
                        self.buffered_bytes = self.buffered_bytes - pm_total_bytes;
                    } else {
                        self.buffered_bytes = 0;
                    }
                    return Some(assembled);
                } else {
                    proof {
                        if (match assoc_lookup(old(self).partial@, message_id) {
                            Some(pm0) => pm0.fragment_count == count && slots_views(
                                pm0.received@,
                            )[index as int] is None && (forall|s: int|
                                0 <= s < count && s != index ==> (#[trigger] slots_views(
                                    pm0.received@,
                                )[s]) is Some),
                            None => false,
                        }) {
                            let pm0 = assoc_lookup(old(self).partial@, message_id).unwrap();
                            assert(pm0 == old_pm);
                            assert forall|s: int|
                                0 <= s < count && s != index implies (
                                #[trigger] old_pm.received@[s]) is Some by {
                                assert(slots_views(old_pm.received@)[s] is Some);
                            }
                            lemma_filled_almost_full(
                                old_pm.received@,
                                index as int,
                                count as int,
                            );
                            assert(false);
                        }
                        lemma_lookup_update(self.partial@, idx as int, pm);
                    }
                    let ghost dummied = self.partial@;
                    self.partial[idx] = (message_id, pm);
                    proof {
                        assert(self.partial@ == dummied.update(idx as int, (message_id, pm)));
                        assert forall|j: int| 0 <= j < self.partial@.len() implies wf_partial(
                            (#[trigger] self.partial@[j]).1,
                        ) by {
                            if j != idx {
                                assert(self.partial@[j] == old(self).partial@[j]);
                            }
                        }
                    }
                    self.buffered_bytes = sat_add_usize(self.buffered_bytes, payload_len);
                    return None;
                }
            },
            None => {
                proof {
                    crate::assoc::lemma_lookup_some_iff_has(self.partial@, message_id);
                }
                if count == 1 {
                    return Some(payload);
                }
                let mut received: Vec<Option<Vec<u8>>> = Vec::new();
                let mut s: usize = 0;
                while s < count as usize
                    invariant
                        s <= count as usize,
                        received@.len() == s,
                        forall|t: int| 0 <= t < s ==> (#[trigger] received@[t]) is None,
                    decreases count as usize - s,
                {
                    received.push(None);
                    s += 1;
                }
                let mut pm = PartialMessage {
                    fragment_count: count,
                    received,
                    received_count: 1,
                    total_bytes: payload_len,
                    last_activity_ms: now_ms,
                };
                let ghost base = pm.received@;
                pm.received[index as usize] = Some(payload);
                proof {
                    lemma_filled_none(base, count as int);
                    lemma_filled_update(base, index as int, payload, count as int);
                }
                proof {
                    assert(pm.received@.len() == count as int);
                    assert(slots_views(pm.received@)[index as int] == Some(data@.skip(6)));
                    assert(forall|s: int|
                        0 <= s < count && s != index ==> (#[trigger] slots_views(
                            pm.received@,
                        )[s]) is None);
                    lemma_lookup_push(self.partial@, message_id, pm);
                }
                self.partial.push((message_id, pm));
                proof {
                    assert forall|j: int| 0 <= j < self.partial@.len() implies wf_partial(
                        (#[trigger] self.partial@[j]).1,
                    ) by {
                        if j < self.partial@.len() - 1 {
                            assert(self.partial@[j] == old(self).partial@[j]);
                        } else {
                            assert(self.partial@[j] == (message_id, pm));
                        }
                    }
                }
                self.buffered_bytes = sat_add_usize(self.buffered_bytes, payload_len);
                return None;
            },
        }
    }

    /// Drops buffers idle longer than the reassembly timeout; fresh buffers
    /// are kept in order.
    pub fn cleanup(&mut self, now_ms: u64)
        requires
            old(self).wf(),
        ensures
            final(self).wf(),
            final(self).partial@ == retain_fresh_partials(
                old(self).partial@,
                now_ms,
                old(self).reassembly_timeout_ms,
            ),
            final(self).reassembly_timeout_ms == old(self).reassembly_timeout_ms,
            final(self).max_buffered_bytes == old(self).max_buffered_bytes,
    {
        let mut entries: Vec<(u16, PartialMessage)> = Vec::new();
        core::mem::swap(&mut entries, &mut self.partial);
        let ghost orig = entries@;
        let ghost n = orig.len();
        let mut total: usize = 0;
        let ghost mut i: int = 0;
        proof {
            assert(orig.take(0) =~= Seq::<(u16, PartialMessage)>::empty());
            assert(orig.skip(0) =~= orig);
        }
        while entries.len() > 0
            invariant
                n == orig.len(),
                0 <= i,
                i + entries@.len() == n,
                i <= n,
                entries@ == orig.skip(i),
                forall|j: int| 0 <= j < orig.len() ==> wf_partial((#[trigger] orig[j]).1),
                self.partial@ == retain_fresh_partials(
                    orig.take(i),
                    now_ms,
                    self.reassembly_timeout_ms,
                ),
                forall|j: int| 0 <= j < self.partial@.len() ==> wf_partial(
                    (#[trigger] self.partial@[j]).1,
                ),
                self.reassembly_timeout_ms == old(self).reassembly_timeout_ms,
                self.max_buffered_bytes == old(self).max_buffered_bytes,
            decreases entries@.len(),
        {
            proof {
                crate::assoc::lemma_skip_front(orig, i);
                let t = orig.take(i + 1);
                assert(t.drop_last() =~= orig.take(i));
                assert(t.last() == orig[i]);
            }
            let entry = entries.remove(0);
            let stale = now_ms >= entry.1.last_activity_ms && now_ms - entry.1.last_activity_ms
                > self.reassembly_timeout_ms;
            if !stale {
                let total_next = sat_add_usize(total, entry.1.total_bytes);
                total = total_next;
                self.partial.push(entry);
            }
            proof {
                i = i + 1;
            }
        }
        proof {
            assert(orig.take(n as int) =~= orig);
            lemma_retain_fresh_unique(orig, now_ms, self.reassembly_timeout_ms);
        }
        self.buffered_bytes = total;
    }
}

/// Saturating add for byte counters.
pub open spec fn sat_add_usize_spec(a: usize, b: usize) -> usize {
    if a + b > usize::MAX {
        usize::MAX
    } else {
        (a + b) as usize
    }
}

fn sat_add_usize(a: usize, b: usize) -> (r: usize)
    ensures
        r == sat_add_usize_spec(a, b),
{
    if b > usize::MAX - a {
        usize::MAX
    } else {
        a + b
    }
}

/// The buffers whose last activity is within the reassembly timeout, in
/// order.
pub open spec fn retain_fresh_partials(
    entries: Seq<(u16, PartialMessage)>,
    now_ms: u64,
    timeout_ms: u64,
) -> Seq<(u16, PartialMessage)>
    decreases entries.len(),
{
    if entries.len() == 0 {
        Seq::<(u16, PartialMessage)>::empty()
    } else {
        let rest = retain_fresh_partials(entries.drop_last(), now_ms, timeout_ms);
        if !(now_ms >= entries.last().1.last_activity_ms && now_ms
            - entries.last().1.last_activity_ms > timeout_ms) {
            rest.push(entries.last())
        } else {
            rest
        }
    }
}

/// A key found among the retained buffers was present before.
proof fn lemma_retain_fresh_has(
    entries: Seq<(u16, PartialMessage)>,
    now_ms: u64,
    timeout_ms: u64,
    key: u16,
)
    ensures
        assoc_has(retain_fresh_partials(entries, now_ms, timeout_ms), key) ==> assoc_has(
            entries,
            key,
        ),
    decreases entries.len(),
{
    if entries.len() > 0 {
        lemma_retain_fresh_has(entries.drop_last(), now_ms, timeout_ms, key);
        let retained = retain_fresh_partials(entries, now_ms, timeout_ms);
        let rest = retain_fresh_partials(entries.drop_last(), now_ms, timeout_ms);
        if assoc_has(retained, key) {
            let j = choose|j: int| 0 <= j < retained.len() && (#[trigger] retained[j]).0 == key;
            if retained == rest.push(entries.last()) && j == retained.len() - 1 {
                assert(entries[entries.len() - 1].0 == key);
            } else {
                assert(rest[j] == retained[j]);
                assert(assoc_has(rest, key));
                let j2 = choose|j2: int|
                    0 <= j2 < entries.drop_last().len() && (#[trigger] entries.drop_last()[
                    j2]).0 == key;
                assert(entries[j2].0 == key);
            }
        }
    }
}

/// Retaining fresh buffers keeps the keys unique.
proof fn lemma_retain_fresh_unique(entries: Seq<(u16, PartialMessage)>, now_ms: u64,
    timeout_ms: u64)
    requires
        assoc_unique(entries),
    ensures
        assoc_unique(retain_fresh_partials(entries, now_ms, timeout_ms)),
    decreases entries.len(),
{
    if entries.len() > 0 {
        assert(assoc_unique(entries.drop_last())) by {
            assert(forall|a: int, b: int|
                0 <= a < b < entries.len() - 1 ==> entries.drop_last()[a] == entries[a]
                    && entries.drop_last()[b] == entries[b]);
        }
        lemma_retain_fresh_unique(entries.drop_last(), now_ms, timeout_ms);
        let retained = retain_fresh_partials(entries, now_ms, timeout_ms);
        let rest = retain_fresh_partials(entries.drop_last(), now_ms, timeout_ms);
        if retained == rest.push(entries.last()) {
            assert(!assoc_has(rest, entries.last().0)) by {
                if assoc_has(rest, entries.last().0) {
                    lemma_retain_fresh_has(
                        entries.drop_last(),
                        now_ms,
                        timeout_ms,
                        entries.last().0,
                    );
                    let j2 = choose|j2: int|
                        0 <= j2 < entries.drop_last().len() && (#[trigger] entries.drop_last()[
                        j2]).0 == entries.last().0;
                    assert(entries[j2].0 == entries[entries.len() - 1].0);
                }
            }
            assert forall|a: int, b: int| 0 <= a < b < retained.len() implies (
            #[trigger] retained[a]).0 != (#[trigger] retained[b]).0 by {
                if b == retained.len() - 1 {
                    assert(retained[a] == rest[a]);
                    assert(assoc_has(rest, rest[a].0));
                } else {
                    assert(retained[a] == rest[a] && retained[b] == rest[b]);
                }
            }
        }
    }
}

/// Concatenates the filled slots in index order.
fn concat_slots_exec(slots: &Vec<Option<Vec<u8>>>) -> (r: Vec<u8>)
    ensures
        r@ == concat_views(slots_views(slots@)),
{
    let mut out: Vec<u8> = Vec::new();
    let mut i: usize = 0;
    proof {
        assert(concat_prefix(slots_views(slots@), 0) =~= Seq::<u8>::empty());
    }
    while i < slots.len()
        invariant
            i <= slots@.len(),
            out@ == concat_prefix(slots_views(slots@), i as int),
        decreases slots@.len() - i,
    {
        match &slots[i] {
            Some(piece) => {
                let mut j: usize = 0;
                let ghost head = out@;
                while j < piece.len()
                    invariant
                        j <= piece@.len(),
                        out@ == head + piece@.take(j as int),
                    decreases piece@.len() - j,
                {
                    out.push(piece[j]);
                    proof {
                        assert(piece@.take(j as int).push(piece@[j as int]) =~= piece@.take(
                            j + 1,
                        ));
                        assert(out@ =~= head + piece@.take(j + 1));
                    }
                    j += 1;
                }
                proof {
                    assert(piece@.take(piece@.len() as int) =~= piece@);
                }
            },
            None => {},
        }
        proof {
            lemma_concat_prefix_step(slots_views(slots@), i as int);
        }
        i += 1;
    }
    proof {
        lemma_concat_prefix_all(slots_views(slots@));
    }
    out
}

/// The concatenation of the first `n` slots.
pub open spec fn concat_prefix(slots: Seq<Option<Seq<u8>>>, n: int) -> Seq<u8>
    decreases n,
{
    if n <= 0 {
        Seq::<u8>::empty()
    } else {
        concat_prefix(slots, n - 1) + (match slots[n - 1] {
            Some(p) => p,
            None => Seq::<u8>::empty(),
        })
    }
}

proof fn lemma_concat_prefix_step(slots: Seq<Option<Seq<u8>>>, i: int)
    requires
        0 <= i < slots.len(),
    ensures
        concat_prefix(slots, i + 1) == concat_prefix(slots, i) + (match slots[i] {
            Some(p) => p,
            None => Seq::<u8>::empty(),
        }),
{
}

/// The whole prefix is the whole concatenation.
proof fn lemma_concat_prefix_all(slots: Seq<Option<Seq<u8>>>)
    ensures
        concat_prefix(slots, slots.len() as int) == concat_views(slots),
    decreases slots.len(),
{
    if slots.len() == 0 {
        assert(concat_views(slots) =~= Seq::<u8>::empty());
    } else {
        lemma_concat_prefix_all(slots.drop_last());
        lemma_concat_views_snoc(slots.drop_last(), slots.last());
        assert(slots.drop_last().push(slots.last()) =~= slots);
        lemma_concat_prefix_agree(slots.drop_last(), slots, slots.len() - 1);
        let piece = (match slots[slots.len() - 1] {
            Some(p) => p,
            None => Seq::<u8>::empty(),
        });
        assert(concat_prefix(slots, slots.len() as int) == concat_prefix(
            slots,
            slots.len() - 1,
        ) + piece);
        assert(concat_views(slots) == concat_views(slots.drop_last()) + piece);
    }
}

/// Prefix concatenations agree on common prefixes.
proof fn lemma_concat_prefix_agree(a: Seq<Option<Seq<u8>>>, b: Seq<Option<Seq<u8>>>, m: int)
    requires
        0 <= m <= a.len(),
        m <= b.len(),
        forall|j: int| 0 <= j < m ==> a[j] == b[j],
    ensures
        concat_prefix(a, m) == concat_prefix(b, m),
    decreases m,
{
    if m > 0 {
        lemma_concat_prefix_agree(a, b, m - 1);
    }
}

/// Concatenation distributes over appending one slot.
proof fn lemma_concat_views_snoc(slots: Seq<Option<Seq<u8>>>, x: Option<Seq<u8>>)
    ensures
        concat_views(slots.push(x)) == concat_views(slots) + (match x {
            Some(p) => p,
            None => Seq::<u8>::empty(),
        }),
    decreases slots.len(),
{
    let tail = (match x {
        Some(p) => p,
        None => Seq::<u8>::empty(),
    });
    if slots.len() == 0 {
        assert(slots.push(x)[0] == x);
        assert(slots.push(x).skip(1) =~= Seq::<Option<Seq<u8>>>::empty());
        assert(concat_views(Seq::<Option<Seq<u8>>>::empty()) == Seq::<u8>::empty());
        assert(concat_views(slots.push(x)) =~= concat_views(slots) + tail);
    } else {
        assert(slots.push(x)[0] == slots[0]);
        assert(slots.push(x).skip(1) =~= slots.skip(1).push(x));
        lemma_concat_views_snoc(slots.skip(1), x);
        assert(concat_views(slots.push(x)) =~= concat_views(slots) + tail);
    }
}

/// When every slot holds exactly its piece of the original message, the
/// reassembled bytes are the original message, whatever order the fragments
/// arrived in.
pub proof fn lemma_fragments_reassemble(data: Seq<u8>, threshold: int, slots: Seq<
    Option<Seq<u8>>,
>)
    requires
        threshold >= 1,
        slots.len() == frag_count(data.len() as int, threshold),
        forall|i: int| 0 <= i < slots.len() ==> slots[i] == Some(
            fragment_payload(data, threshold, i),
        ),
    ensures
        concat_views(slots) == data,
{
    lemma_concat_prefix_all(slots);
    lemma_pieces_prefix(data, threshold, slots, slots.len() as int);
    let count = slots.len() as int;
    if data.len() == 0 {
        assert(data.take(0) =~= data);
    } else {
        lemma_frag_count_bounds(data.len() as int, threshold);
        let this_end = if count * threshold <= data.len() {
            count * threshold
        } else {
            data.len() as int
        };
        assert(this_end == data.len());
        assert(data.take(data.len() as int) =~= data);
    }
}

/// The first `m` pieces concatenate to the first `m * threshold` bytes.
proof fn lemma_pieces_prefix(data: Seq<u8>, threshold: int, slots: Seq<Option<Seq<u8>>>, m: int)
    requires
        threshold >= 1,
        0 <= m <= slots.len(),
        slots.len() == frag_count(data.len() as int, threshold),
        forall|i: int| 0 <= i < slots.len() ==> slots[i] == Some(
            fragment_payload(data, threshold, i),
        ),
    ensures
        concat_prefix(slots, m) == data.take(
            if m * threshold <= data.len() {
                m * threshold
            } else {
                data.len() as int
            },
        ),
    decreases m,
{
    if m == 0 {
        assert(data.take(0) =~= Seq::<u8>::empty());
    } else {
        lemma_pieces_prefix(data, threshold, slots, m - 1);
        assert((m - 1) * threshold == m * threshold - threshold) by (nonlinear_arith);
        let prev_end = if (m - 1) * threshold <= data.len() {
            (m - 1) * threshold
        } else {
            data.len() as int
        };
        let this_end = if m * threshold <= data.len() {
            m * threshold
        } else {
            data.len() as int
        };
        if data.len() == 0 {
            assert(m == 1);
            assert(prev_end == 0 && this_end == 0);
            assert(fragment_payload(data, threshold, 0) =~= Seq::<u8>::empty());
            assert(concat_prefix(slots, 1) == concat_prefix(slots, 0) + fragment_payload(
                data,
                threshold,
                0,
            ));
            assert(data.take(0) =~= Seq::<u8>::empty() + Seq::<u8>::empty());
        } else {
            lemma_frag_count_bounds(data.len() as int, threshold);
            assert((m - 1) * threshold <= (slots.len() as int - 1) * threshold)
                by (nonlinear_arith)
                requires
                    m <= slots.len(),
                    threshold >= 1,
            ;
            assert(prev_end == (m - 1) * threshold);
            assert(concat_prefix(slots, m) == concat_prefix(slots, m - 1) + fragment_payload(
                data,
                threshold,
                m - 1,
            ));
            assert(fragment_payload(data, threshold, m - 1) == data.subrange(
                prev_end,
                this_end,
            ));
            assert(data.take(prev_end) + data.subrange(prev_end, this_end) =~= data.take(
                this_end,
            ));
        }
    }
}

/// Maintains a probe toward a larger usable datagram size: on a successful
/// probe the effective MTU rises to the probe size and a larger one is
/// tried; on a timeout the probe backs off halfway toward what works.
pub struct MtuDiscovery {
    pub current_mtu: u16,
    pub max_mtu: u16,
    pub probe_size: u16,
    pub probe_in_flight: Option<u64>,
    pub probe_timeout_ms: u64,
}

impl MtuDiscovery {
    pub open spec fn wf(&self) -> bool {
        self.current_mtu <= self.max_mtu && self.current_mtu <= self.probe_size <= self.max_mtu
    }

    /// Discovery starting from a known-good MTU.
    pub fn new(initial_mtu: u16, max_mtu: u16, probe_timeout_ms: u64) -> (r: MtuDiscovery)
        requires
            initial_mtu <= max_mtu,
        ensures
            r.wf(),
            r.current_mtu == initial_mtu,
            r.max_mtu == max_mtu,
            r.probe_in_flight is None,
    {
        MtuDiscovery {
            current_mtu: initial_mtu,
            max_mtu,
            probe_size: max_mtu,
            probe_in_flight: None,
            probe_timeout_ms,
        }
    }

    /// The size to probe now, if a probe is due: nothing while one is in
    /// flight or once the ceiling is reached; a timed-out probe backs off
    /// halfway toward the current MTU first.
    pub fn next_probe(&mut self, now_ms: u64) -> (r: Option<u16>)
        requires
            old(self).wf(),
        ensures
            final(self).wf(),
            final(self).current_mtu == old(self).current_mtu,
            final(self).max_mtu == old(self).max_mtu,
            final(self).probe_timeout_ms == old(self).probe_timeout_ms,
            r matches Some(size) ==> size == final(self).probe_size
                && final(self).probe_in_flight == Some(now_ms),
            ({
                let timed_out = match old(self).probe_in_flight {
                    Some(sent_at) => now_ms >= sent_at && now_ms - sent_at > old(self).probe_timeout_ms,
                    None => false,
                };
                &&& (old(self).probe_in_flight is Some && !timed_out ==> r is None && *final(self)
                    == *old(self))
                &&& (timed_out ==> r is None && final(self).probe_in_flight is None && final(self).probe_size == old(self).current_mtu + (old(self).probe_size - old(self).current_mtu) / 2)
                &&& (old(self).probe_in_flight is None && old(self).probe_size > old(self).current_mtu ==> r == Some(old(self).probe_size) && final(self).probe_size
                    == old(self).probe_size && final(self).probe_in_flight == Some(now_ms))
                &&& (old(self).probe_in_flight is None && old(self).probe_size <= old(self).current_mtu ==> r is None && *final(self) == *old(self))
            }),
    {
        match self.probe_in_flight {
            Some(sent_at) => {
                if now_ms >= sent_at && now_ms - sent_at > self.probe_timeout_ms {
                    self.probe_size = self.current_mtu + (self.probe_size - self.current_mtu)
                        / 2;
                    self.probe_in_flight = None;
                }
                None
            },
            None => {
                if self.probe_size > self.current_mtu {
                    self.probe_in_flight = Some(now_ms);
                    Some(self.probe_size)
                } else {
                    None
                }
            },
        }
    }

    /// A probe of this size was acknowledged: sizes up to it work, so the
    /// effective MTU rises to it (bounded by the ceiling) and probing may
    /// continue.
    pub fn on_probe_success(&mut self, size: usize)
        requires
            old(self).wf(),
        ensures
            final(self).wf(),
            final(self).max_mtu == old(self).max_mtu,
            final(self).probe_timeout_ms == old(self).probe_timeout_ms,
            final(self).probe_in_flight is None,
            ({
                let capped = if size > old(self).max_mtu as int {
                    old(self).max_mtu
                } else {
                    size as u16
                };
                final(self).current_mtu == (if capped > old(self).current_mtu {
                    capped
                } else {
                    old(self).current_mtu
                })
            }),
    {
        let size16: u16 = if size > self.max_mtu as usize {
            self.max_mtu
        } else {
            size as u16
        };
        if size16 > self.current_mtu {
            self.current_mtu = size16;
        }
        if self.probe_size < self.current_mtu {
            self.probe_size = self.current_mtu;
        }
        self.probe_in_flight = None;
    }

    /// The largest datagram size known to work.
    pub fn effective_mtu(&self) -> (r: u16)
        ensures
            r == self.current_mtu,
    {
        self.current_mtu
    }
}

} // verus!
