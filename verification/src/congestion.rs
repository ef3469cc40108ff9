//! Binary congestion control and message batching.
//!
//! The controller switches between `Good` and `Bad` on loss and round-trip
//! thresholds, halving the send rate on entry to `Bad` and restoring it after
//! conditions have stayed good for a whole recovery period. Batching packs
//! small messages into one datagram: a count byte, then per message a two-byte
//! big-endian length and the bytes.
use vstd::prelude::*;

verus! {

/// Floor of the send rate while congested, in packets per cycle.
pub const MIN_SEND_RATE: u32 = 1;

/// Bytes of the leading count field of a batch.
pub const BATCH_HEADER_SIZE: usize = 1;

/// Bytes of the per-message length field of a batch.
pub const BATCH_LENGTH_SIZE: usize = 2;

/// A batch counts its messages in one byte.
pub const MAX_BATCH_MESSAGES: u8 = 255;

/// Largest message a two-byte length field can frame.
pub const MAX_BATCH_MESSAGE_LEN: usize = 65535;

#[derive(Debug, Clone, Copy, PartialEq, Eq, Structural)]
pub enum CongestionMode {
    Good,
    Bad,
}

/// Binary congestion controller: one healthy rate, one halved rate, and a
/// recovery timer that any relapse resets.
pub struct CongestionController {
    pub mode: CongestionMode,
    pub good_conditions_start_ms: Option<u64>,
    pub recovery_time_ms: u64,
    pub loss_threshold_permille: u32,
    pub rtt_threshold_ms: u64,
    pub base_send_rate: u32,
    pub current_send_rate: u32,
}

/// The halved rate used while congested, never below `MIN_SEND_RATE`.
pub open spec fn reduced_rate(base: u32) -> u32 {
    if base / 2 >= 1 {
        base / 2
    } else {
        1u32
    }
}

/// Conditions are bad when loss or round-trip time exceeds its threshold.
pub open spec fn conditions_bad(c: CongestionController, loss_permille: u32, rtt_ms: u64) -> bool {
    loss_permille > c.loss_threshold_permille || rtt_ms > c.rtt_threshold_ms
}

/// The exact state transition `CongestionController::update` performs.
pub open spec fn spec_congestion_update(
    c: CongestionController,
    loss_permille: u32,
    rtt_ms: u64,
    now_ms: u64,
) -> CongestionController {
    let is_bad = conditions_bad(c, loss_permille, rtt_ms);
    match c.mode {
        CongestionMode::Good => {
            if is_bad {
                CongestionController {
                    mode: CongestionMode::Bad,
                    current_send_rate: reduced_rate(c.base_send_rate),
                    good_conditions_start_ms: None,
                    ..c
                }
            } else {
                c
            }
        },
        CongestionMode::Bad => {
            if !is_bad {
                match c.good_conditions_start_ms {
                    None => CongestionController {
                        good_conditions_start_ms: Some(now_ms),
                        ..c
                    },
                    Some(start) => {
                        if now_ms >= start && now_ms - start >= c.recovery_time_ms {
                            CongestionController {
                                mode: CongestionMode::Good,
                                current_send_rate: c.base_send_rate,
                                good_conditions_start_ms: None,
                                ..c
                            }
                        } else {
                            c
                        }
                    },
                }
            } else {
                CongestionController { good_conditions_start_ms: None, ..c }
            }
        },
    }
}

impl CongestionController {
    /// A controller in `Good` mode at its base rate. Loss is given in parts
    /// per thousand, time in milliseconds.
    pub fn new(
        base_send_rate: u32,
        loss_threshold_permille: u32,
        rtt_threshold_ms: u64,
        recovery_time_ms: u64,
    ) -> (r: CongestionController)
        ensures
            r.mode == CongestionMode::Good,
            r.good_conditions_start_ms is None,
            r.recovery_time_ms == recovery_time_ms,
            r.loss_threshold_permille == loss_threshold_permille,
            r.rtt_threshold_ms == rtt_threshold_ms,
            r.base_send_rate == base_send_rate,
            r.current_send_rate == base_send_rate,
    {
        CongestionController {
            mode: CongestionMode::Good,
            good_conditions_start_ms: None,
            recovery_time_ms,
            loss_threshold_permille,
            rtt_threshold_ms,
            base_send_rate,
            current_send_rate: base_send_rate,
        }
    }

    /// Feeds one observation of loss and round-trip time at time `now_ms`;
    /// the new state is exactly `spec_congestion_update` of the old.
    pub fn update(&mut self, loss_permille: u32, rtt_ms: u64, now_ms: u64)
        ensures
            *final(self) == spec_congestion_update(*old(self), loss_permille, rtt_ms, now_ms),
    {
        let is_bad = loss_permille > self.loss_threshold_permille || rtt_ms
            > self.rtt_threshold_ms;
        match self.mode {
            CongestionMode::Good => {
                if is_bad {
                    self.mode = CongestionMode::Bad;
                    self.current_send_rate = if self.base_send_rate / 2 >= MIN_SEND_RATE {
                        self.base_send_rate / 2
                    } else {
                        MIN_SEND_RATE
                    };
                    self.good_conditions_start_ms = None;
                }
            },
            CongestionMode::Bad => {
                if !is_bad {
                    match self.good_conditions_start_ms {
                        None => {
                            self.good_conditions_start_ms = Some(now_ms);
                        },
                        Some(start) => {
                            if now_ms >= start && now_ms - start >= self.recovery_time_ms {
                                self.mode = CongestionMode::Good;
                                self.current_send_rate = self.base_send_rate;
                                self.good_conditions_start_ms = None;
                            }
                        },
                    }
                } else {
                    self.good_conditions_start_ms = None;
                }
            },
        }
    }

    pub fn mode(&self) -> (r: CongestionMode)
        ensures
            r == self.mode,
    {
        self.mode
    }

    /// The current pacing budget in packets per cycle.
    pub fn send_rate(&self) -> (r: u32)
        ensures
            r == self.current_send_rate,
    {
        self.current_send_rate
    }

    /// True if another packet may be sent this cycle: the budget is the
    /// current send rate.
    pub fn can_send(&self, packets_sent_this_cycle: u32) -> (r: bool)
        ensures
            r == (packets_sent_this_cycle < self.current_send_rate),
    {
        packets_sent_this_cycle < self.current_send_rate
    }
}

/// The two-byte big-endian length of a message followed by its bytes.
pub open spec fn message_frame(m: Seq<u8>) -> Seq<u8> {
    seq![(m.len() / 256) as u8, (m.len() % 256) as u8] + m
}

/// The frames of a list of messages, back to back.
pub open spec fn frames(msgs: Seq<Seq<u8>>) -> Seq<u8>
    decreases msgs.len(),
{
    if msgs.len() == 0 {
        Seq::<u8>::empty()
    } else {
        message_frame(msgs[0]) + frames(msgs.skip(1))
    }
}

/// Parses `count` length-prefixed frames from the front of `data`; bytes
/// after the last frame are ignored, a truncated frame is `None`.
pub open spec fn parse_frames(data: Seq<u8>, count: nat) -> Option<Seq<Seq<u8>>>
    decreases count,
{
    if count == 0 {
        Some(Seq::<Seq<u8>>::empty())
    } else if data.len() < 2 {
        None
    } else {
        let len = (data[0] as int) * 256 + (data[1] as int);
        if 2 + len > data.len() {
            None
        } else {
            match parse_frames(data.skip(2 + len), (count - 1) as nat) {
                None => None,
                Some(rest) => Some(seq![data.subrange(2, 2 + len)] + rest),
            }
        }
    }
}

/// What `unbatch_messages` recovers: the count byte, then that many frames.
pub open spec fn spec_unbatch(data: Seq<u8>) -> Option<Seq<Seq<u8>>> {
    if data.len() == 0 {
        None
    } else {
        parse_frames(data.skip(1), data[0] as nat)
    }
}

/// The byte views of a list of byte vectors.
pub open spec fn views_of(s: Seq<Vec<u8>>) -> Seq<Seq<u8>> {
    s.map_values(|v: Vec<u8>| v@)
}

/// Unbatches every batch in the list and concatenates the results; `None` if
/// any batch is malformed.
pub open spec fn unbatch_all(batches: Seq<Seq<u8>>) -> Option<Seq<Seq<u8>>>
    decreases batches.len(),
{
    if batches.len() == 0 {
        Some(Seq::<Seq<u8>>::empty())
    } else {
        match spec_unbatch(batches[0]) {
            None => None,
            Some(ms) => match unbatch_all(batches.skip(1)) {
                None => None,
                Some(rest) => Some(ms + rest),
            },
        }
    }
}

/// A batch in canonical form: a true count byte between 1 and 255, then
/// exactly that many length-prefixed records and nothing else.
pub open spec fn canonical_batch(batch: Seq<u8>) -> bool {
    match spec_unbatch(batch) {
        Some(ms) => 1 <= ms.len() <= 255 && batch == seq![ms.len() as u8] + frames(ms),
        None => false,
    }
}

/// A batch that unbatches to exactly one message.
pub open spec fn batch_holds_one(batch: Seq<u8>) -> bool {
    match spec_unbatch(batch) {
        Some(ms) => ms.len() == 1,
        None => false,
    }
}

/// Appending a message appends its frame.
pub proof fn lemma_frames_push(msgs: Seq<Seq<u8>>, m: Seq<u8>)
    ensures
        frames(msgs.push(m)) == frames(msgs) + message_frame(m),
    decreases msgs.len(),
{
    if msgs.len() == 0 {
        assert(msgs.push(m)[0] == m);
        assert(msgs.push(m).skip(1) =~= Seq::<Seq<u8>>::empty());
        assert(frames(Seq::<Seq<u8>>::empty()) == Seq::<u8>::empty());
        assert(frames(msgs.push(m)) == message_frame(m) + frames(Seq::<Seq<u8>>::empty()));
        assert(frames(msgs.push(m)) =~= frames(msgs) + message_frame(m));
    } else {
        assert(msgs.push(m)[0] == msgs[0]);
        assert(msgs.push(m).skip(1) =~= msgs.skip(1).push(m));
        lemma_frames_push(msgs.skip(1), m);
        assert(frames(msgs.push(m)) =~= frames(msgs) + message_frame(m));
    }
}

/// Parsing the frames of `count` messages whose lengths fit the two-byte
/// field gives the messages back.
pub proof fn lemma_parse_frames_of_frames(ms: Seq<Seq<u8>>)
    requires
        ms.len() <= 255,
        forall|j: int| 0 <= j < ms.len() ==> (#[trigger] ms[j]).len() <= MAX_BATCH_MESSAGE_LEN,
    ensures
        parse_frames(frames(ms), ms.len()) == Some(ms),
    decreases ms.len(),
{
    if ms.len() > 0 {
        let m = ms[0];
        let data = frames(ms);
        let mlen = m.len() as int;
        vstd::arithmetic::div_mod::lemma_fundamental_div_mod(mlen, 256);
        assert(data[0] == (m.len() / 256) as u8);
        assert(data[1] == (m.len() % 256) as u8);
        assert((data[0] as int) * 256 + (data[1] as int) == mlen);
        assert(data.subrange(2, 2 + mlen) =~= m);
        assert(data.skip(2 + mlen) =~= frames(ms.skip(1)));
        lemma_parse_frames_of_frames(ms.skip(1));
        assert(seq![m] + ms.skip(1) =~= ms);
    }
}

/// A well-formed non-empty chunk unbatches to its own messages.
pub proof fn lemma_unbatch_of_encoding(count: u8, body: Seq<u8>, ms: Seq<Seq<u8>>)
    requires
        1 <= ms.len() <= 255,
        count as int == ms.len(),
        body == seq![count] + frames(ms),
        forall|j: int| 0 <= j < ms.len() ==> (#[trigger] ms[j]).len() <= MAX_BATCH_MESSAGE_LEN,
    ensures
        spec_unbatch(body) == Some(ms),
{
    assert(body[0] == count);
    assert(body.skip(1) =~= frames(ms));
    lemma_parse_frames_of_frames(ms);
}

/// Unbatching distributes over appending one well-formed batch.
pub proof fn lemma_unbatch_all_push(batches: Seq<Seq<u8>>, b: Seq<u8>, ms: Seq<Seq<u8>>)
    requires
        unbatch_all(batches) is Some,
        spec_unbatch(b) == Some(ms),
    ensures
        unbatch_all(batches.push(b)) == Some(unbatch_all(batches).unwrap() + ms),
    decreases batches.len(),
{
    if batches.len() == 0 {
        assert(batches.push(b)[0] == b);
        assert(batches.push(b).skip(1) =~= Seq::<Seq<u8>>::empty());
        assert(unbatch_all(Seq::<Seq<u8>>::empty()) == Some(Seq::<Seq<u8>>::empty()));
        assert(unbatch_all(batches.push(b)) == Some(ms + Seq::<Seq<u8>>::empty()));
        assert(ms + Seq::<Seq<u8>>::empty() =~= Seq::<Seq<u8>>::empty() + ms);
    } else {
        assert(batches.push(b)[0] == batches[0]);
        assert(batches.push(b).skip(1) =~= batches.skip(1).push(b));
        lemma_unbatch_all_push(batches.skip(1), b, ms);
        let head = spec_unbatch(batches[0]).unwrap();
        let mid = unbatch_all(batches.skip(1)).unwrap();
        assert(head + (mid + ms) =~= (head + mid) + ms);
    }
}

/// Pushes the count byte and the accumulated frames as one sealed batch.
fn seal_batch(batches: &mut Vec<Vec<u8>>, current_batch: &Vec<u8>, msg_count: u8)
    ensures
        final(batches)@.len() == old(batches)@.len() + 1,
        final(batches)@.drop_last() == old(batches)@,
        final(batches)@.last()@ == seq![msg_count] + current_batch@,
{
    let mut batch: Vec<u8> = Vec::new();
    batch.push(msg_count);
    let mut i: usize = 0;
    while i < current_batch.len()
        invariant
            i <= current_batch@.len(),
            batch@ == seq![msg_count] + current_batch@.take(i as int),
        decreases current_batch@.len() - i,
    {
        batch.push(current_batch[i]);
        proof {
            assert(batch@ =~= seq![msg_count] + current_batch@.take(i + 1));
        }
        i += 1;
    }
    proof {
        assert(current_batch@.take(current_batch@.len() as int) =~= current_batch@);
    }
    batches.push(batch);
    proof {
        assert(final(batches)@.drop_last() =~= old(batches)@);
    }
}

/// Packs the messages, in order, into batches of at most `max_size` bytes
/// (a batch may exceed `max_size` only when it holds a single message whose
/// frame alone does) and at most 255 messages each. Unbatching every batch in
/// order yields exactly the original messages.
#[verifier::rlimit(100)]
pub fn batch_messages(messages: &[Vec<u8>], max_size: usize) -> (r: Vec<Vec<u8>>)
    requires
        forall|i: int| 0 <= i < messages@.len() ==> (#[trigger] messages@[i]@.len())
            <= MAX_BATCH_MESSAGE_LEN,
    ensures
        unbatch_all(views_of(r@)) == Some(views_of(messages@)),
        forall|i: int| 0 <= i < r@.len() && (#[trigger] r@[i]@.len()) > max_size
            ==> batch_holds_one(r@[i]@),
        r@.len() == 0 <==> messages@.len() == 0,
        forall|i: int| 0 <= i < r@.len() ==> canonical_batch(#[trigger] r@[i]@),
        forall|i: int| 0 <= i < r@.len() - 1 ==> ((#[trigger] r@[i])@[0] == 255 || r@[i]@.len()
            + 2 + spec_unbatch(r@[i + 1]@).unwrap()[0].len() > max_size),
{
    let mut batches: Vec<Vec<u8>> = Vec::new();
    let mut current_batch: Vec<u8> = Vec::new();
    let mut current_size: usize = BATCH_HEADER_SIZE;
    let mut msg_count: u8 = 0;
    let ghost mut done: Seq<Seq<u8>> = Seq::<Seq<u8>>::empty();
    let ghost mut cur: Seq<Seq<u8>> = Seq::<Seq<u8>>::empty();
    let mut i: usize = 0;
    proof {
        assert(views_of(messages@.take(0)) =~= Seq::<Seq<u8>>::empty());
        assert(done + cur =~= Seq::<Seq<u8>>::empty());
        assert(frames(cur) =~= Seq::<u8>::empty());
        assert(views_of(batches@) =~= Seq::<Seq<u8>>::empty());
        assert(unbatch_all(views_of(batches@)) == Some(done));
    }
    while i < messages.len()
        invariant
            i <= messages@.len(),
            forall|j: int| 0 <= j < messages@.len() ==> (#[trigger] messages@[j]@.len())
                <= MAX_BATCH_MESSAGE_LEN,
            msg_count as int == cur.len(),
            cur.len() <= 254,
            current_batch@ == frames(cur),
            current_size == 1 + current_batch@.len(),
            current_size <= 1 + cur.len() * (2 + MAX_BATCH_MESSAGE_LEN),
            forall|j: int| 0 <= j < cur.len() ==> (#[trigger] cur[j]).len()
                <= MAX_BATCH_MESSAGE_LEN,
            unbatch_all(views_of(batches@)) == Some(done),
            done + cur == views_of(messages@.take(i as int)),
            cur.len() == 0 ==> current_size == 1,
            cur.len() >= 2 ==> current_size <= max_size,
            forall|b: int| 0 <= b < batches@.len() && (#[trigger] batches@[b]@.len()) > max_size
                ==> batch_holds_one(batches@[b]@),
            forall|b: int| 0 <= b < batches@.len() ==> canonical_batch(
                #[trigger] batches@[b]@,
            ),
            forall|b: int| 0 <= b < batches@.len() - 1 ==> ((#[trigger] batches@[b])@[0] == 255
                || batches@[b]@.len() + 2 + spec_unbatch(batches@[b + 1]@).unwrap()[0].len()
                > max_size),
            (batches@.len() > 0 && cur.len() > 0) ==> (batches@.last()@[0] == 255
                || batches@.last()@.len() + 2 + cur[0].len() > max_size),
            (batches@.len() > 0 && cur.len() == 0) ==> batches@.last()@[0] == 255,
            i > 0 ==> batches@.len() > 0 || cur.len() > 0,
        decreases messages@.len() - i,
    {
        let msg_len = messages[i].len();
        proof {
            assert(messages@[i as int]@.len() <= MAX_BATCH_MESSAGE_LEN);
            assert(cur.len() * ((2 + MAX_BATCH_MESSAGE_LEN) as int) <= 254 * ((2
                + MAX_BATCH_MESSAGE_LEN) as int)) by (nonlinear_arith)
                requires
                    cur.len() <= 254,
            ;
        }
        let msg_wire_size = BATCH_LENGTH_SIZE + msg_len;
        if current_size + msg_wire_size > max_size && msg_count > 0 {
            let ghost prev = batches@;
            seal_batch(&mut batches, &current_batch, msg_count);
            proof {
                let body = batches@.last()@;
                lemma_unbatch_of_encoding(msg_count, body, cur);
                assert(batches@ =~= prev.push(batches@.last()));
                assert(views_of(batches@) =~= views_of(prev).push(body));
                lemma_unbatch_all_push(views_of(prev), body, cur);
                done = done + cur;
                cur = Seq::<Seq<u8>>::empty();
                assert(done + cur =~= done);
            }
            current_batch = Vec::new();
            current_size = BATCH_HEADER_SIZE;
            msg_count = 0;
            proof {
                assert(frames(cur) =~= Seq::<u8>::empty());
            }
        }
        let len_hi = (msg_len / 256) as u8;
        let len_lo = (msg_len % 256) as u8;
        current_batch.push(len_hi);
        current_batch.push(len_lo);
        let mut k: usize = 0;
        let ghost before_msg = current_batch@;
        while k < msg_len
            invariant
                k <= msg_len,
                msg_len == messages@[i as int]@.len(),
                i < messages@.len(),
                current_batch@ == before_msg + messages@[i as int]@.take(k as int),
            decreases msg_len - k,
        {
            let byte = messages[i][k];
            current_batch.push(byte);
            proof {
                assert(current_batch@ =~= before_msg + messages@[i as int]@.take(k + 1));
            }
            k += 1;
        }
        proof {
            let m = messages@[i as int]@;
            assert(m.take(m.len() as int) =~= m);
            lemma_frames_push(cur, m);
            assert(current_batch@ =~= frames(cur.push(m)));
            cur = cur.push(m);
            assert(messages@.take(i as int).push(messages@[i as int]) =~= messages@.take(i + 1));
            assert(views_of(messages@.take(i + 1)) =~= views_of(messages@.take(i as int)).push(
                m,
            ));
            assert(done + cur =~= views_of(messages@.take(i + 1)));
        }
        current_size += msg_wire_size;
        msg_count += 1;
        i += 1;
        proof {
            assert(cur.len() * ((2 + MAX_BATCH_MESSAGE_LEN) as int) == (cur.len() - 1) * ((2
                + MAX_BATCH_MESSAGE_LEN) as int) + ((2 + MAX_BATCH_MESSAGE_LEN) as int))
                by (nonlinear_arith);
        }
        if msg_count == MAX_BATCH_MESSAGES {
            let ghost prev = batches@;
            seal_batch(&mut batches, &current_batch, msg_count);
            proof {
                let body = batches@.last()@;
                lemma_unbatch_of_encoding(msg_count, body, cur);
                assert(batches@ =~= prev.push(batches@.last()));
                assert(views_of(batches@) =~= views_of(prev).push(body));
                lemma_unbatch_all_push(views_of(prev), body, cur);
                done = done + cur;
                cur = Seq::<Seq<u8>>::empty();
                assert(done + cur =~= done);
            }
            current_batch = Vec::new();
            current_size = BATCH_HEADER_SIZE;
            msg_count = 0;
            proof {
                assert(frames(cur) =~= Seq::<u8>::empty());
            }
        }
    }
    if msg_count > 0 {
        let ghost prev = batches@;
        seal_batch(&mut batches, &current_batch, msg_count);
        proof {
            let body = batches@.last()@;
            lemma_unbatch_of_encoding(msg_count, body, cur);
            assert(batches@ =~= prev.push(batches@.last()));
            assert(views_of(batches@) =~= views_of(prev).push(body));
            lemma_unbatch_all_push(views_of(prev), body, cur);
            done = done + cur;
        }
    }
    proof {
        assert(messages@.take(messages@.len() as int) =~= messages@);
        assert(done =~= views_of(messages@));
    }
    batches
}

/// A recorded traffic sample is still inside the sliding window.
pub open spec fn sample_fresh(t: u64, now_ms: u64, window_ms: u64) -> bool {
    now_ms < t || now_ms - t < window_ms
}

/// The samples still inside the window, in order.
pub open spec fn retain_fresh_samples(window: Seq<(u64, usize)>, now_ms: u64, window_ms: u64) -> Seq<
    (u64, usize),
>
    decreases window.len(),
{
    if window.len() == 0 {
        Seq::<(u64, usize)>::empty()
    } else {
        let rest = retain_fresh_samples(window.drop_last(), now_ms, window_ms);
        if sample_fresh(window.last().0, now_ms, window_ms) {
            rest.push(window.last())
        } else {
            rest
        }
    }
}

/// Sliding-window bandwidth counter: byte counts stamped with their record
/// time, trimmed to the window on every update.
pub struct BandwidthTracker {
    pub window: Vec<(u64, usize)>,
    pub window_duration_ms: u64,
}

impl BandwidthTracker {
    /// An empty tracker over the given window.
    pub fn new(window_duration_ms: u64) -> (r: BandwidthTracker)
        ensures
            r.window@ == Seq::<(u64, usize)>::empty(),
            r.window_duration_ms == window_duration_ms,
    {
        BandwidthTracker { window: Vec::new(), window_duration_ms }
    }

    /// Records a traffic sample at time `now_ms` and trims stale samples.
    pub fn record(&mut self, bytes: usize, now_ms: u64)
        ensures
            final(self).window@ == retain_fresh_samples(
                old(self).window@,
                now_ms,
                old(self).window_duration_ms,
            ).push((now_ms, bytes)),
            final(self).window_duration_ms == old(self).window_duration_ms,
    {
        self.cleanup(now_ms);
        self.window.push((now_ms, bytes));
    }

    /// Drops samples older than the window.
    pub fn cleanup(&mut self, now_ms: u64)
        ensures
            final(self).window@ == retain_fresh_samples(
                old(self).window@,
                now_ms,
                old(self).window_duration_ms,
            ),
            final(self).window_duration_ms == old(self).window_duration_ms,
    {
        let mut kept: Vec<(u64, usize)> = Vec::new();
        let mut i: usize = 0;
        let n = self.window.len();
        proof {
            assert(self.window@.take(0) =~= Seq::<(u64, usize)>::empty());
        }
        while i < n
            invariant
                i <= n,
                n == self.window@.len(),
                kept@ == retain_fresh_samples(
                    self.window@.take(i as int),
                    now_ms,
                    self.window_duration_ms,
                ),
            decreases n - i,
        {
            proof {
                let t = self.window@.take(i + 1);
                assert(t.drop_last() =~= self.window@.take(i as int));
                assert(t.last() == self.window@[i as int]);
            }
            let e = self.window[i];
            if now_ms < e.0 || now_ms - e.0 < self.window_duration_ms {
                kept.push(e);
            }
            i += 1;
        }
        proof {
            assert(self.window@.take(n as int) =~= self.window@);
        }
        self.window = kept;
    }

    /// Total bytes recorded inside the window, saturating.
    pub fn bytes_in_window(&self) -> (r: u64)
        ensures
            r == window_total(self.window@),
    {
        let mut total: u64 = 0;
        let mut i: usize = 0;
        let n = self.window.len();
        proof {
            assert(self.window@.take(0) =~= Seq::<(u64, usize)>::empty());
        }
        while i < n
            invariant
                i <= n,
                n == self.window@.len(),
                total == window_total(self.window@.take(i as int)),
            decreases n - i,
        {
            proof {
                let t = self.window@.take(i + 1);
                assert(t.drop_last() =~= self.window@.take(i as int));
                assert(t.last() == self.window@[i as int]);
            }
            let b = self.window[i].1;
            total = if (b as u64) > u64::MAX - total {
                u64::MAX
            } else {
                total + b as u64
            };
            i += 1;
        }
        proof {
            assert(self.window@.take(n as int) =~= self.window@);
        }
        total
    }
}

/// The saturating sum of the recorded byte counts.
pub open spec fn window_total(window: Seq<(u64, usize)>) -> u64
    decreases window.len(),
{
    if window.len() == 0 {
        0u64
    } else {
        let rest = window_total(window.drop_last());
        if rest + window.last().1 > u64::MAX {
            u64::MAX
        } else {
            (rest + window.last().1) as u64
        }
    }
}

/// Splits a batched packet into its messages: the leading count byte, then
/// for each message a two-byte big-endian length and the bytes. Any length or
/// boundary overrun yields `None`; trailing bytes after the counted messages
/// are ignored.
pub fn unbatch_messages(data: &[u8]) -> (r: Option<Vec<Vec<u8>>>)
    ensures
        match r {
            Some(msgs) => spec_unbatch(data@) == Some(views_of(msgs@)),
            None => spec_unbatch(data@) is None,
        },
{
    if data.len() == 0 {
        return None;
    }
    let n = data.len();
    let msg_count = data[0] as usize;
    let mut messages: Vec<Vec<u8>> = Vec::new();
    let mut offset: usize = 1;
    let mut done: usize = 0;
    proof {
        assert(views_of(messages@) =~= Seq::<Seq<u8>>::empty());
    }
    while done < msg_count
        invariant
            data@.len() > 0,
            n == data@.len(),
            msg_count == data@[0] as int,
            done <= msg_count,
            1 <= offset <= data@.len(),
            done < msg_count ==> match parse_frames(
                data@.skip(offset as int),
                (msg_count - done) as nat,
            ) {
                Some(rest) => parse_frames(data@.skip(1), msg_count as nat) == Some(
                    views_of(messages@) + rest,
                ),
                None => parse_frames(data@.skip(1), msg_count as nat) is None,
            },
            done == msg_count ==> parse_frames(data@.skip(1), msg_count as nat) == Some(
                views_of(messages@),
            ),
        decreases msg_count - done,
    {
        let ghost tail = data@.skip(offset as int);
        let ghost remaining = (msg_count - done) as nat;
        if data.len() < 2 || offset > data.len() - 2 {
            proof {
                assert(tail.len() < 2);
                assert(parse_frames(tail, remaining) is None);
            }
            return None;
        }
        let len = (data[offset] as usize) * 256 + (data[offset + 1] as usize);
        proof {
            assert(tail[0] == data@[offset as int]);
            assert(tail[1] == data@[offset as int + 1]);
        }
        if len > data.len() - (offset + 2) {
            proof {
                assert(2 + len > tail.len());
                assert(parse_frames(tail, remaining) is None);
            }
            return None;
        }
        let mut msg: Vec<u8> = Vec::new();
        let mut k: usize = 0;
        proof {
            assert(data@.subrange(offset + 2, offset + 2) =~= Seq::<u8>::empty());
        }
        while k < len
            invariant
                k <= len,
                n == data@.len(),
                offset + 2 + len <= data@.len(),
                msg@ == data@.subrange(offset + 2, offset + 2 + k),
            decreases len - k,
        {
            msg.push(data[offset + 2 + k]);
            proof {
                assert(data@.subrange(offset + 2, offset + 2 + k).push(
                    data@[offset + 2 + k],
                ) =~= data@.subrange(offset + 2, offset + 2 + k + 1));
            }
            k += 1;
        }
        proof {
            assert(msg@ =~= tail.subrange(2, 2 + len));
            assert(data@.skip(offset + 2 + len) =~= tail.skip(2 + len));
            let inner = parse_frames(tail.skip(2 + len), (remaining - 1) as nat);
            if inner is Some {
                assert(parse_frames(tail, remaining) == Some(
                    seq![tail.subrange(2, 2 + len as int)] + inner.unwrap(),
                ));
                assert(views_of(messages@.push(msg)) =~= views_of(messages@).push(msg@));
                assert(views_of(messages@) + (seq![msg@] + inner.unwrap()) =~= views_of(
                    messages@.push(msg),
                ) + inner.unwrap());
            } else {
                assert(parse_frames(tail, remaining) is None);
            }
        }
        messages.push(msg);
        offset = offset + 2 + len;
        done += 1;
        proof {
            if done == msg_count {
                assert(parse_frames(data@.skip(offset as int), 0) == Some(
                    Seq::<Seq<u8>>::empty(),
                ));
                assert(views_of(messages@) + Seq::<Seq<u8>>::empty() =~= views_of(messages@));
            }
        }
    }
    Some(messages)
}

} // verus!
