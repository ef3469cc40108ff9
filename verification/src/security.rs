//! Packet integrity (CRC-32C), connect tokens, and connection rate limiting.
//!
//! Every outgoing datagram carries a trailing CRC-32C (Castagnoli polynomial)
//! in little-endian byte order; any datagram failing the check is discarded.
use vstd::prelude::*;

verus! {

/// CRC-32C (Castagnoli) polynomial, reflected form.
pub const CRC32C_POLYNOMIAL: u32 = 0x82F63B78;

/// One bit step of the reflected CRC-32C computation.
pub open spec fn crc32c_step(crc: u32) -> u32 {
    if crc & 1 != 0 {
        (crc >> 1) ^ CRC32C_POLYNOMIAL
    } else {
        crc >> 1
    }
}

/// `k` bit steps of the CRC computation.
pub open spec fn crc32c_steps(crc: u32, k: nat) -> u32
    decreases k,
{
    if k == 0 {
        crc
    } else {
        crc32c_steps(crc32c_step(crc), (k - 1) as nat)
    }
}

/// Folds one byte into the running CRC: xor, then eight bit steps.
pub open spec fn crc32c_byte(crc: u32, byte: u8) -> u32 {
    crc32c_steps(crc ^ (byte as u32), 8)
}

/// Folds a byte string into the running CRC, front to back.
pub open spec fn crc32c_fold(crc: u32, data: Seq<u8>) -> u32
    decreases data.len(),
{
    if data.len() == 0 {
        crc
    } else {
        crc32c_fold(crc32c_byte(crc, data[0]), data.skip(1))
    }
}

/// The CRC-32C checksum of a byte string.
pub open spec fn spec_crc32c(data: Seq<u8>) -> u32 {
    !crc32c_fold(0xFFFFFFFFu32, data)
}

/// The four little-endian bytes of a 32-bit value.
pub open spec fn le_bytes32(v: u32) -> Seq<u8> {
    seq![(v & 0xff) as u8, ((v >> 8) & 0xff) as u8, ((v >> 16) & 0xff) as u8, (
    (v >> 24) & 0xff) as u8]
}

/// A byte string ends in the CRC-32C of everything before it.
pub open spec fn crc_valid(data: Seq<u8>) -> bool {
    data.len() >= 4 && data.skip(data.len() - 4) == le_bytes32(
        spec_crc32c(data.take(data.len() - 4)),
    )
}

/// Folding distributes over appending one byte at the back.
pub proof fn lemma_crc32c_fold_push(crc: u32, data: Seq<u8>, byte: u8)
    ensures
        crc32c_fold(crc, data.push(byte)) == crc32c_byte(crc32c_fold(crc, data), byte),
    decreases data.len(),
{
    if data.len() == 0 {
        assert(data.push(byte)[0] == byte);
        assert(data.push(byte).skip(1) =~= Seq::<u8>::empty());
        assert(crc32c_fold(crc32c_byte(crc, byte), Seq::<u8>::empty()) == crc32c_byte(
            crc,
            byte,
        ));
    } else {
        assert(data.push(byte)[0] == data[0]);
        assert(data.push(byte).skip(1) =~= data.skip(1).push(byte));
        lemma_crc32c_fold_push(crc32c_byte(crc, data[0]), data.skip(1), byte);
    }
}

/// CRC32C checksum (Castagnoli) over a byte string, as used for packet
/// integrity.
pub fn crc32c(data: &[u8]) -> (r: u32)
    ensures
        r == spec_crc32c(data@),
{
    let mut crc: u32 = 0xFFFFFFFF;
    let mut i: usize = 0;
    proof {
        assert(data@.take(0) =~= Seq::<u8>::empty());
    }
    while i < data.len()
        invariant
            i <= data@.len(),
            crc == crc32c_fold(0xFFFFFFFFu32, data@.take(i as int)),
        decreases data@.len() - i,
    {
        let byte = data[i];
        let ghost before = crc;
        crc = crc ^ (byte as u32);
        let mut k: usize = 0;
        while k < 8
            invariant
                k <= 8,
                crc32c_steps(crc, (8 - k) as nat) == crc32c_byte(before, byte),
            decreases 8 - k,
        {
            if crc & 1 != 0 {
                crc = (crc >> 1) ^ CRC32C_POLYNOMIAL;
            } else {
                crc = crc >> 1;
            }
            k += 1;
        }
        proof {
            lemma_crc32c_fold_push(0xFFFFFFFFu32, data@.take(i as int), byte);
            assert(data@.take(i as int).push(byte) =~= data@.take(i + 1));
        }
        i += 1;
    }
    proof {
        assert(data@.take(data@.len() as int) =~= data@);
    }
    !crc
}

/// Appends the CRC-32C of the buffer to the buffer, little-endian.
pub fn append_crc32(data: &mut Vec<u8>)
    ensures
        final(data)@ == old(data)@ + le_bytes32(spec_crc32c(old(data)@)),
        crc_valid(final(data)@),
{
    let crc = crc32c(data.as_slice());
    data.push((crc & 0xff) as u8);
    data.push(((crc >> 8) & 0xff) as u8);
    data.push(((crc >> 16) & 0xff) as u8);
    data.push(((crc >> 24) & 0xff) as u8);
    proof {
        assert(final(data)@ =~= old(data)@ + le_bytes32(spec_crc32c(old(data)@)));
        assert(final(data)@.take(final(data)@.len() - 4) =~= old(data)@);
        assert(final(data)@.skip(final(data)@.len() - 4) =~= le_bytes32(
            spec_crc32c(old(data)@),
        ));
    }
}

/// Reading four little-endian bytes recomposes exactly the value whose
/// little-endian bytes they are.
proof fn lemma_le_bytes32_inverse(v: u32, b0: u8, b1: u8, b2: u8, b3: u8)
    ensures
        (le_bytes32(v) == seq![b0, b1, b2, b3]) <==> v == (b0 as u32) | ((b1 as u32) << 8) | (
        (b2 as u32) << 16) | ((b3 as u32) << 24),
{
    assert(((v & 0xff) as u8 == b0 && ((v >> 8) & 0xff) as u8 == b1 && ((v >> 16) & 0xff) as u8
        == b2 && ((v >> 24) & 0xff) as u8 == b3) <==> v == (b0 as u32) | ((b1 as u32) << 8) | (
    (b2 as u32) << 16) | ((b3 as u32) << 24)) by (bit_vector);
    if le_bytes32(v) == seq![b0, b1, b2, b3] {
        assert(le_bytes32(v)[0] == b0);
        assert(le_bytes32(v)[1] == b1);
        assert(le_bytes32(v)[2] == b2);
        assert(le_bytes32(v)[3] == b3);
    }
    if v == (b0 as u32) | ((b1 as u32) << 8) | ((b2 as u32) << 16) | ((b3 as u32) << 24) {
        assert(le_bytes32(v) =~= seq![b0, b1, b2, b3]);
    }
}

/// Validates and strips the trailing CRC-32C. Returns the payload without the
/// checksum exactly when the checksum matches; corrupt or short input yields
/// `None`.
pub fn validate_and_strip_crc32(data: &[u8]) -> (r: Option<&[u8]>)
    ensures
        r is Some <==> crc_valid(data@),
        r matches Some(payload) ==> payload@ == data@.take(data@.len() - 4),
{
    if data.len() < 4 {
        return None;
    }
    let n = data.len();
    let payload = &data[0..n - 4];
    let b0 = data[n - 4];
    let b1 = data[n - 3];
    let b2 = data[n - 2];
    let b3 = data[n - 1];
    let expected = (b0 as u32) | ((b1 as u32) << 8u32) | ((b2 as u32) << 16u32) | ((
    b3 as u32) << 24u32);
    let actual = crc32c(payload);
    proof {
        lemma_le_bytes32_inverse(actual, b0, b1, b2, b3);
        assert(data@.skip(n - 4) =~= seq![b0, b1, b2, b3]);
    }
    if actual == expected {
        Some(payload)
    } else {
        None
    }
}

/// Connect token identifying a client; peers and times are modelled as plain
/// integers (peer ids and milliseconds).
#[derive(Debug, Clone)]
pub struct ConnectToken {
    pub client_id: u64,
    pub server_addresses: Vec<u64>,
    pub create_time_ms: u64,
    pub expire_duration_ms: u64,
    pub user_data: Vec<u8>,
    pub token_data: Vec<u8>,
}

/// The eight little-endian bytes of a 64-bit value.
pub open spec fn le_bytes64(v: u64) -> Seq<u8> {
    seq![(v & 0xff) as u8, ((v >> 8) & 0xff) as u8, ((v >> 16) & 0xff) as u8, (
    (v >> 24) & 0xff) as u8, ((v >> 32) & 0xff) as u8, ((v >> 40) & 0xff) as u8, (
    (v >> 48) & 0xff) as u8, ((v >> 56) & 0xff) as u8]
}

fn push_le_bytes64(out: &mut Vec<u8>, v: u64)
    ensures
        final(out)@ == old(out)@ + le_bytes64(v),
{
    out.push((v & 0xff) as u8);
    out.push(((v >> 8u64) & 0xff) as u8);
    out.push(((v >> 16u64) & 0xff) as u8);
    out.push(((v >> 24u64) & 0xff) as u8);
    out.push(((v >> 32u64) & 0xff) as u8);
    out.push(((v >> 40u64) & 0xff) as u8);
    out.push(((v >> 48u64) & 0xff) as u8);
    out.push(((v >> 56u64) & 0xff) as u8);
    proof {
        assert(final(out)@ =~= old(out)@ + le_bytes64(v));
    }
}

impl ConnectToken {
    /// A token created at `now_ms` that expires after `expire_secs` seconds.
    /// The opaque token bytes are the client id, the expiry, and the
    /// length-prefixed user data.
    pub fn new(client_id: u64, server_addresses: Vec<u64>, expire_secs: u64, user_data: Vec<u8>,
        now_ms: u64) -> (r: ConnectToken)
        requires
            expire_secs <= 0xFFFFFFFF,
            user_data@.len() <= 0xFFFFFFFF,
        ensures
            r.client_id == client_id,
            r.server_addresses@ == server_addresses@,
            r.create_time_ms == now_ms,
            r.expire_duration_ms == expire_secs * 1000,
            r.user_data@ == user_data@,
            r.token_data@ == le_bytes64(client_id) + le_bytes64(expire_secs) + le_bytes32(
                user_data@.len() as u32,
            ) + user_data@,
    {
        let mut token_data: Vec<u8> = Vec::new();
        push_le_bytes64(&mut token_data, client_id);
        push_le_bytes64(&mut token_data, expire_secs);
        let len32 = user_data.len() as u32;
        token_data.push((len32 & 0xff) as u8);
        token_data.push(((len32 >> 8u32) & 0xff) as u8);
        token_data.push(((len32 >> 16u32) & 0xff) as u8);
        token_data.push(((len32 >> 24u32) & 0xff) as u8);
        let mut i: usize = 0;
        let ghost head = token_data@;
        while i < user_data.len()
            invariant
                i <= user_data@.len(),
                token_data@ == head + user_data@.take(i as int),
            decreases user_data@.len() - i,
        {
            token_data.push(user_data[i]);
            proof {
                assert(token_data@ =~= head + user_data@.take(i + 1));
            }
            i += 1;
        }
        proof {
            assert(user_data@.take(user_data@.len() as int) =~= user_data@);
            assert(head =~= le_bytes64(client_id) + le_bytes64(expire_secs) + le_bytes32(
                user_data@.len() as u32,
            ));
        }
        ConnectToken {
            client_id,
            server_addresses,
            create_time_ms: now_ms,
            expire_duration_ms: expire_secs * 1000,
            user_data,
            token_data,
        }
    }

    /// True once more than the expire duration has passed since creation.
    pub fn is_expired(&self, now_ms: u64) -> (r: bool)
        ensures
            r == (now_ms > self.create_time_ms + self.expire_duration_ms),
    {
        now_ms > self.expire_duration_ms && now_ms - self.expire_duration_ms
            > self.create_time_ms
    }
}

/// Errors a connect token can fail validation with.
#[derive(Debug, Clone, PartialEq, Eq, Structural)]
pub enum TokenError {
    Expired,
    Replayed,
    Invalid,
}

/// True when some used-token entry carries this client id.
pub open spec fn has_client_id(used: Seq<(u64, u64)>, client_id: u64) -> bool {
    exists|j: int| 0 <= j < used.len() && (#[trigger] used[j]).0 == client_id
}

/// True when a used-token entry is still inside the remembrance window.
pub open spec fn token_fresh(e: (u64, u64), now_ms: u64, lifetime_ms: u64) -> bool {
    now_ms < e.1 || now_ms - e.1 < lifetime_ms
}

/// The used-token entries still inside the remembrance window, in order.
pub open spec fn retain_fresh_tokens(used: Seq<(u64, u64)>, now_ms: u64, lifetime_ms: u64) -> Seq<
    (u64, u64),
>
    decreases used.len(),
{
    if used.len() == 0 {
        Seq::<(u64, u64)>::empty()
    } else {
        let rest = retain_fresh_tokens(used.drop_last(), now_ms, lifetime_ms);
        if token_fresh(used.last(), now_ms, lifetime_ms) {
            rest.push(used.last())
        } else {
            rest
        }
    }
}

/// Server-side connect token validator: remembers recently used client ids to
/// reject replays.
pub struct TokenValidator {
    pub used_tokens: Vec<(u64, u64)>,
    pub token_lifetime_ms: u64,
}

impl TokenValidator {
    /// A validator that remembers used tokens for `token_lifetime_ms`.
    pub fn new(token_lifetime_ms: u64) -> (r: TokenValidator)
        ensures
            r.used_tokens@ == Seq::<(u64, u64)>::empty(),
            r.token_lifetime_ms == token_lifetime_ms,
    {
        TokenValidator { used_tokens: Vec::new(), token_lifetime_ms }
    }

    /// Validates a connect token at time `now_ms`. Returns the client id
    /// exactly when the token is not expired and its client id has not been
    /// seen; an accepted id is remembered, and entries older than the token
    /// lifetime are dropped.
    pub fn validate(&mut self, token: &ConnectToken, now_ms: u64) -> (r: Result<u64, TokenError>)
        ensures
            r == (if now_ms > token.create_time_ms + token.expire_duration_ms {
                Err::<u64, TokenError>(TokenError::Expired)
            } else if has_client_id(old(self).used_tokens@, token.client_id) {
                Err::<u64, TokenError>(TokenError::Replayed)
            } else {
                Ok::<u64, TokenError>(token.client_id)
            }),
            r is Ok && old(self).token_lifetime_ms > 0 ==> has_client_id(
                final(self).used_tokens@,
                token.client_id,
            ),
            final(self).token_lifetime_ms == old(self).token_lifetime_ms,
            r is Err ==> final(self).used_tokens@ == old(self).used_tokens@,
    {
        if token.is_expired(now_ms) {
            return Err(TokenError::Expired);
        }
        let mut i: usize = 0;
        let n = self.used_tokens.len();
        while i < n
            invariant
                i <= n,
                n == self.used_tokens@.len(),
                *self == *old(self),
                now_ms <= token.create_time_ms + token.expire_duration_ms,
                forall|j: int| 0 <= j < i ==> (#[trigger] self.used_tokens@[j]).0
                    != token.client_id,
            decreases n - i,
        {
            if self.used_tokens[i].0 == token.client_id {
                proof {
                    assert(self.used_tokens@[i as int].0 == token.client_id);
                }
                return Err(TokenError::Replayed);
            }
            i += 1;
        }
        self.used_tokens.push((token.client_id, now_ms));
        let ghost pushed = self.used_tokens@;
        self.cleanup(now_ms);
        proof {
            if self.token_lifetime_ms > 0 {
                let kept = self.used_tokens@;
                assert(token_fresh(pushed.last(), now_ms, self.token_lifetime_ms));
                assert(kept.last() == pushed.last());
                assert(kept[kept.len() - 1].0 == token.client_id);
            }
        }
        Ok(token.client_id)
    }

    /// Drops remembered ids older than the token lifetime; fresh entries are
    /// kept in order.
    pub fn cleanup(&mut self, now_ms: u64)
        ensures
            final(self).used_tokens@ == retain_fresh_tokens(
                old(self).used_tokens@,
                now_ms,
                old(self).token_lifetime_ms,
            ),
            final(self).token_lifetime_ms == old(self).token_lifetime_ms,
    {
        let mut kept: Vec<(u64, u64)> = Vec::new();
        let mut i: usize = 0;
        let n = self.used_tokens.len();
        proof {
            assert(self.used_tokens@.take(0) =~= Seq::<(u64, u64)>::empty());
        }
        while i < n
            invariant
                i <= n,
                n == self.used_tokens@.len(),
                kept@ == retain_fresh_tokens(
                    self.used_tokens@.take(i as int),
                    now_ms,
                    self.token_lifetime_ms,
                ),
            decreases n - i,
        {
            let e = self.used_tokens[i];
            proof {
                let t = self.used_tokens@.take(i + 1);
                assert(t.drop_last() =~= self.used_tokens@.take(i as int));
                assert(t.last() == self.used_tokens@[i as int]);
            }
            if now_ms < e.1 || now_ms - e.1 < self.token_lifetime_ms {
                kept.push(e);
            }
            i += 1;
        }
        proof {
            assert(self.used_tokens@.take(n as int) =~= self.used_tokens@);
        }
        self.used_tokens = kept;
    }
}

/// True when a request timestamp still counts against the rate window.
pub open spec fn in_window(t: u64, now_ms: u64, window_ms: u64) -> bool {
    now_ms < t || now_ms - t < window_ms
}

/// The timestamps of a peer's requests still inside the window, in order.
pub open spec fn fresh_requests(ts: Seq<u64>, now_ms: u64, window_ms: u64) -> Seq<u64>
    decreases ts.len(),
{
    if ts.len() == 0 {
        Seq::<u64>::empty()
    } else {
        let rest = fresh_requests(ts.drop_last(), now_ms, window_ms);
        if in_window(ts.last(), now_ms, window_ms) {
            rest.push(ts.last())
        } else {
            rest
        }
    }
}

/// The recorded request timestamps of one peer, empty if the peer is unknown.
pub open spec fn requests_of(entries: Seq<(u64, Vec<u64>)>, addr: u64) -> Seq<u64>
    decreases entries.len(),
{
    if entries.len() == 0 {
        Seq::<u64>::empty()
    } else if entries[0].0 == addr {
        entries[0].1@
    } else {
        requests_of(entries.skip(1), addr)
    }
}

/// Per-source-address rate limiter for connection requests: at most
/// `max_requests_per_second` requests in any sliding one-second window.
pub struct ConnectionRateLimiter {
    pub requests: Vec<(u64, Vec<u64>)>,
    pub max_requests_per_second: usize,
    pub window_ms: u64,
}

impl ConnectionRateLimiter {
    /// A limiter allowing `max_requests_per_second` requests per address in a
    /// one-second sliding window.
    pub fn new(max_requests_per_second: usize) -> (r: ConnectionRateLimiter)
        ensures
            r.requests@ == Seq::<(u64, Vec<u64>)>::empty(),
            r.max_requests_per_second == max_requests_per_second,
            r.window_ms == 1000,
    {
        ConnectionRateLimiter { requests: Vec::new(), max_requests_per_second, window_ms: 1000 }
    }

    /// Returns true, and records the request, exactly when the address has
    /// made fewer than the allowed number of requests inside the current
    /// window.
    pub fn allow(&mut self, addr: u64, now_ms: u64) -> (r: bool)
        ensures
            r == (fresh_requests(requests_of(old(self).requests@, addr), now_ms,
                old(self).window_ms).len() < old(self).max_requests_per_second),
            final(self).max_requests_per_second == old(self).max_requests_per_second,
            final(self).window_ms == old(self).window_ms,
            r ==> requests_of(final(self).requests@, addr) == fresh_requests(
                requests_of(old(self).requests@, addr),
                now_ms,
                old(self).window_ms,
            ).push(now_ms),
            !r ==> final(self).requests@ == old(self).requests@,
            forall|a2: u64| a2 != addr ==> requests_of(final(self).requests@, a2)
                == requests_of(old(self).requests@, a2),
    {
        let window = self.window_ms;
        let max = self.max_requests_per_second;
        let mut idx: usize = 0;
        let n = self.requests.len();
        let mut found = false;
        while idx < n && !found
            invariant
                idx <= n,
                n == self.requests@.len(),
                found ==> idx < n && self.requests@[idx as int].0 == addr,
                forall|j: int| 0 <= j < idx ==> (#[trigger] self.requests@[j]).0 != addr,
            decreases n - idx + (if found {
                0int
            } else {
                1int
            }),
        {
            if self.requests[idx].0 == addr {
                found = true;
            } else {
                idx += 1;
            }
        }
        proof {
            lemma_requests_of_position(self.requests@, addr, idx as int, found);
        }
        if !found {
            if max == 0 {
                return false;
            }
            let mut ts: Vec<u64> = Vec::new();
            ts.push(now_ms);
            let ghost old_reqs = self.requests@;
            self.requests.push((addr, ts));
            proof {
                lemma_requests_of_new_entry(old_reqs, addr, self.requests@.last().1);
                assert(requests_of(self.requests@, addr) =~= Seq::<u64>::empty().push(now_ms));
                lemma_requests_of_push_other(old_reqs, addr, self.requests@.last().1);
            }
            return true;
        }
        let entry_ts = &self.requests[idx].1;
        let mut fresh_ts: Vec<u64> = Vec::new();
        let mut k: usize = 0;
        let m = entry_ts.len();
        proof {
            assert(entry_ts@.take(0) =~= Seq::<u64>::empty());
        }
        while k < m
            invariant
                k <= m,
                m == entry_ts@.len(),
                fresh_ts@ == fresh_requests(entry_ts@.take(k as int), now_ms, window),
            decreases m - k,
        {
            let t = entry_ts[k];
            proof {
                let tk = entry_ts@.take(k + 1);
                assert(tk.drop_last() =~= entry_ts@.take(k as int));
                assert(tk.last() == entry_ts@[k as int]);
            }
            if now_ms < t || now_ms - t < window {
                fresh_ts.push(t);
            }
            k += 1;
        }
        proof {
            assert(entry_ts@.take(m as int) =~= entry_ts@);
        }
        if fresh_ts.len() >= max {
            return false;
        }
        fresh_ts.push(now_ms);
        let ghost old_reqs = self.requests@;
        let ghost new_ts_view = fresh_ts@;
        self.requests[idx] = (addr, fresh_ts);
        proof {
            lemma_requests_of_update(old_reqs, self.requests@, addr, idx as int);
            lemma_requests_of_update_other(old_reqs, self.requests@, idx as int);
        }
        true
    }
}

impl ConnectionRateLimiter {
    /// Drops peers whose every recorded request has left the window; exactly
    /// the entries with a fresh request are kept, in order.
    pub fn cleanup(&mut self, now_ms: u64)
        ensures
            final(self).max_requests_per_second == old(self).max_requests_per_second,
            final(self).window_ms == old(self).window_ms,
            final(self).requests@ == retain_active(
                old(self).requests@,
                now_ms,
                old(self).window_ms,
            ),
    {
        let window = self.window_ms;
        let mut work: Vec<(u64, Vec<u64>)> = Vec::new();
        core::mem::swap(&mut work, &mut self.requests);
        let ghost orig = work@;
        let ghost mut i: int = 0;
        proof {
            assert(orig.take(0) =~= Seq::<(u64, Vec<u64>)>::empty());
            assert(orig.skip(0) =~= orig);
        }
        while work.len() > 0
            invariant
                0 <= i,
                i + work@.len() == orig.len(),
                work@ == orig.skip(i),
                window == self.window_ms,
                self.window_ms == old(self).window_ms,
                self.max_requests_per_second == old(self).max_requests_per_second,
                self.requests@ == retain_active(orig.take(i), now_ms, window),
            decreases work@.len(),
        {
            proof {
                crate::assoc::lemma_skip_front(orig, i);
                let t = orig.take(i + 1);
                assert(t.drop_last() =~= orig.take(i));
                assert(t.last() == orig[i]);
            }
            let entry = work.remove(0);
            let mut any_fresh = false;
            let mut k: usize = 0;
            let m = entry.1.len();
            while k < m
                invariant
                    k <= m,
                    m == entry.1@.len(),
                    window == self.window_ms,
                    any_fresh == (fresh_requests(entry.1@.take(k as int), now_ms, window).len()
                        > 0),
                decreases m - k,
            {
                proof {
                    let tk = entry.1@.take(k + 1);
                    assert(tk.drop_last() =~= entry.1@.take(k as int));
                    assert(tk.last() == entry.1@[k as int]);
                }
                let ts = entry.1[k];
                if now_ms < ts || now_ms - ts < window {
                    any_fresh = true;
                }
                k += 1;
            }
            proof {
                assert(entry.1@.take(m as int) =~= entry.1@);
            }
            if any_fresh {
                self.requests.push(entry);
            }
            proof {
                i = i + 1;
            }
        }
        proof {
            assert(orig.take(orig.len() as int) =~= orig);
        }
    }
}

/// The limiter entries that still have a request inside the window, in
/// order.
pub open spec fn retain_active(
    entries: Seq<(u64, Vec<u64>)>,
    now_ms: u64,
    window_ms: u64,
) -> Seq<(u64, Vec<u64>)>
    decreases entries.len(),
{
    if entries.len() == 0 {
        Seq::<(u64, Vec<u64>)>::empty()
    } else {
        let rest = retain_active(entries.drop_last(), now_ms, window_ms);
        if fresh_requests(entries.last().1@, now_ms, window_ms).len() > 0 {
            rest.push(entries.last())
        } else {
            rest
        }
    }
}

/// If the scan stopped at `idx` on a match (or scanned everything without
/// one), `requests_of` is the timestamps at `idx` (or empty).
proof fn lemma_requests_of_position(entries: Seq<(u64, Vec<u64>)>, addr: u64, idx: int,
    found: bool)
    requires
        0 <= idx <= entries.len(),
        found ==> idx < entries.len() && entries[idx].0 == addr,
        forall|j: int| 0 <= j < idx ==> (#[trigger] entries[j]).0 != addr,
        !found ==> idx == entries.len(),
    ensures
        found ==> requests_of(entries, addr) == entries[idx].1@,
        !found ==> requests_of(entries, addr) == Seq::<u64>::empty(),
    decreases entries.len(),
{
    if entries.len() > 0 {
        if entries[0].0 == addr {
        } else {
            lemma_requests_of_position(entries.skip(1), addr, idx - 1, found);
        }
    }
}

/// Appending an entry leaves every other address's timestamps unchanged.
proof fn lemma_requests_of_push_other(entries: Seq<(u64, Vec<u64>)>, addr: u64, ts: Vec<u64>)
    ensures
        forall|a2: u64| a2 != addr ==> requests_of(entries.push((addr, ts)), a2) == requests_of(
            entries,
            a2,
        ),
    decreases entries.len(),
{
    let pushed = entries.push((addr, ts));
    if entries.len() == 0 {
        assert(pushed[0] == (addr, ts));
        assert(pushed.skip(1) =~= Seq::<(u64, Vec<u64>)>::empty());
        assert forall|a2: u64| a2 != addr implies requests_of(pushed, a2) == requests_of(
            entries,
            a2,
        ) by {
            assert(requests_of(pushed, a2) == requests_of(Seq::<(u64, Vec<u64>)>::empty(), a2));
        }
    } else {
        assert(pushed[0] == entries[0]);
        assert(pushed.skip(1) =~= entries.skip(1).push((addr, ts)));
        lemma_requests_of_push_other(entries.skip(1), addr, ts);
        assert forall|a2: u64| a2 != addr implies requests_of(pushed, a2) == requests_of(
            entries,
            a2,
        ) by {
            if entries[0].0 == a2 {
            } else {
                assert(requests_of(pushed, a2) == requests_of(pushed.skip(1), a2));
                assert(requests_of(entries.skip(1).push((addr, ts)), a2) == requests_of(
                    entries.skip(1),
                    a2,
                ));
                assert(requests_of(entries, a2) == requests_of(entries.skip(1), a2));
            }
        }
    }
}

/// Replacing one entry's timestamps, keeping its key, leaves every other
/// address's timestamps unchanged.
proof fn lemma_requests_of_update_other(before: Seq<(u64, Vec<u64>)>, after: Seq<
    (u64, Vec<u64>),
>, idx: int)
    requires
        0 <= idx < before.len(),
        after.len() == before.len(),
        after[idx].0 == before[idx].0,
        forall|j: int| 0 <= j < before.len() && j != idx ==> after[j] == before[j],
    ensures
        forall|a2: u64| a2 != before[idx].0 ==> requests_of(after, a2) == requests_of(
            before,
            a2,
        ),
    decreases before.len(),
{
    if before.len() > 0 {
        if idx == 0 {
            assert(after[0].0 == before[0].0);
            assert(after.skip(1) =~= before.skip(1));
            assert forall|a2: u64| a2 != before[0].0 implies requests_of(after, a2)
                == requests_of(before, a2) by {
                assert(requests_of(after, a2) == requests_of(after.skip(1), a2));
                assert(requests_of(before, a2) == requests_of(before.skip(1), a2));
            }
        } else {
            assert(after[0] == before[0]);
            assert(after.skip(1) =~= before.skip(1).update(idx - 1, after[idx]));
            assert(before.skip(1)[idx - 1] == before[idx]);
            lemma_requests_of_update_other(before.skip(1), after.skip(1), idx - 1);
            assert forall|a2: u64| a2 != before[idx].0 implies requests_of(after, a2)
                == requests_of(before, a2) by {
                if before[0].0 == a2 {
                } else {
                    assert(requests_of(after, a2) == requests_of(after.skip(1), a2));
                    assert(requests_of(before, a2) == requests_of(before.skip(1), a2));
                }
            }
        }
    }
}

/// Appending an entry for an address no existing entry carries makes its
/// timestamps that entry's timestamps.
proof fn lemma_requests_of_new_entry(entries: Seq<(u64, Vec<u64>)>, addr: u64, ts: Vec<u64>)
    requires
        forall|j: int| 0 <= j < entries.len() ==> (#[trigger] entries[j]).0 != addr,
    ensures
        requests_of(entries.push((addr, ts)), addr) == ts@,
    decreases entries.len(),
{
    if entries.len() == 0 {
        assert(entries.push((addr, ts))[0] == (addr, ts));
    } else {
        assert(entries.push((addr, ts))[0] == entries[0]);
        assert(entries.push((addr, ts)).skip(1) =~= entries.skip(1).push((addr, ts)));
        lemma_requests_of_new_entry(entries.skip(1), addr, ts);
    }
}

/// Replacing the first entry of an address with new timestamps makes its
/// timestamps the new ones.
proof fn lemma_requests_of_update(before: Seq<(u64, Vec<u64>)>, after: Seq<(u64, Vec<u64>)>,
    addr: u64, idx: int)
    requires
        0 <= idx < before.len(),
        after.len() == before.len(),
        after[idx].0 == addr,
        forall|j: int| 0 <= j < before.len() && j != idx ==> after[j] == before[j],
        forall|j: int| 0 <= j < idx ==> (#[trigger] before[j]).0 != addr,
    ensures
        requests_of(after, addr) == after[idx].1@,
    decreases idx,
{
    if idx == 0 {
    } else {
        assert(after[0] == before[0]);
        lemma_requests_of_update(before.skip(1), after.skip(1), addr, idx - 1);
        assert(after.skip(1)[idx - 1] == after[idx]);
    }
}

/// Errors of the optional authenticated-encryption path.
#[derive(Debug, Clone, PartialEq, Eq, Structural)]
pub enum EncryptionError {
    InvalidKey,
    NonceError,
    EncryptFailed,
    DecryptFailed,
    FeatureNotEnabled,
}

/// Placeholder for builds without authenticated encryption: always refuses.
pub fn encrypt_payload(_payload: &[u8], _key: &[u8; 32], _sequence: u64) -> (r: Result<
    Vec<u8>,
    EncryptionError,
>)
    ensures
        r == Err::<Vec<u8>, EncryptionError>(EncryptionError::FeatureNotEnabled),
{
    Err(EncryptionError::FeatureNotEnabled)
}

/// Placeholder for builds without authenticated encryption: always refuses.
pub fn decrypt_payload(_ciphertext: &[u8], _key: &[u8; 32], _sequence: u64) -> (r: Result<
    Vec<u8>,
    EncryptionError,
>)
    ensures
        r == Err::<Vec<u8>, EncryptionError>(EncryptionError::FeatureNotEnabled),
{
    Err(EncryptionError::FeatureNotEnabled)
}

} // verus!
