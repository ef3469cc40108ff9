//! Bit-level reader/writer used by the packet codec.
//!
//! A `BitBuffer` holds a growable sequence of bits. Fields are written
//! most-significant-bit first; bytes pack bits in the same order, so encoders
//! and decoders that write and read the same field widths in the same order
//! reproduce each other's values exactly.
use vstd::prelude::*;
use vstd::arithmetic::power2::{pow2, lemma_pow2_unfold, lemma_pow2_pos, lemma2_to64};

verus! {

/// The low `n` bits of `v`, most significant first. Bits of `v` above the
/// low `n` are ignored, so the encoding truncates values that do not fit.
pub open spec fn u64_to_bits(v: u64, n: nat) -> Seq<bool>
    decreases n,
{
    if n == 0 {
        Seq::<bool>::empty()
    } else {
        u64_to_bits(v / 2, (n - 1) as nat).push(v % 2 == 1)
    }
}

/// The unsigned value of a bit string read most-significant-bit first.
pub open spec fn bits_to_nat(s: Seq<bool>) -> nat
    decreases s.len(),
{
    if s.len() == 0 {
        0
    } else {
        2 * bits_to_nat(s.drop_last()) + (if s.last() {
            1nat
        } else {
            0nat
        })
    }
}

/// The bits of a byte string, each byte most-significant-bit first.
pub open spec fn bytes_to_bits(bs: Seq<u8>) -> Seq<bool>
    decreases bs.len(),
{
    if bs.len() == 0 {
        Seq::<bool>::empty()
    } else {
        u64_to_bits(bs[0] as u64, 8) + bytes_to_bits(bs.skip(1))
    }
}

/// The bytes packed from a bit string whose length is a multiple of 8.
pub open spec fn bits_to_bytes(s: Seq<bool>) -> Seq<u8>
    decreases s.len(),
{
    if s.len() < 8 {
        Seq::<u8>::empty()
    } else {
        seq![bits_to_nat(s.take(8)) as u8] + bits_to_bytes(s.skip(8))
    }
}

pub proof fn lemma_u64_to_bits_len(v: u64, n: nat)
    ensures
        u64_to_bits(v, n).len() == n,
    decreases n,
{
    if n > 0 {
        lemma_u64_to_bits_len(v / 2, (n - 1) as nat);
    }
}

pub proof fn lemma_bits_to_nat_bound(s: Seq<bool>)
    ensures
        bits_to_nat(s) < pow2(s.len()),
    decreases s.len(),
{
    if s.len() == 0 {
        lemma_pow2_pos(0);
        assert(pow2(0) == 1) by {
            lemma_pow2_unfold(1);
            lemma2_to64();
        }
    } else {
        lemma_bits_to_nat_bound(s.drop_last());
        lemma_pow2_unfold(s.len());
    }
}

/// Encoding a value that fits in `n` bits and reading the bits back yields
/// the value.
pub proof fn lemma_bits_to_nat_of_u64_to_bits(v: u64, n: nat)
    requires
        n <= 64,
        v < pow2(n),
    ensures
        bits_to_nat(u64_to_bits(v, n)) == v,
    decreases n,
{
    if n == 0 {
        assert(pow2(0) == 1) by {
            lemma2_to64();
        }
    } else {
        lemma_pow2_unfold(n);
        lemma_u64_to_bits_len(v / 2, (n - 1) as nat);
        assert(v / 2 < pow2((n - 1) as nat));
        lemma_bits_to_nat_of_u64_to_bits(v / 2, (n - 1) as nat);
        let s = u64_to_bits(v, n);
        assert(s.drop_last() =~= u64_to_bits(v / 2, (n - 1) as nat));
        assert(bits_to_nat(s) == 2 * (v / 2) + (if v % 2 == 1 {
            1nat
        } else {
            0nat
        }));
    }
}

/// Any bit string of length at most 64 is the encoding of its own value.
pub proof fn lemma_u64_to_bits_of_bits_to_nat(s: Seq<bool>)
    requires
        s.len() <= 64,
    ensures
        u64_to_bits(bits_to_nat(s) as u64, s.len()) == s,
    decreases s.len(),
{
    lemma_bits_to_nat_bound(s);
    vstd::arithmetic::power2::lemma2_to64_rest();
    lemma2_to64();
    if s.len() > 0 {
        let v = bits_to_nat(s);
        let hi = bits_to_nat(s.drop_last());
        lemma_bits_to_nat_bound(s.drop_last());
        lemma_pow2_unfold(s.len());
        assert(v == 2 * hi + (if s.last() {
            1nat
        } else {
            0nat
        }));
        assert((v as u64) / 2 == hi);
        assert((v as u64) % 2 == (if s.last() {
            1nat
        } else {
            0nat
        }));
        lemma_u64_to_bits_of_bits_to_nat(s.drop_last());
        assert(u64_to_bits(v as u64, s.len()) =~= s);
    } else {
        assert(u64_to_bits(0, 0) =~= s);
    }
}

pub proof fn lemma_bytes_to_bits_len(bs: Seq<u8>)
    ensures
        bytes_to_bits(bs).len() == 8 * bs.len(),
    decreases bs.len(),
{
    if bs.len() > 0 {
        lemma_u64_to_bits_len(bs[0] as u64, 8);
        lemma_bytes_to_bits_len(bs.skip(1));
    }
}

/// Appending one byte appends its eight bits.
pub proof fn lemma_bytes_to_bits_push(bs: Seq<u8>, x: u8)
    ensures
        bytes_to_bits(bs.push(x)) == bytes_to_bits(bs) + u64_to_bits(x as u64, 8),
    decreases bs.len(),
{
    lemma_u64_to_bits_len(x as u64, 8);
    if bs.len() == 0 {
        assert(bs.push(x).skip(1) =~= Seq::<u8>::empty());
        assert(bs.push(x)[0] == x);
        assert(bytes_to_bits(Seq::<u8>::empty()) == Seq::<bool>::empty());
        assert(bytes_to_bits(bs.push(x)) == u64_to_bits(x as u64, 8) + bytes_to_bits(
            bs.push(x).skip(1),
        ));
        assert(bytes_to_bits(bs.push(x)) =~= bytes_to_bits(bs) + u64_to_bits(x as u64, 8));
    } else {
        lemma_u64_to_bits_len(bs[0] as u64, 8);
        assert(bs.push(x)[0] == bs[0]);
        assert(bs.push(x).skip(1) =~= bs.skip(1).push(x));
        lemma_bytes_to_bits_push(bs.skip(1), x);
        assert(bytes_to_bits(bs.push(x)) =~= bytes_to_bits(bs) + u64_to_bits(x as u64, 8));
    }
}

/// The bits of a concatenation are the concatenation of the bits.
pub proof fn lemma_bytes_to_bits_concat(a: Seq<u8>, b: Seq<u8>)
    ensures
        bytes_to_bits(a + b) == bytes_to_bits(a) + bytes_to_bits(b),
    decreases a.len(),
{
    if a.len() == 0 {
        assert(a + b =~= b);
        assert(bytes_to_bits(a + b) =~= bytes_to_bits(a) + bytes_to_bits(b));
    } else {
        assert((a + b).skip(1) =~= a.skip(1) + b);
        lemma_bytes_to_bits_concat(a.skip(1), b);
        assert(bytes_to_bits(a + b) =~= bytes_to_bits(a) + bytes_to_bits(b));
    }
}

/// Appending eight bits appends one byte.
pub proof fn lemma_bits_to_bytes_snoc(s: Seq<bool>, c: Seq<bool>)
    requires
        s.len() % 8 == 0,
        c.len() == 8,
    ensures
        bits_to_bytes(s + c) == bits_to_bytes(s).push(bits_to_nat(c) as u8),
    decreases s.len(),
{
    if s.len() == 0 {
        assert((s + c).take(8) =~= c);
        assert((s + c).skip(8) =~= Seq::<bool>::empty());
        assert(bits_to_bytes(s + c) == seq![bits_to_nat(c) as u8] + bits_to_bytes(
            Seq::<bool>::empty(),
        ));
        assert(bits_to_bytes(s + c) =~= bits_to_bytes(s).push(bits_to_nat(c) as u8));
    } else {
        assert((s + c).take(8) =~= s.take(8));
        assert((s + c).skip(8) =~= s.skip(8) + c);
        assert(bits_to_bytes(s + c) == seq![bits_to_nat(s.take(8)) as u8] + bits_to_bytes(
            s.skip(8) + c,
        ));
        lemma_bits_to_bytes_snoc(s.skip(8), c);
        assert(bits_to_bytes(s.skip(8) + c) == bits_to_bytes(s.skip(8)).push(
            bits_to_nat(c) as u8,
        ));
        assert(bits_to_bytes(s + c) =~= bits_to_bytes(s).push(bits_to_nat(c) as u8));
    }
}

/// Packing aligned bits into bytes and unpacking them again is the identity.
pub proof fn lemma_bytes_to_bits_of_bits_to_bytes(s: Seq<bool>)
    requires
        s.len() % 8 == 0,
    ensures
        bytes_to_bits(bits_to_bytes(s)) == s,
    decreases s.len(),
{
    if s.len() == 0 {
        assert(bytes_to_bits(bits_to_bytes(s)) =~= s);
    } else {
        let c = s.take(8);
        lemma_u64_to_bits_of_bits_to_nat(c);
        lemma_bits_to_nat_bound(c);
        lemma2_to64();
        assert(bits_to_nat(c) as u8 as u64 == bits_to_nat(c));
        lemma_bytes_to_bits_of_bits_to_bytes(s.skip(8));
        assert(bits_to_bytes(s)[0] == bits_to_nat(c) as u8);
        assert(bits_to_bytes(s).skip(1) =~= bits_to_bytes(s.skip(8)));
        assert(bytes_to_bits(bits_to_bytes(s)) =~= s);
    }
}

/// A growable bit string with a read cursor. Writes append at the end; reads
/// consume from the cursor forward.
pub struct BitBuffer {
    pub bits: Vec<bool>,
    pub cursor: usize,
}

impl BitBuffer {
    /// An empty buffer ready for writing.
    pub fn new() -> (r: BitBuffer)
        ensures
            r.bits@ == Seq::<bool>::empty(),
            r.cursor == 0,
    {
        BitBuffer { bits: Vec::new(), cursor: 0 }
    }

    /// A buffer holding the bits of `data`, ready for reading.
    pub fn from_bytes(data: Vec<u8>) -> (r: BitBuffer)
        ensures
            r.bits@ == bytes_to_bits(data@),
            r.cursor == 0,
    {
        let mut buf = BitBuffer { bits: Vec::new(), cursor: 0 };
        let mut i: usize = 0;
        proof {
            assert(data@.take(0) =~= Seq::<u8>::empty());
        }
        while i < data.len()
            invariant
                i <= data@.len(),
                buf.bits@ == bytes_to_bits(data@.take(i as int)),
                buf.cursor == 0,
            decreases data@.len() - i,
        {
            let b = data[i];
            proof {
                lemma2_to64();
                assert(data@.take(i as int).push(b) =~= data@.take(i + 1));
                lemma_bytes_to_bits_push(data@.take(i as int), b);
            }
            buf.write_bits(b as u64, 8);
            i += 1;
        }
        proof {
            assert(data@.take(data@.len() as int) =~= data@);
        }
        buf
    }

    /// Number of bits written so far.
    pub fn write_pos(&self) -> (r: usize)
        ensures
            r == self.bits@.len(),
    {
        self.bits.len()
    }

    /// Number of bits consumed by reads so far.
    pub fn read_pos(&self) -> (r: usize)
        ensures
            r == self.cursor,
    {
        self.cursor
    }

    /// Appends a single bit.
    pub fn write_bit(&mut self, b: bool)
        ensures
            final(self).bits@ == old(self).bits@.push(b),
            final(self).cursor == old(self).cursor,
    {
        self.bits.push(b);
    }

    /// Appends the low `num_bits` bits of `value`, most significant first.
    pub fn write_bits(&mut self, value: u64, num_bits: usize)
        requires
            num_bits <= 64,
        ensures
            final(self).bits@ == old(self).bits@ + u64_to_bits(value, num_bits as nat),
            final(self).cursor == old(self).cursor,
        decreases num_bits,
    {
        if num_bits == 0 {
            proof {
                assert(old(self).bits@ + u64_to_bits(value, 0) =~= old(self).bits@);
            }
        } else {
            self.write_bits(value / 2, num_bits - 1);
            self.bits.push(value % 2 == 1);
            proof {
                assert(final(self).bits@ =~= old(self).bits@ + u64_to_bits(
                    value,
                    num_bits as nat,
                ));
            }
        }
    }

    /// Reads one bit at the cursor; `None` when the buffer is exhausted.
    pub fn read_bit(&mut self) -> (r: Option<bool>)
        ensures
            final(self).bits@ == old(self).bits@,
            r is Some <==> old(self).cursor < old(self).bits@.len(),
            r is Some ==> final(self).cursor == old(self).cursor + 1 && r == Some(
                old(self).bits@[old(self).cursor as int],
            ),
            r is None ==> *final(self) == *old(self),
    {
        if self.cursor < self.bits.len() {
            let b = self.bits[self.cursor];
            self.cursor += 1;
            Some(b)
        } else {
            None
        }
    }

    /// Reads `num_bits` bits at the cursor as an unsigned value, most
    /// significant bit first; `None` when fewer bits remain.
    pub fn read_bits(&mut self, num_bits: usize) -> (r: Option<u64>)
        requires
            num_bits <= 64,
        ensures
            final(self).bits@ == old(self).bits@,
            r is Some <==> old(self).cursor + num_bits <= old(self).bits@.len(),
            r is Some ==> final(self).cursor == old(self).cursor + num_bits && r == Some(
                bits_to_nat(
                    old(self).bits@.subrange(
                        old(self).cursor as int,
                        old(self).cursor + num_bits,
                    ),
                ) as u64,
            ),
            r is None ==> *final(self) == *old(self),
    {
        if self.cursor > self.bits.len() || num_bits > self.bits.len() - self.cursor {
            return None;
        }
        let total = self.bits.len();
        let mut value: u64 = 0;
        let mut i: usize = 0;
        proof {
            assert(old(self).bits@.subrange(
                old(self).cursor as int,
                old(self).cursor as int,
            ) =~= Seq::<bool>::empty());
        }
        while i < num_bits
            invariant
                i <= num_bits <= 64,
                self.bits@ == old(self).bits@,
                total == self.bits@.len(),
                self.cursor == old(self).cursor + i,
                old(self).cursor + num_bits <= self.bits@.len(),
                value == bits_to_nat(
                    old(self).bits@.subrange(old(self).cursor as int, old(self).cursor + i),
                ),
            decreases num_bits - i,
        {
            let ghost prefix = old(self).bits@.subrange(
                old(self).cursor as int,
                old(self).cursor + i,
            );
            proof {
                lemma_bits_to_nat_bound(prefix);
                if (i as nat) < 63 {
                    vstd::arithmetic::power2::lemma_pow2_strictly_increases(i as nat, 63);
                }
                vstd::arithmetic::power2::lemma2_to64_rest();
                let x = old(self).bits@[old(self).cursor + i];
                assert(old(self).bits@.subrange(
                    old(self).cursor as int,
                    old(self).cursor + i + 1,
                ) =~= prefix.push(x));
                assert(prefix.push(x).drop_last() =~= prefix);
            }
            let b = self.bits[self.cursor];
            self.cursor += 1;
            value = value * 2 + (if b {
                1
            } else {
                0
            });
            i += 1;
        }
        Some(value)
    }

    /// Packs the whole bit string into bytes; the bit length must be a
    /// multiple of 8 (the codec pads to a byte boundary before packing).
    pub fn into_bytes(self) -> (r: Vec<u8>)
        requires
            self.bits@.len() % 8 == 0,
        ensures
            r@ == bits_to_bytes(self.bits@),
    {
        let total = self.bits.len();
        let n_bytes = total / 8;
        let mut out: Vec<u8> = Vec::new();
        let mut j: usize = 0;
        proof {
            assert(self.bits@.take(0) =~= Seq::<bool>::empty());
            vstd::arithmetic::div_mod::lemma_fundamental_div_mod(self.bits@.len() as int, 8);
        }
        while j < n_bytes
            invariant
                j <= n_bytes,
                n_bytes == self.bits@.len() / 8,
                self.bits@.len() % 8 == 0,
                total == self.bits@.len(),
                8 * n_bytes == self.bits@.len(),
                out@ == bits_to_bytes(self.bits@.take(8 * j)),
            decreases n_bytes - j,
        {
            let mut b: u32 = 0;
            let mut k: usize = 0;
            proof {
                assert(self.bits@.subrange(8 * j, 8 * j) =~= Seq::<bool>::empty());
            }
            while k < 8
                invariant
                    k <= 8,
                    j < n_bytes,
                    total == self.bits@.len(),
                    8 * n_bytes == self.bits@.len(),
                    b == bits_to_nat(self.bits@.subrange(8 * j, 8 * j + k)),
                decreases 8 - k,
            {
                let ghost chunk = self.bits@.subrange(8 * j, 8 * j + k);
                proof {
                    lemma_bits_to_nat_bound(chunk);
                    vstd::arithmetic::power2::lemma_pow2_strictly_increases(k as nat, 8);
                    lemma2_to64();
                    let x = self.bits@[8 * (j as int) + k];
                    assert(self.bits@.subrange(8 * j, 8 * j + k + 1) =~= chunk.push(x));
                    assert(chunk.push(x).drop_last() =~= chunk);
                }
                let bit = self.bits[8 * j + k];
                b = b * 2 + (if bit {
                    1
                } else {
                    0
                });
                k += 1;
            }
            let ghost chunk8 = self.bits@.subrange(8 * j, 8 * j + 8);
            proof {
                lemma_bits_to_nat_bound(chunk8);
                lemma2_to64();
                assert(self.bits@.take(8 * j) + chunk8 =~= self.bits@.take(8 * (j + 1)));
                lemma_bits_to_bytes_snoc(self.bits@.take(8 * j), chunk8);
            }
            out.push(b as u8);
            j += 1;
        }
        proof {
            assert(self.bits@.take(8 * ((self.bits@.len() / 8) as int)) =~= self.bits@);
        }
        out
    }
}

} // verus!
