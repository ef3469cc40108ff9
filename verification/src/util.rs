//! Sequence-number arithmetic over the 16-bit circular sequence space.
//!
//! All packet- and channel-level sequence numbers wrap modulo 2^16; comparing
//! and subtracting them must account for wraparound.
use vstd::prelude::*;

verus! {

/// Half the u16 sequence space, used for wraparound comparison.
pub const SEQUENCE_HALF_RANGE: u16 = 32768;

/// What `sequence_greater_than` returns: `s1` is ahead of `s2` in circular
/// sequence space. At a distance of exactly half the space, the numerically
/// larger value counts as greater, so exactly one of the two directions holds
/// whenever the values differ.
pub open spec fn greater_spec(s1: u16, s2: u16) -> bool {
    (s1 > s2 && s1 - s2 <= SEQUENCE_HALF_RANGE) || (s1 < s2 && s2 - s1 > SEQUENCE_HALF_RANGE)
}

/// What `sequence_diff` returns: the signed circular difference `s1 - s2`,
/// the representative of `(s1 - s2) mod 2^16` nearest zero (ties kept at
/// `+32768` / `-32768` so that the result is always the exact negation of the
/// swapped arguments).
pub open spec fn diff_spec(s1: u16, s2: u16) -> int {
    let d = s1 - s2;
    if d > SEQUENCE_HALF_RANGE {
        d - 65536
    } else if d < -(SEQUENCE_HALF_RANGE as int) {
        d + 65536
    } else {
        d
    }
}

/// Compares two sequence numbers accounting for u16 wraparound.
/// Returns true if s1 is "greater than" s2 in circular sequence space.
pub fn sequence_greater_than(s1: u16, s2: u16) -> (r: bool)
    ensures
        r == greater_spec(s1, s2),
{
    ((s1 > s2) && (s1 - s2 <= SEQUENCE_HALF_RANGE))
        || ((s1 < s2) && (s2 - s1 > SEQUENCE_HALF_RANGE))
}

/// Computes the signed difference between two sequence numbers,
/// accounting for u16 wraparound.
pub fn sequence_diff(s1: u16, s2: u16) -> (r: i32)
    ensures
        r == diff_spec(s1, s2),
{
    let half: i32 = SEQUENCE_HALF_RANGE as i32;
    let full: i32 = (SEQUENCE_HALF_RANGE as i32) * 2;
    let diff: i32 = s1 as i32 - s2 as i32;
    if diff > half {
        diff - full
    } else if diff < -half {
        diff + full
    } else {
        diff
    }
}

/// Circular "greater than" is a strict total order on any pair of distinct
/// sequence numbers: `s1` is ahead of `s2` exactly when `s2` is not ahead of
/// `s1` and the two differ.
pub proof fn lemma_greater_antisymmetric(s1: u16, s2: u16)
    ensures
        greater_spec(s1, s2) <==> (!greater_spec(s2, s1) && s1 != s2),
{
}

/// The signed circular difference is antisymmetric: swapping the arguments
/// negates the result.
pub proof fn lemma_diff_antisymmetric(s1: u16, s2: u16)
    ensures
        diff_spec(s1, s2) == -diff_spec(s2, s1),
{
}

/// The two views agree: `s1` is circularly greater than `s2` exactly when the
/// signed circular difference is positive.
pub proof fn lemma_greater_iff_diff_positive(s1: u16, s2: u16)
    ensures
        greater_spec(s1, s2) <==> diff_spec(s1, s2) > 0,
{
}

} // verus!
