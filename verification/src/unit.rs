//! Unit-interval scores held as IEEE-754 single-precision bit patterns.
//!
//! A score is a real number in `[0, 1]`. The graph stores the 32-bit pattern
//! of its single-precision encoding and never does arithmetic on it. On the
//! patterns from `ZERO` to `ONE` the unsigned integer order is the numeric
//! order, so thresholds and rankings over scores are integer comparisons.

use vstd::prelude::*;

verus! {

/// Pattern of `0.0`.
pub const ZERO: u32 = 0;

/// Pattern of `1.0`.
pub const ONE: u32 = 0x3F80_0000;

/// Pattern with only the sign bit set; every pattern at or above it encodes
/// a negative number, negative zero, or a non-number with the sign set.
pub const SIGN: u32 = 0x8000_0000;

/// Pattern of positive infinity; the patterns above it, below `SIGN`, encode
/// no number.
pub const INFINITY: u32 = 0x7F80_0000;

/// Pattern of negative infinity; the patterns above it encode no number.
pub const NEG_INFINITY: u32 = 0xFF80_0000;

/// Whether a score lies below a threshold, which may be any pattern. No
/// score lies below a negative threshold, either zero, or a pattern that
/// encodes no number.
pub open spec fn below(score: u32, threshold: u32) -> bool {
    score < threshold && threshold <= INFINITY
}

/// Decides `below`.
pub fn is_below(score: u32, threshold: u32) -> (r: bool)
    ensures
        r == below(score, threshold),
{
    score < threshold && threshold <= INFINITY
}

/// Whether a score reaches a threshold, which may be any pattern. Every
/// score reaches a negative threshold and negative zero; none reaches a
/// pattern that encodes no number.
pub open spec fn reaches(score: u32, threshold: u32) -> bool {
    (score >= threshold && threshold <= INFINITY) || (SIGN <= threshold <= NEG_INFINITY)
}

/// Decides `reaches`.
pub fn does_reach(score: u32, threshold: u32) -> (r: bool)
    ensures
        r == reaches(score, threshold),
{
    (score >= threshold && threshold <= INFINITY) || (SIGN <= threshold && threshold <= NEG_INFINITY)
}

/// Whether a score is at most a bound, which may be any pattern. Only the
/// score zero is at most negative zero; no score is at most a negative
/// bound or a pattern that encodes no number.
pub open spec fn within(score: u32, bound: u32) -> bool {
    (score <= bound && bound <= INFINITY) || (score == ZERO && bound == SIGN)
}

/// Decides `within`.
pub fn is_within(score: u32, bound: u32) -> (r: bool)
    ensures
        r == within(score, bound),
{
    (score <= bound && bound <= INFINITY) || (score == ZERO && bound == SIGN)
}

/// Whether `bits` encodes a number in `[0, 1]`.
pub open spec fn is_unit(bits: u32) -> bool {
    bits <= ONE
}

/// The score nearest to what `bits` encodes.
pub open spec fn clamped(bits: u32) -> u32 {
    if bits >= SIGN {
        ZERO
    } else if bits > ONE {
        ONE
    } else {
        bits
    }
}

/// Clamps a pattern into the unit interval: negative patterns become `ZERO`,
/// patterns above `ONE` (larger numbers, infinity, non-numbers) become `ONE`.
pub fn clamp_unit(bits: u32) -> (r: u32)
    ensures
        r == clamped(bits),
        is_unit(r),
        is_unit(bits) ==> r == bits,
{
    if bits >= SIGN {
        ZERO
    } else if bits > ONE {
        ONE
    } else {
        bits
    }
}

/// Whether every component of a vector has the pattern of `0.0`, which marks
/// a node that carries no vector.
pub open spec fn all_zero(v: Seq<u32>) -> bool {
    forall|i: int| 0 <= i < v.len() ==> v[i] == ZERO
}

/// Whether `v` is the all-zero vector.
pub fn is_zero_vec(v: &Vec<u32>) -> (r: bool)
    ensures
        r == all_zero(v@),
{
    let mut i: usize = 0;
    while i < v.len()
        invariant
            i <= v.len(),
            forall|j: int| 0 <= j < i ==> v@[j] == ZERO,
        decreases v.len() - i,
    {
        if v[i] != ZERO {
            return false;
        }
        i += 1;
    }
    true
}

/// A vector of `n` zero components.
pub fn zero_vec(n: usize) -> (r: Vec<u32>)
    ensures
        r@.len() == n,
        all_zero(r@),
{
    let mut r: Vec<u32> = Vec::new();
    let mut i: usize = 0;
    while i < n
        invariant
            i <= n,
            r@.len() == i,
            all_zero(r@),
        decreases n - i,
    {
        r.push(ZERO);
        i += 1;
    }
    r
}

} // verus!
