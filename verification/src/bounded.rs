//! Lemire's method for drawing a number in `[0, range)` from a uniformly distributed word, shared
//! by the generators of this crate.
//!
//! A word `x` of `w` bits is mapped to `x * range / 2^w`. The draw is accepted unless the low `w`
//! bits of `x * range` fall below a threshold, in which case a new word is drawn.
use vstd::prelude::*;
use vstd::arithmetic::power2::{pow2, lemma_pow2_pos, lemma_pow2_unfold};

verus! {

/// The largest number of redraws a bounded draw of `WyRng` makes: one less than the period `2^64`
/// of its state, which adds an odd constant at each step. A bounded draw that has seen a whole
/// period of words without accepting one would never accept one.
pub const MAX_REDRAWS: u64 = 0xffff_ffff_ffff_ffff;

/// The threshold below which the low part of `x * range` is rejected, for words below `m`:
/// `m - 1 - range`, reduced by `range` and then modulo `range` while it is not below `range`.
pub open spec fn lemire_threshold(range: int, m: int) -> int {
    let t0 = m - 1 - range;
    if t0 >= range {
        let t1 = t0 - range;
        if t1 >= range {
            t1 % range
        } else {
            t1
        }
    } else {
        t0
    }
}

/// The word `x` gives an accepted draw in `[0, range)`.
pub open spec fn lemire_accepts(x: int, range: int, m: int) -> bool {
    range == 0 || (x * range) % m >= lemire_threshold(range, m)
}

/// The number in `[0, range)` that the word `x < m` is mapped to.
pub open spec fn lemire_value(x: int, range: int, m: int) -> int {
    (x * range) / m
}

pub proof fn lemma_threshold_below(range: int, m: int)
    requires
        0 < range < m,
    ensures
        0 <= lemire_threshold(range, m) < range,
{
}

pub proof fn lemma_value_range(x: int, range: int, m: int)
    requires
        0 <= x < m,
        0 <= range < m,
    ensures
        0 <= lemire_value(x, range, m) <= range,
        range > 0 ==> lemire_value(x, range, m) < range,
        0 <= x * range < m * m,
{
    assert(0 <= x * range) by (nonlinear_arith)
        requires
            0 <= x,
            0 <= range,
    ;
    assert(x * range <= m * range) by (nonlinear_arith)
        requires
            0 <= x < m,
            0 <= range,
    ;
    if range > 0 {
        assert(x * range < m * range) by (nonlinear_arith)
            requires
                0 <= x < m,
                0 < range,
        ;
        assert((x * range) / m < range) by (nonlinear_arith)
            requires
                x * range < m * range,
                m > 0,
        ;
    }
    assert((x * range) / m <= range) by (nonlinear_arith)
        requires
            x * range <= m * range,
            m > 0,
            0 <= x * range,
    ;
    assert(x * range < m * m) by (nonlinear_arith)
        requires
            0 <= x < m,
            0 <= range < m,
    ;
}

/// The product of two bytes, split into its high and low byte.
pub proof fn lemma_split_u16(p: u16)
    by (bit_vector)
    ensures
        p as u8 == p % 0x100,
        p >> 8u16 == p / 0x100,
{
}

pub proof fn lemma_split_u32(p: u32)
    by (bit_vector)
    ensures
        p as u16 == p % 0x1_0000,
        p >> 16u32 == p / 0x1_0000,
{
}

pub proof fn lemma_split_u64(p: u64)
    by (bit_vector)
    ensures
        p as u32 == p % 0x1_0000_0000,
        p >> 32u64 == p / 0x1_0000_0000,
{
}

pub proof fn lemma_split_u128(p: u128)
    by (bit_vector)
    ensures
        p as u64 == p % 0x1_0000_0000_0000_0000,
        p >> 64u128 == p / 0x1_0000_0000_0000_0000,
{
}

} // verus!

verus! {

/// The smallest power of two that is at least `x`, searched from the power of two `p` up.
pub open spec fn next_pow2_from(p: nat, x: nat) -> nat
    decreases if p < x { x - p } else { 0 },
{
    if p >= x || p == 0 {
        p
    } else {
        next_pow2_from(2 * p, x)
    }
}

/// The smallest power of two that is at least `x`.
pub open spec fn next_pow2(x: nat) -> nat {
    next_pow2_from(1, x)
}

pub proof fn lemma_next_pow2_from(p: nat, x: nat)
    requires
        p >= 1,
    ensures
        next_pow2_from(p, x) >= x,
        next_pow2_from(p, x) >= p,
    decreases if p < x { x - p } else { 0 },
{
    if p < x {
        lemma_next_pow2_from(2 * p, x);
    }
}

proof fn lemma_next_pow2_from_bounds(p: nat, x: nat, e: nat)
    requires
        p == pow2(e),
    ensures
        exists|e2: nat| next_pow2_from(p, x) == pow2(e2),
        next_pow2_from(p, x) >= x,
        next_pow2_from(p, x) >= p,
        p < x ==> next_pow2_from(p, x) < 2 * x,
        p >= x ==> next_pow2_from(p, x) == p,
    decreases if p < x { x - p } else { 0 },
{
    lemma_pow2_pos(e);
    if p < x {
        lemma_pow2_unfold(e + 1);
        lemma_next_pow2_from_bounds(2 * p, x, e + 1);
    }
}

/// `next_pow2(x)` is the smallest power of two not below `x`: it is a power of two, it is at
/// least `x`, and half of it is below `x` (for `x > 1`; it is `1` for `x <= 1`). So the mask
/// `next_pow2(range) - 1` of a masked draw covers every value below `range`.
pub proof fn lemma_next_pow2(x: nat)
    ensures
        exists|e: nat| next_pow2(x) == pow2(e),
        next_pow2(x) >= x,
        x <= 1 ==> next_pow2(x) == 1,
        x > 1 ==> next_pow2(x) < 2 * x,
{
    assert(pow2(0) == 1) by {
        lemma_pow2_unfold(1);
        lemma_pow2_pos(0);
        vstd::arithmetic::power2::lemma2_to64();
    }
    lemma_next_pow2_from_bounds(1, x, 0);
}

/// Returns the smallest power of two not below `x`, which fits in a `u128` when `x <= 2^127`.
pub(crate) fn u128_next_power_of_two(x: u128) -> (r: u128)
    requires
        x <= 0x8000_0000_0000_0000_0000_0000_0000_0000,
    ensures
        r == next_pow2(x as nat),
{
    let mut p: u128 = 1;
    while p < x
        invariant
            1 <= p,
            x <= 0x8000_0000_0000_0000_0000_0000_0000_0000,
            next_pow2_from(p as nat, x as nat) == next_pow2(x as nat),
        decreases if p < x { x - p } else { 0 },
    {
        p = p * 2;
    }
    p
}

/// Joins two `u64` words into a `u128`, the first as the high half.
pub proof fn lemma_join_u128(a: u64, b: u64)
    by (bit_vector)
    ensures
        ((a as u128) << 64u128) | (b as u128) == a as u128 * 0x1_0000_0000_0000_0000u128 + b as u128,
{
}

} // verus!
