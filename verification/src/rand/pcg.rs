//! A pseudorandom number generator based on the PCG-XSH-RR-128-64 algorithm.
use vstd::prelude::*;
use crate::bounded::{
    lemire_threshold, lemire_accepts, lemire_value, lemma_threshold_below,
    lemma_value_range, lemma_split_u16, lemma_split_u32, lemma_split_u64, lemma_split_u128,
    next_pow2, lemma_next_pow2_from, u128_next_power_of_two, lemma_join_u128,
};

verus! {

/// The increment of the linear congruential step.
pub const PCG_INCREMENT: u128 = 63641362238467930051442695040888963407;

/// The multiplier of the linear congruential step.
pub const PCG_MULTIPLIER: u128 = 25492979953554139244865540595714422341;

/// One step of the state: `s * PCG_MULTIPLIER + PCG_INCREMENT` modulo `2^128`.
#[verifier::opaque]
pub open spec fn pcg_step(s: u128) -> u128 {
    ((s as int * PCG_MULTIPLIER as int % 0x1_0000_0000_0000_0000_0000_0000_0000_0000int + PCG_INCREMENT as int)
        % 0x1_0000_0000_0000_0000_0000_0000_0000_0000int) as u128
}

/// The state after `k` steps from state `s`.
pub open spec fn pcg_advance(s: u128, k: nat) -> u128
    decreases k,
{
    if k == 0 {
        s
    } else {
        pcg_step(pcg_advance(s, (k - 1) as nat))
    }
}

/// The output for the state `s`: the xorshifted high bits, rotated by the top six bits.
pub open spec fn pcg_output(s: u128) -> u64 {
    let value = (((s >> 35u128) ^ s) >> 58u128) as u64;
    let rot = (s >> 122u128) as u32;
    (value >> rot) | (value << (((u32::MAX - rot) as u32) & 63u32))
}

/// The `u64` drawn when the state becomes `s`.
pub open spec fn pcg_u64(s: u128) -> u64 {
    pcg_output(s)
}

/// The `u32` drawn when the state becomes `s`: the high half of the `u64`.
pub open spec fn pcg_u32(s: u128) -> u32 {
    (pcg_output(s) / 0x1_0000_0000) as u32
}

/// The `u16` drawn when the state becomes `s`.
pub open spec fn pcg_u16(s: u128) -> u16 {
    (pcg_output(s) / 0x1_0000_0000_0000) as u16
}

/// The `u8` drawn when the state becomes `s`.
pub open spec fn pcg_u8(s: u128) -> u8 {
    (pcg_output(s) / 0x100_0000_0000_0000) as u8
}

/// The `u128` drawn as the `i`-th (from 1) pair of `u64` words after state `s`: the first word of
/// the pair is the high half.
pub open spec fn pcg_u128(s: u128, i: nat) -> u128 {
    (pcg_u64(pcg_advance(s, (2 * i - 1) as nat)) as int * 0x1_0000_0000_0000_0000 + pcg_u64(
        pcg_advance(s, 2 * i),
    ) as int) as u128
}

/// The address of `x`, as a number.
///
/// Calls `core::ptr::from_ref` and converts the pointer to its address. Nothing is claimed of
/// the result: it depends on where the value lies in memory.
#[verifier::external_body]
pub(crate) fn address_of<T>(x: &T) -> u64 {
    core::ptr::from_ref(x) as usize as u64
}

/// The largest number of redraws a bounded draw of `PCGRng` makes: one less than the period
/// `2^128` of its state. The increment is odd and the multiplier is `1` modulo `4`, so the state
/// runs through all `2^128` values before it repeats; a bounded draw that has seen a whole period
/// of words without accepting one would never accept one.
pub const PCG_MAX_REDRAWS: u128 = 0xffff_ffff_ffff_ffff_ffff_ffff_ffff_ffff;

/// A pseudorandom number generator based on the PCG-XSH-RR-128-64 algorithm.
pub struct PCGRng {
    state: u128,
}

impl PCGRng {
    /// The current state.
    pub closed spec fn state(self) -> u128 {
        self.state
    }

    /// A bounded draw: starting from state `s0`, words `draw` of the states after 1, 2, ... steps
    /// were drawn up to and including the first one accepted (or `PCG_MAX_REDRAWS + 1` words), the
    /// state ended at `s1`, and `r` is `low` plus the value of the last word.
    pub open spec fn drew_bounded(
        s0: u128,
        s1: u128,
        draw: spec_fn(u128) -> int,
        range: int,
        m: int,
        low: int,
        r: int,
    ) -> bool {
        exists|k: nat|
            {
                &&& 1 <= k <= PCG_MAX_REDRAWS + 1
                &&& s1 == #[trigger] pcg_advance(s0, k)
                &&& r == low + lemire_value(draw(s1), range, m)
                &&& forall|j: nat| 1 <= j < k ==> !lemire_accepts(draw(#[trigger] pcg_advance(s0, j)), range, m)
                &&& (lemire_accepts(draw(s1), range, m) || k == PCG_MAX_REDRAWS + 1)
            }
    }

    /// A masked draw: starting from state `s0`, `k` `u128` words (pairs of steps) were drawn,
    /// masked with the smallest power of two not below `range` minus one; all but the last were
    /// not below `range`; the state ended at `s1`; and `r` is `low` plus the last masked word,
    /// or `low` if that was not below `range` either (after `PCG_MAX_REDRAWS + 1` words).
    pub open spec fn drew_masked(s0: u128, s1: u128, range: int, low: int, r: int, k: nat) -> bool {
        let mask = (next_pow2(range as nat) - 1) as u128;
        &&& 1 <= k <= PCG_MAX_REDRAWS + 1
        &&& s1 == pcg_advance(s0, 2 * k)
        &&& forall|j: nat| 1 <= j < k ==> (#[trigger] pcg_u128(s0, j) & mask) >= range
        &&& if (pcg_u128(s0, k) & mask) < range {
            r == (pcg_u128(s0, k) & mask) + low
        } else {
            k == PCG_MAX_REDRAWS + 1 && r == low
        }
    }

    pub proof fn lemma_advance_step(s: u128, k: nat)
        ensures
            pcg_advance(pcg_advance(s, k), 1) == pcg_advance(s, k + 1),
            pcg_advance(s, 0) == s,
    {
        assert(pcg_advance(pcg_advance(s, k), 1) == pcg_step(pcg_advance(pcg_advance(s, k), 0)));
    }

    pub proof fn lemma_advance_add(s: u128, a: nat, b: nat)
        ensures
            pcg_advance(pcg_advance(s, a), b) == pcg_advance(s, a + b),
        decreases b,
    {
        if b > 0 {
            Self::lemma_advance_add(s, a, (b - 1) as nat);
        }
    }

    /// The `i + 1`-th `u128` after `s` is the first one after the state `2 * i` steps later.
    pub proof fn lemma_u128_shift(s: u128, i: nat)
        ensures
            pcg_u128(pcg_advance(s, 2 * i), 1) == pcg_u128(s, i + 1),
    {
        Self::lemma_advance_add(s, 2 * i, 1);
        Self::lemma_advance_add(s, 2 * i, 2);
        assert((2 * (i + 1) - 1) as nat == 2 * i + 1);
        assert(2 * (i + 1) == 2 * i + 2);
    }

    /// The state of a generator made with the seed `seed != 0`.
    pub open spec fn new_state(seed: u64) -> u128 {
        pcg_step(((pcg_step(0) + seed) % 0x1_0000_0000_0000_0000_0000_0000_0000_0000int) as u128)
    }

    /// Generators made with the same nonzero seed are equal, so the same calls on them give the
    /// same values: each method's result and next state are functions of the state (for the
    /// bounded draws, see `lemma_bounded_unique` and `lemma_masked_unique`).
    pub proof fn lemma_same_seed(seed: u64, a: PCGRng, b: PCGRng)
        requires
            seed != 0,
            a.state() == Self::new_state(seed),
            b.state() == Self::new_state(seed),
        ensures
            a == b,
    {
    }

    /// A bounded draw from a state has one outcome: the state it ends in and the value it gives.
    pub proof fn lemma_bounded_unique(
        s0: u128,
        s1: u128,
        s2: u128,
        draw: spec_fn(u128) -> int,
        range: int,
        m: int,
        low: int,
        r1: int,
        r2: int,
    )
        requires
            Self::drew_bounded(s0, s1, draw, range, m, low, r1),
            Self::drew_bounded(s0, s2, draw, range, m, low, r2),
        ensures
            s1 == s2,
            r1 == r2,
    {
        let k1 = choose|k: nat|
            {
                &&& 1 <= k <= PCG_MAX_REDRAWS + 1
                &&& s1 == #[trigger] pcg_advance(s0, k)
                &&& r1 == low + lemire_value(draw(s1), range, m)
                &&& forall|j: nat| 1 <= j < k ==> !lemire_accepts(draw(#[trigger] pcg_advance(s0, j)), range, m)
                &&& (lemire_accepts(draw(s1), range, m) || k == PCG_MAX_REDRAWS + 1)
            };
        let k2 = choose|k: nat|
            {
                &&& 1 <= k <= PCG_MAX_REDRAWS + 1
                &&& s2 == #[trigger] pcg_advance(s0, k)
                &&& r2 == low + lemire_value(draw(s2), range, m)
                &&& forall|j: nat| 1 <= j < k ==> !lemire_accepts(draw(#[trigger] pcg_advance(s0, j)), range, m)
                &&& (lemire_accepts(draw(s2), range, m) || k == PCG_MAX_REDRAWS + 1)
            };
        if k1 < k2 {
            assert(!lemire_accepts(draw(pcg_advance(s0, k1)), range, m));
        } else if k2 < k1 {
            assert(!lemire_accepts(draw(pcg_advance(s0, k2)), range, m));
        }
    }

    /// Some number of words gave a masked draw (see `drew_masked`).
    pub open spec fn drew_masked_some(s0: u128, s1: u128, range: int, low: int, r: int) -> bool {
        exists|k: nat| #[trigger] Self::drew_masked(s0, s1, range, low, r, k)
    }

    /// A bounded draw whose first word is accepted takes that word: one step, and its value.
    pub proof fn lemma_bounded_first_accepted(
        s0: u128,
        s1: u128,
        draw: spec_fn(u128) -> int,
        range: int,
        m: int,
        low: int,
        r: int,
    )
        requires
            Self::drew_bounded(s0, s1, draw, range, m, low, r),
            lemire_accepts(draw(pcg_advance(s0, 1)), range, m),
        ensures
            s1 == pcg_advance(s0, 1),
            r == low + lemire_value(draw(pcg_advance(s0, 1)), range, m),
    {
        let k = choose|k: nat|
            {
                &&& 1 <= k <= PCG_MAX_REDRAWS + 1
                &&& s1 == #[trigger] pcg_advance(s0, k)
                &&& r == low + lemire_value(draw(s1), range, m)
                &&& forall|j: nat| 1 <= j < k ==> !lemire_accepts(draw(#[trigger] pcg_advance(s0, j)), range, m)
                &&& (lemire_accepts(draw(s1), range, m) || k == PCG_MAX_REDRAWS + 1)
            };
        if k > 1 {
            assert(!lemire_accepts(draw(pcg_advance(s0, 1)), range, m));
        }
    }

    /// A masked draw from a state has one outcome: the number of words, the state it ends in and
    /// the value it gives.
    pub proof fn lemma_masked_unique(s0: u128, s1: u128, s2: u128, range: int, low: int, r1: int, r2: int, k1: nat, k2: nat)
        requires
            Self::drew_masked(s0, s1, range, low, r1, k1),
            Self::drew_masked(s0, s2, range, low, r2, k2),
        ensures
            k1 == k2,
            s1 == s2,
            r1 == r2,
    {
        let mask = (next_pow2(range as nat) - 1) as u128;
        if k1 < k2 {
            assert((pcg_u128(s0, k1) & mask) >= range);
        } else if k2 < k1 {
            assert((pcg_u128(s0, k2) & mask) >= range);
        }
    }

    /// Returns a new PRNG initialized with the given seed. If the seed is `0`, the address of the
    /// generator is used as the seed.
    pub fn new(seed: u64) -> (rng: Self)
        ensures
            seed != 0 ==> rng.state() == Self::new_state(seed),
            seed == 0 ==> exists|a: u64| rng.state() == Self::new_state(a),
    {
        let mut seed = seed;
        let mut rng = Self { state: 0 };
        proof {
            reveal(pcg_step);
        }
        if seed == 0 {
            seed = address_of(&rng);
        }
        rng.step();
        rng.state = rng.state.wrapping_add(seed as u128);
        rng.step();
        proof {
            assert(rng.state() == Self::new_state(seed));
        }
        rng
    }

    /// Generates the next value from the current state of the PRNG.
    fn output(&self) -> (r: u64)
        ensures
            r == pcg_output(self.state),
    {
        let s = self.state;
        let value = (((s >> 35u128) ^ s) >> 58u128) as u64;
        let rot = (s >> 122u128) as u32;
        assert(((s >> 122u128) as u32) < 64) by (bit_vector);
        assert((((u32::MAX - rot) as u32) & 63u32) < 64) by (bit_vector);
        (value >> rot) | (value << (((u32::MAX - rot) as u32) & 63u32))
    }

    /// Advances the state of the PRNG.
    fn step(&mut self)
        ensures
            final(self).state() == pcg_step(old(self).state()),
    {
        proof {
            reveal(pcg_step);
        }
        self.state = self.state.wrapping_mul(PCG_MULTIPLIER).wrapping_add(PCG_INCREMENT);
    }

    /// Yields a `u64`.
    pub fn u64(&mut self) -> (r: u64)
        ensures
            pcg_step_call(PcgCall::U64, old(self).state(), final(self).state(), r as int),
            final(self).state() == pcg_advance(old(self).state(), 1),
            r == pcg_u64(final(self).state()),
    {
        let ghost s0 = self.state();
        self.step();
        proof {
            assert(pcg_advance(s0, 1) == pcg_step(pcg_advance(s0, 0)));
        }
        self.output()
    }

    /// Yields a `u32`.
    pub fn u32(&mut self) -> (r: u32)
        ensures
            pcg_step_call(PcgCall::U32, old(self).state(), final(self).state(), r as int),
            final(self).state() == pcg_advance(old(self).state(), 1),
            r == pcg_u32(final(self).state()),
    {
        let x = self.u64();
        proof {
            lemma_split_u64(x);
        }
        (x >> 32u64) as u32
    }

    /// Yields a `u16`.
    pub fn u16(&mut self) -> (r: u16)
        ensures
            pcg_step_call(PcgCall::U16, old(self).state(), final(self).state(), r as int),
            final(self).state() == pcg_advance(old(self).state(), 1),
            r == pcg_u16(final(self).state()),
    {
        let x = self.u64();
        assert(x >> 48u64 == x / 0x1_0000_0000_0000) by (bit_vector);
        (x >> 48u64) as u16
    }

    /// Yields a `u8`.
    pub fn u8(&mut self) -> (r: u8)
        ensures
            pcg_step_call(PcgCall::U8, old(self).state(), final(self).state(), r as int),
            final(self).state() == pcg_advance(old(self).state(), 1),
            r == pcg_u8(final(self).state()),
    {
        let x = self.u64();
        assert(x >> 56u64 == x / 0x100_0000_0000_0000) by (bit_vector);
        (x >> 56u64) as u8
    }

    /// Yields a `u128`, made of two `u64`s, the first as the high half.
    pub fn u128(&mut self) -> (r: u128)
        ensures
            pcg_step_call(PcgCall::U128, old(self).state(), final(self).state(), r as int),
            final(self).state() == pcg_advance(old(self).state(), 2),
            r == pcg_u128(old(self).state(), 1),
    {
        let ghost s0 = self.state();
        let a = self.u64();
        let b = self.u64();
        proof {
            Self::lemma_advance_add(s0, 1, 1);
            lemma_join_u128(a, b);
        }
        (a as u128) << 64u128 | b as u128
    }

    /// Yields a `usize`: the high half of a `u64` on 32-bit targets, a `u64` on 64-bit ones.
    pub fn usize(&mut self) -> (r: usize)
        ensures
            pcg_step_call(PcgCall::Usize, old(self).state(), final(self).state(), r as int),
            final(self).state() == pcg_advance(old(self).state(), 1),
            usize::BITS == 32 ==> r == pcg_u32(final(self).state()),
            usize::BITS == 64 ==> r == pcg_u64(final(self).state()),
    {
        if usize::BITS == 32 {
            let x = self.u64();
            proof {
                lemma_split_u64(x);
            }
            (x >> 32u64) as usize
        } else {
            self.u64() as usize
        }
    }

    /// Yields an `i8`: the bits of a `u8`.
    pub fn i8(&mut self) -> (r: i8)
        ensures
            pcg_step_call(PcgCall::I8, old(self).state(), final(self).state(), r as int),
            final(self).state() == pcg_advance(old(self).state(), 1),
            r == pcg_u8(final(self).state()) as i8,
    {
        self.u8() as i8
    }

    /// Yields an `i16`: the bits of a `u16`.
    pub fn i16(&mut self) -> (r: i16)
        ensures
            pcg_step_call(PcgCall::I16, old(self).state(), final(self).state(), r as int),
            final(self).state() == pcg_advance(old(self).state(), 1),
            r == pcg_u16(final(self).state()) as i16,
    {
        self.u16() as i16
    }

    /// Yields an `i32`: the bits of a `u32`.
    pub fn i32(&mut self) -> (r: i32)
        ensures
            pcg_step_call(PcgCall::I32, old(self).state(), final(self).state(), r as int),
            final(self).state() == pcg_advance(old(self).state(), 1),
            r == pcg_u32(final(self).state()) as i32,
    {
        self.u32() as i32
    }

    /// Yields an `i64`: the bits of a `u64`.
    pub fn i64(&mut self) -> (r: i64)
        ensures
            pcg_step_call(PcgCall::I64, old(self).state(), final(self).state(), r as int),
            final(self).state() == pcg_advance(old(self).state(), 1),
            r == pcg_u64(final(self).state()) as i64,
    {
        self.u64() as i64
    }

    /// Yields an `i128`: the bits of a `u128`.
    pub fn i128(&mut self) -> (r: i128)
        ensures
            pcg_step_call(PcgCall::I128, old(self).state(), final(self).state(), r as int),
            final(self).state() == pcg_advance(old(self).state(), 2),
            r == pcg_u128(old(self).state(), 1) as i128,
    {
        self.u128() as i128
    }

    /// Yields an `isize`: the bits of a `usize`.
    pub fn isize(&mut self) -> (r: isize)
        ensures
            pcg_step_call(PcgCall::Isize, old(self).state(), final(self).state(), r as int),
            final(self).state() == pcg_advance(old(self).state(), 1),
            usize::BITS == 32 ==> r == pcg_u32(final(self).state()) as isize,
            usize::BITS == 64 ==> r == pcg_u64(final(self).state()) as isize,
    {
        self.usize() as isize
    }

    /// Returns a `u8` in the range `[low, high)` (just `low` when `low == high`), drawing new
    /// words while the draw is rejected.
    pub fn bounded_u8(&mut self, low: u8, high: u8) -> (r: u8)
        requires
            low <= high,
        ensures
            pcg_step_call(PcgCall::BoundedU8(low, high), old(self).state(), final(self).state(), r as int),
            PCGRng::drew_bounded(old(self).state(), final(self).state(), |s: u128| pcg_u8(s) as int, (high - low) as int, 0x100, low as int, r as int),
            low < high ==> low <= r < high,
            low == high ==> r == low,
    {
        let ghost s0 = self.state();
        let range = high - low;
        let mut x = self.u8();
        let ghost mut k: nat = 1;
        proof {
            lemma_value_range(x as int, range as int, 0x100);
        }
        let mut m = (x as u16) * (range as u16);
        let mut l = m as u8;
        proof {
            lemma_split_u16(m);
        }
        if l < range {
            let mut t = u8::MAX - range;
            if t >= range {
                t -= range;
                if t >= range {
                    t %= range;
                }
            }
            proof {
                lemma_threshold_below(range as int, 0x100);
                assert(t as int == lemire_threshold(range as int, 0x100));
            }
            let mut tries: u128 = 0;
            while l < t && tries < PCG_MAX_REDRAWS
                invariant
                    0 < range,
                    range == high - low,
                    low <= high,
                    t as int == lemire_threshold(range as int, 0x100),
                    tries as int == k - 1,
                    k >= 1,
                    self.state() == pcg_advance(s0, k),
                    x == pcg_u8(self.state()),
                    m as int == x * range,
                    l as int == (x * range) % 0x100,
                    forall|j: nat| 1 <= j < k ==> !lemire_accepts(pcg_u8(#[trigger] pcg_advance(s0, j)) as int, range as int, 0x100),
                decreases PCG_MAX_REDRAWS - tries,
            {
                proof {
                    assert(!lemire_accepts(pcg_u8(pcg_advance(s0, k)) as int, range as int, 0x100));
                    PCGRng::lemma_advance_step(s0, k);
                }
                x = self.u8();
                proof {
                    k = k + 1;
                    lemma_value_range(x as int, range as int, 0x100);
                }
                m = (x as u16) * (range as u16);
                l = m as u8;
                proof {
                    lemma_split_u16(m);
                }
                tries = tries + 1;
            }
        } else {
            proof {
                if range > 0 {
                    lemma_threshold_below(range as int, 0x100);
                }
            }
        }
        proof {
            lemma_value_range(x as int, range as int, 0x100);
            lemma_split_u16(m);
            assert(PCGRng::drew_bounded(s0, self.state(), |s: u128| pcg_u8(s) as int, range as int, 0x100, low as int, (m / 0x100) + low)) by {
                let f = |s: u128| pcg_u8(s) as int;
                assert(f(self.state()) == x);
                assert forall|j: nat| 1 <= j < k implies !lemire_accepts(f(#[trigger] pcg_advance(s0, j)), range as int, 0x100) by {
                    assert(f(pcg_advance(s0, j)) == pcg_u8(pcg_advance(s0, j)));
                }
            }
        }
        (m >> 8u16) as u8 + low
    }

    /// Returns a `u16` in the range `[low, high)` (just `low` when `low == high`), drawing new
    /// words while the draw is rejected.
    pub fn bounded_u16(&mut self, low: u16, high: u16) -> (r: u16)
        requires
            low <= high,
        ensures
            pcg_step_call(PcgCall::BoundedU16(low, high), old(self).state(), final(self).state(), r as int),
            PCGRng::drew_bounded(old(self).state(), final(self).state(), |s: u128| pcg_u16(s) as int, (high - low) as int, 0x1_0000, low as int, r as int),
            low < high ==> low <= r < high,
            low == high ==> r == low,
    {
        let ghost s0 = self.state();
        let range = high - low;
        let mut x = self.u16();
        let ghost mut k: nat = 1;
        proof {
            lemma_value_range(x as int, range as int, 0x1_0000);
        }
        let mut m = (x as u32) * (range as u32);
        let mut l = m as u16;
        proof {
            lemma_split_u32(m);
        }
        if l < range {
            let mut t = u16::MAX - range;
            if t >= range {
                t -= range;
                if t >= range {
                    t %= range;
                }
            }
            proof {
                lemma_threshold_below(range as int, 0x1_0000);
                assert(t as int == lemire_threshold(range as int, 0x1_0000));
            }
            let mut tries: u128 = 0;
            while l < t && tries < PCG_MAX_REDRAWS
                invariant
                    0 < range,
                    range == high - low,
                    low <= high,
                    t as int == lemire_threshold(range as int, 0x1_0000),
                    tries as int == k - 1,
                    k >= 1,
                    self.state() == pcg_advance(s0, k),
                    x == pcg_u16(self.state()),
                    m as int == x * range,
                    l as int == (x * range) % 0x1_0000,
                    forall|j: nat| 1 <= j < k ==> !lemire_accepts(pcg_u16(#[trigger] pcg_advance(s0, j)) as int, range as int, 0x1_0000),
                decreases PCG_MAX_REDRAWS - tries,
            {
                proof {
                    assert(!lemire_accepts(pcg_u16(pcg_advance(s0, k)) as int, range as int, 0x1_0000));
                    PCGRng::lemma_advance_step(s0, k);
                }
                x = self.u16();
                proof {
                    k = k + 1;
                    lemma_value_range(x as int, range as int, 0x1_0000);
                }
                m = (x as u32) * (range as u32);
                l = m as u16;
                proof {
                    lemma_split_u32(m);
                }
                tries = tries + 1;
            }
        } else {
            proof {
                if range > 0 {
                    lemma_threshold_below(range as int, 0x1_0000);
                }
            }
        }
        proof {
            lemma_value_range(x as int, range as int, 0x1_0000);
            lemma_split_u32(m);
            assert(PCGRng::drew_bounded(s0, self.state(), |s: u128| pcg_u16(s) as int, range as int, 0x1_0000, low as int, (m / 0x1_0000) + low)) by {
                let f = |s: u128| pcg_u16(s) as int;
                assert(f(self.state()) == x);
                assert forall|j: nat| 1 <= j < k implies !lemire_accepts(f(#[trigger] pcg_advance(s0, j)), range as int, 0x1_0000) by {
                    assert(f(pcg_advance(s0, j)) == pcg_u16(pcg_advance(s0, j)));
                }
            }
        }
        (m >> 16u32) as u16 + low
    }

    /// Returns a `u32` in the range `[low, high)` (just `low` when `low == high`), drawing new
    /// words while the draw is rejected.
    pub fn bounded_u32(&mut self, low: u32, high: u32) -> (r: u32)
        requires
            low <= high,
        ensures
            pcg_step_call(PcgCall::BoundedU32(low, high), old(self).state(), final(self).state(), r as int),
            PCGRng::drew_bounded(old(self).state(), final(self).state(), |s: u128| pcg_u32(s) as int, (high - low) as int, 0x1_0000_0000, low as int, r as int),
            low < high ==> low <= r < high,
            low == high ==> r == low,
    {
        let ghost s0 = self.state();
        let range = high - low;
        let mut x = self.u32();
        let ghost mut k: nat = 1;
        proof {
            lemma_value_range(x as int, range as int, 0x1_0000_0000);
        }
        let mut m = (x as u64) * (range as u64);
        let mut l = m as u32;
        proof {
            lemma_split_u64(m);
        }
        if l < range {
            let mut t = u32::MAX - range;
            if t >= range {
                t -= range;
                if t >= range {
                    t %= range;
                }
            }
            proof {
                lemma_threshold_below(range as int, 0x1_0000_0000);
                assert(t as int == lemire_threshold(range as int, 0x1_0000_0000));
            }
            let mut tries: u128 = 0;
            while l < t && tries < PCG_MAX_REDRAWS
                invariant
                    0 < range,
                    range == high - low,
                    low <= high,
                    t as int == lemire_threshold(range as int, 0x1_0000_0000),
                    tries as int == k - 1,
                    k >= 1,
                    self.state() == pcg_advance(s0, k),
                    x == pcg_u32(self.state()),
                    m as int == x * range,
                    l as int == (x * range) % 0x1_0000_0000,
                    forall|j: nat| 1 <= j < k ==> !lemire_accepts(pcg_u32(#[trigger] pcg_advance(s0, j)) as int, range as int, 0x1_0000_0000),
                decreases PCG_MAX_REDRAWS - tries,
            {
                proof {
                    assert(!lemire_accepts(pcg_u32(pcg_advance(s0, k)) as int, range as int, 0x1_0000_0000));
                    PCGRng::lemma_advance_step(s0, k);
                }
                x = self.u32();
                proof {
                    k = k + 1;
                    lemma_value_range(x as int, range as int, 0x1_0000_0000);
                }
                m = (x as u64) * (range as u64);
                l = m as u32;
                proof {
                    lemma_split_u64(m);
                }
                tries = tries + 1;
            }
        } else {
            proof {
                if range > 0 {
                    lemma_threshold_below(range as int, 0x1_0000_0000);
                }
            }
        }
        proof {
            lemma_value_range(x as int, range as int, 0x1_0000_0000);
            lemma_split_u64(m);
            assert(PCGRng::drew_bounded(s0, self.state(), |s: u128| pcg_u32(s) as int, range as int, 0x1_0000_0000, low as int, (m / 0x1_0000_0000) + low)) by {
                let f = |s: u128| pcg_u32(s) as int;
                assert(f(self.state()) == x);
                assert forall|j: nat| 1 <= j < k implies !lemire_accepts(f(#[trigger] pcg_advance(s0, j)), range as int, 0x1_0000_0000) by {
                    assert(f(pcg_advance(s0, j)) == pcg_u32(pcg_advance(s0, j)));
                }
            }
        }
        (m >> 32u64) as u32 + low
    }

    /// Returns a `u64` in the range `[low, high)` (just `low` when `low == high`), drawing new
    /// words while the draw is rejected.
    pub fn bounded_u64(&mut self, low: u64, high: u64) -> (r: u64)
        requires
            low <= high,
        ensures
            pcg_step_call(PcgCall::BoundedU64(low, high), old(self).state(), final(self).state(), r as int),
            PCGRng::drew_bounded(old(self).state(), final(self).state(), |s: u128| pcg_u64(s) as int, (high - low) as int, 0x1_0000_0000_0000_0000, low as int, r as int),
            low < high ==> low <= r < high,
            low == high ==> r == low,
    {
        let ghost s0 = self.state();
        let range = high - low;
        let mut x = self.u64();
        let ghost mut k: nat = 1;
        proof {
            lemma_value_range(x as int, range as int, 0x1_0000_0000_0000_0000);
        }
        let mut m = (x as u128) * (range as u128);
        let mut l = m as u64;
        proof {
            lemma_split_u128(m);
        }
        if l < range {
            let mut t = u64::MAX - range;
            if t >= range {
                t -= range;
                if t >= range {
                    t %= range;
                }
            }
            proof {
                lemma_threshold_below(range as int, 0x1_0000_0000_0000_0000);
                assert(t as int == lemire_threshold(range as int, 0x1_0000_0000_0000_0000));
            }
            let mut tries: u128 = 0;
            while l < t && tries < PCG_MAX_REDRAWS
                invariant
                    0 < range,
                    range == high - low,
                    low <= high,
                    t as int == lemire_threshold(range as int, 0x1_0000_0000_0000_0000),
                    tries as int == k - 1,
                    k >= 1,
                    self.state() == pcg_advance(s0, k),
                    x == pcg_u64(self.state()),
                    m as int == x * range,
                    l as int == (x * range) % 0x1_0000_0000_0000_0000,
                    forall|j: nat| 1 <= j < k ==> !lemire_accepts(pcg_u64(#[trigger] pcg_advance(s0, j)) as int, range as int, 0x1_0000_0000_0000_0000),
                decreases PCG_MAX_REDRAWS - tries,
            {
                proof {
                    assert(!lemire_accepts(pcg_u64(pcg_advance(s0, k)) as int, range as int, 0x1_0000_0000_0000_0000));
                    PCGRng::lemma_advance_step(s0, k);
                }
                x = self.u64();
                proof {
                    k = k + 1;
                    lemma_value_range(x as int, range as int, 0x1_0000_0000_0000_0000);
                }
                m = (x as u128) * (range as u128);
                l = m as u64;
                proof {
                    lemma_split_u128(m);
                }
                tries = tries + 1;
            }
        } else {
            proof {
                if range > 0 {
                    lemma_threshold_below(range as int, 0x1_0000_0000_0000_0000);
                }
            }
        }
        proof {
            lemma_value_range(x as int, range as int, 0x1_0000_0000_0000_0000);
            lemma_split_u128(m);
            assert(PCGRng::drew_bounded(s0, self.state(), |s: u128| pcg_u64(s) as int, range as int, 0x1_0000_0000_0000_0000, low as int, (m / 0x1_0000_0000_0000_0000) + low)) by {
                let f = |s: u128| pcg_u64(s) as int;
                assert(f(self.state()) == x);
                assert forall|j: nat| 1 <= j < k implies !lemire_accepts(f(#[trigger] pcg_advance(s0, j)), range as int, 0x1_0000_0000_0000_0000) by {
                    assert(f(pcg_advance(s0, j)) == pcg_u64(pcg_advance(s0, j)));
                }
            }
        }
        (m >> 64u128) as u64 + low
    }
    /// Yields a `u128` in the range `[low, high)`, drawing masked `u128`s until one is below
    /// `high - low`. If `PCG_MAX_REDRAWS + 1` draws are rejected, `low` is returned.
    pub fn bounded_u128(&mut self, low: u128, high: u128) -> (r: u128)
        requires
            low < high,
            high - low <= 0x8000_0000_0000_0000_0000_0000_0000_0000,
        ensures
            pcg_step_call(PcgCall::BoundedU128(low, high), old(self).state(), final(self).state(), r as int),
            low <= r < high,
            exists|k: nat| #[trigger] Self::drew_masked(old(self).state(), final(self).state(), (high - low) as int, low as int, r as int, k),
    {
        let ghost s0 = self.state();
        let range = high - low;
        proof {
            lemma_next_pow2_from(1, range as nat);
        }
        let mask = u128_next_power_of_two(range) - 1;
        let ghost mut k: nat = 0;
        let mut tries: u128 = 0;
        let mut result = low;
        proof {
            Self::lemma_advance_step(s0, 0);
        }
        loop
            invariant_except_break
                0 < range,
                range == high - low,
                low < high,
                mask == (next_pow2(range as nat) - 1) as u128,
                result == low,
                tries as int == k,
                self.state() == pcg_advance(s0, 2 * k),
                forall|j: nat| 1 <= j <= k ==> (#[trigger] pcg_u128(s0, j) & mask) >= range,
            ensures
                low <= result < high,
                Self::drew_masked(s0, self.state(), range as int, low as int, result as int, k),
            decreases PCG_MAX_REDRAWS - tries,
        {
            proof {
                Self::lemma_u128_shift(s0, k);
                Self::lemma_advance_add(s0, 2 * k, 2);
            }
            let x = self.u128() & mask;
            proof {
                k = k + 1;
                assert(x == pcg_u128(s0, k) & mask);
                assert(self.state() == pcg_advance(s0, 2 * k));
            }
            if x < range {
                result = x + low;
                break;
            }
            if tries == PCG_MAX_REDRAWS {
                break;
            }
            tries = tries + 1;
        }
        proof {
            assert(Self::drew_masked(s0, self.state(), high - low, low as int, result as int, k));
            assert(Self::drew_masked_some(s0, self.state(), high - low, low as int, result as int));
        }
        result
    }

    /// Yields a `usize` in the range `[low, high)` (just `low` when `low == high`): a bounded
    /// `u32` on 32-bit targets, a bounded `u64` on 64-bit ones.
    pub fn bounded_usize(&mut self, low: usize, high: usize) -> (r: usize)
        requires
            low <= high,
        ensures
            pcg_step_call(PcgCall::BoundedUsize(low, high), old(self).state(), final(self).state(), r as int),
            low < high ==> low <= r < high,
            low == high ==> r == low,
            usize::BITS == 32 ==> Self::drew_bounded(old(self).state(), final(self).state(), |s: u128| pcg_u32(s) as int, (high - low) as int, 0x1_0000_0000, low as int, r as int),
            usize::BITS == 64 ==> Self::drew_bounded(old(self).state(), final(self).state(), |s: u128| pcg_u64(s) as int, (high - low) as int, 0x1_0000_0000_0000_0000, low as int, r as int),
    {
        if usize::BITS == 32 {
            self.bounded_u32(low as u32, high as u32) as usize
        } else {
            self.bounded_u64(low as u64, high as u64) as usize
        }
    }


    /// Yields an `i8` in the range `[low, high)` (just `low` when `low == high`): `low` plus a
    /// bounded `u8` below `high - low`.
    pub fn bounded_i8(&mut self, low: i8, high: i8) -> (r: i8)
        requires
            low <= high,
        ensures
            pcg_step_call(PcgCall::BoundedI8(low, high), old(self).state(), final(self).state(), r as int),
            Self::drew_bounded(old(self).state(), final(self).state(), |s: u128| pcg_u8(s) as int, high - low, 0x100, 0, r - low),
            low < high ==> low <= r < high,
            low == high ==> r == low,
    {
        let range = ((high as i16) - (low as i16)) as u8;
        let v = self.bounded_u8(0, range);
        ((low as i16) + (v as i16)) as i8
    }

    /// Yields an `i16` in the range `[low, high)` (just `low` when `low == high`): `low` plus a
    /// bounded `u16` below `high - low`.
    pub fn bounded_i16(&mut self, low: i16, high: i16) -> (r: i16)
        requires
            low <= high,
        ensures
            pcg_step_call(PcgCall::BoundedI16(low, high), old(self).state(), final(self).state(), r as int),
            Self::drew_bounded(old(self).state(), final(self).state(), |s: u128| pcg_u16(s) as int, high - low, 0x1_0000, 0, r - low),
            low < high ==> low <= r < high,
            low == high ==> r == low,
    {
        let range = ((high as i32) - (low as i32)) as u16;
        let v = self.bounded_u16(0, range);
        ((low as i32) + (v as i32)) as i16
    }

    /// Yields an `i32` in the range `[low, high)` (just `low` when `low == high`): `low` plus a
    /// bounded `u32` below `high - low`.
    pub fn bounded_i32(&mut self, low: i32, high: i32) -> (r: i32)
        requires
            low <= high,
        ensures
            pcg_step_call(PcgCall::BoundedI32(low, high), old(self).state(), final(self).state(), r as int),
            Self::drew_bounded(old(self).state(), final(self).state(), |s: u128| pcg_u32(s) as int, high - low, 0x1_0000_0000, 0, r - low),
            low < high ==> low <= r < high,
            low == high ==> r == low,
    {
        let range = ((high as i64) - (low as i64)) as u32;
        let v = self.bounded_u32(0, range);
        ((low as i64) + (v as i64)) as i32
    }

    /// Yields an `i64` in the range `[low, high)` (just `low` when `low == high`): `low` plus a
    /// bounded `u64` below `high - low`.
    pub fn bounded_i64(&mut self, low: i64, high: i64) -> (r: i64)
        requires
            low <= high,
        ensures
            pcg_step_call(PcgCall::BoundedI64(low, high), old(self).state(), final(self).state(), r as int),
            Self::drew_bounded(old(self).state(), final(self).state(), |s: u128| pcg_u64(s) as int, high - low, 0x1_0000_0000_0000_0000, 0, r - low),
            low < high ==> low <= r < high,
            low == high ==> r == low,
    {
        let range = ((high as i128) - (low as i128)) as u64;
        let v = self.bounded_u64(0, range);
        ((low as i128) + (v as i128)) as i64
    }

    /// Yields an `i128` in the range `[low, high)`: `low` plus a bounded `u128` below
    /// `high - low`.
    pub fn bounded_i128(&mut self, low: i128, high: i128) -> (r: i128)
        requires
            low < high,
            high - low <= 0x8000_0000_0000_0000_0000_0000_0000_0000,
        ensures
            pcg_step_call(PcgCall::BoundedI128(low, high), old(self).state(), final(self).state(), r as int),
            low <= r < high,
            exists|k: nat| #[trigger] Self::drew_masked(old(self).state(), final(self).state(), high - low, 0, r - low, k),
    {
        let range = high.wrapping_sub(low) as u128;
        assert(range == high - low) by (bit_vector)
            requires
                low < high,
                range == high.wrapping_sub(low) as u128,
                high - low <= 0x8000_0000_0000_0000_0000_0000_0000_0000,
        ;
        let ghost s0 = self.state();
        let v = self.bounded_u128(0, range);
        let r = low + (v as i128);
        proof {
            let k = choose|k: nat| Self::drew_masked(s0, self.state(), range as int, 0, v as int, k);
            assert(Self::drew_masked(s0, self.state(), high - low, 0, r - low, k));
            assert(Self::drew_masked_some(s0, self.state(), high - low, 0, r - low));
        }
        r
    }

    /// Yields an `isize` in the range `[low, high)` (just `low` when `low == high`): `low` plus a
    /// bounded `usize` below `high - low`.
    pub fn bounded_isize(&mut self, low: isize, high: isize) -> (r: isize)
        requires
            low <= high,
        ensures
            pcg_step_call(PcgCall::BoundedIsize(low, high), old(self).state(), final(self).state(), r as int),
            low < high ==> low <= r < high,
            low == high ==> r == low,
            usize::BITS == 32 ==> Self::drew_bounded(old(self).state(), final(self).state(), |s: u128| pcg_u32(s) as int, high - low, 0x1_0000_0000, 0, r - low),
            usize::BITS == 64 ==> Self::drew_bounded(old(self).state(), final(self).state(), |s: u128| pcg_u64(s) as int, high - low, 0x1_0000_0000_0000_0000, 0, r - low),
    {
        let range = ((high as i128) - (low as i128)) as usize;
        let v = self.bounded_usize(0, range);
        ((low as i128) + (v as i128)) as isize
    }
}

/// A call of a method of `PCGRng` that draws a value, with its arguments.
pub enum PcgCall {
    U64,
    U32,
    U16,
    U8,
    U128,
    Usize,
    I8,
    I16,
    I32,
    I64,
    I128,
    Isize,
    BoundedU8(u8, u8),
    BoundedU16(u16, u16),
    BoundedU32(u32, u32),
    BoundedU64(u64, u64),
    BoundedU128(u128, u128),
    BoundedUsize(usize, usize),
    BoundedI8(i8, i8),
    BoundedI16(i16, i16),
    BoundedI32(i32, i32),
    BoundedI64(i64, i64),
    BoundedI128(i128, i128),
    BoundedIsize(isize, isize),
}

/// The call `call` took the generator from state `s0` to `s1` and gave the value `r`.
pub open spec fn pcg_step_call(call: PcgCall, s0: u128, s1: u128, r: int) -> bool {
    match call {
        PcgCall::U64 => s1 == pcg_advance(s0, 1) && r == pcg_u64(s1),
        PcgCall::U32 => s1 == pcg_advance(s0, 1) && r == pcg_u32(s1),
        PcgCall::U16 => s1 == pcg_advance(s0, 1) && r == pcg_u16(s1),
        PcgCall::U8 => s1 == pcg_advance(s0, 1) && r == pcg_u8(s1),
        PcgCall::U128 => s1 == pcg_advance(s0, 2) && r == pcg_u128(s0, 1),
        PcgCall::Usize => {
            &&& s1 == pcg_advance(s0, 1)
            &&& usize::BITS == 32 ==> r == pcg_u32(s1)
            &&& usize::BITS == 64 ==> r == pcg_u64(s1)
        },
        PcgCall::I8 => s1 == pcg_advance(s0, 1) && r == pcg_u8(s1) as i8,
        PcgCall::I16 => s1 == pcg_advance(s0, 1) && r == pcg_u16(s1) as i16,
        PcgCall::I32 => s1 == pcg_advance(s0, 1) && r == pcg_u32(s1) as i32,
        PcgCall::I64 => s1 == pcg_advance(s0, 1) && r == pcg_u64(s1) as i64,
        PcgCall::I128 => s1 == pcg_advance(s0, 2) && r == pcg_u128(s0, 1) as i128,
        PcgCall::Isize => {
            &&& s1 == pcg_advance(s0, 1)
            &&& usize::BITS == 32 ==> r == pcg_u32(s1) as isize
            &&& usize::BITS == 64 ==> r == pcg_u64(s1) as isize
        },
        PcgCall::BoundedU8(low, high) => PCGRng::drew_bounded(s0, s1, |s: u128| pcg_u8(s) as int, high - low, 0x100, low as int, r),
        PcgCall::BoundedU16(low, high) => PCGRng::drew_bounded(s0, s1, |s: u128| pcg_u16(s) as int, high - low, 0x1_0000, low as int, r),
        PcgCall::BoundedU32(low, high) => PCGRng::drew_bounded(s0, s1, |s: u128| pcg_u32(s) as int, high - low, 0x1_0000_0000, low as int, r),
        PcgCall::BoundedU64(low, high) => PCGRng::drew_bounded(s0, s1, |s: u128| pcg_u64(s) as int, high - low, 0x1_0000_0000_0000_0000, low as int, r),
        PcgCall::BoundedU128(low, high) => PCGRng::drew_masked_some(s0, s1, high - low, low as int, r),
        PcgCall::BoundedUsize(low, high) => {
            &&& usize::BITS == 32 ==> PCGRng::drew_bounded(s0, s1, |s: u128| pcg_u32(s) as int, high - low, 0x1_0000_0000, low as int, r)
            &&& usize::BITS == 64 ==> PCGRng::drew_bounded(s0, s1, |s: u128| pcg_u64(s) as int, high - low, 0x1_0000_0000_0000_0000, low as int, r)
        },
        PcgCall::BoundedI8(low, high) => PCGRng::drew_bounded(s0, s1, |s: u128| pcg_u8(s) as int, high - low, 0x100, 0, r - low),
        PcgCall::BoundedI16(low, high) => PCGRng::drew_bounded(s0, s1, |s: u128| pcg_u16(s) as int, high - low, 0x1_0000, 0, r - low),
        PcgCall::BoundedI32(low, high) => PCGRng::drew_bounded(s0, s1, |s: u128| pcg_u32(s) as int, high - low, 0x1_0000_0000, 0, r - low),
        PcgCall::BoundedI64(low, high) => PCGRng::drew_bounded(s0, s1, |s: u128| pcg_u64(s) as int, high - low, 0x1_0000_0000_0000_0000, 0, r - low),
        PcgCall::BoundedI128(low, high) => PCGRng::drew_masked_some(s0, s1, high - low, 0, r - low),
        PcgCall::BoundedIsize(low, high) => {
            &&& usize::BITS == 32 ==> PCGRng::drew_bounded(s0, s1, |s: u128| pcg_u32(s) as int, high - low, 0x1_0000_0000, 0, r - low)
            &&& usize::BITS == 64 ==> PCGRng::drew_bounded(s0, s1, |s: u128| pcg_u64(s) as int, high - low, 0x1_0000_0000_0000_0000, 0, r - low)
        },
    }
}

/// The calls `calls`, made one after the other, took the generator through the states `states`
/// and gave the values `values`.
pub open spec fn pcg_run(calls: Seq<PcgCall>, states: Seq<u128>, values: Seq<int>) -> bool {
    &&& states.len() == calls.len() + 1
    &&& values.len() == calls.len()
    &&& forall|i: int| 0 <= i < calls.len() ==> pcg_step_call(#[trigger] calls[i], states[i], states[i + 1], values[i])
}

/// A call from a given state has one outcome: the state after it and the value it gives.
pub proof fn lemma_pcg_step_unique(call: PcgCall, s0: u128, s1: u128, s2: u128, r1: int, r2: int)
    requires
        pcg_step_call(call, s0, s1, r1),
        pcg_step_call(call, s0, s2, r2),
    ensures
        s1 == s2,
        r1 == r2,
{
    match call {
        PcgCall::BoundedU8(low, high) => {
            PCGRng::lemma_bounded_unique(s0, s1, s2, |s: u128| pcg_u8(s) as int, high - low, 0x100, low as int, r1, r2);
        },
        PcgCall::BoundedI8(low, high) => {
            PCGRng::lemma_bounded_unique(s0, s1, s2, |s: u128| pcg_u8(s) as int, high - low, 0x100, 0, r1 - low, r2 - low);
        },
        PcgCall::BoundedU16(low, high) => {
            PCGRng::lemma_bounded_unique(s0, s1, s2, |s: u128| pcg_u16(s) as int, high - low, 0x1_0000, low as int, r1, r2);
        },
        PcgCall::BoundedI16(low, high) => {
            PCGRng::lemma_bounded_unique(s0, s1, s2, |s: u128| pcg_u16(s) as int, high - low, 0x1_0000, 0, r1 - low, r2 - low);
        },
        PcgCall::BoundedU32(low, high) => {
            PCGRng::lemma_bounded_unique(s0, s1, s2, |s: u128| pcg_u32(s) as int, high - low, 0x1_0000_0000, low as int, r1, r2);
        },
        PcgCall::BoundedI32(low, high) => {
            PCGRng::lemma_bounded_unique(s0, s1, s2, |s: u128| pcg_u32(s) as int, high - low, 0x1_0000_0000, 0, r1 - low, r2 - low);
        },
        PcgCall::BoundedU64(low, high) => {
            PCGRng::lemma_bounded_unique(s0, s1, s2, |s: u128| pcg_u64(s) as int, high - low, 0x1_0000_0000_0000_0000, low as int, r1, r2);
        },
        PcgCall::BoundedI64(low, high) => {
            PCGRng::lemma_bounded_unique(s0, s1, s2, |s: u128| pcg_u64(s) as int, high - low, 0x1_0000_0000_0000_0000, 0, r1 - low, r2 - low);
        },
        PcgCall::BoundedU128(low, high) => {
            let k1 = choose|k: nat| #[trigger] PCGRng::drew_masked(s0, s1, high - low, low as int, r1, k);
            let k2 = choose|k: nat| #[trigger] PCGRng::drew_masked(s0, s2, high - low, low as int, r2, k);
            PCGRng::lemma_masked_unique(s0, s1, s2, high - low, low as int, r1, r2, k1, k2);
        },
        PcgCall::BoundedI128(low, high) => {
            let k1 = choose|k: nat| #[trigger] PCGRng::drew_masked(s0, s1, high - low, 0, r1 - low, k);
            let k2 = choose|k: nat| #[trigger] PCGRng::drew_masked(s0, s2, high - low, 0, r2 - low, k);
            PCGRng::lemma_masked_unique(s0, s1, s2, high - low, 0, r1 - low, r2 - low, k1, k2);
        },
        PcgCall::BoundedUsize(low, high) => {
            if usize::BITS == 32 {
                PCGRng::lemma_bounded_unique(s0, s1, s2, |s: u128| pcg_u32(s) as int, high - low, 0x1_0000_0000, low as int, r1, r2);
            } else {
                PCGRng::lemma_bounded_unique(s0, s1, s2, |s: u128| pcg_u64(s) as int, high - low, 0x1_0000_0000_0000_0000, low as int, r1, r2);
            }
        },
        PcgCall::BoundedIsize(low, high) => {
            if usize::BITS == 32 {
                PCGRng::lemma_bounded_unique(s0, s1, s2, |s: u128| pcg_u32(s) as int, high - low, 0x1_0000_0000, 0, r1 - low, r2 - low);
            } else {
                PCGRng::lemma_bounded_unique(s0, s1, s2, |s: u128| pcg_u64(s) as int, high - low, 0x1_0000_0000_0000_0000, 0, r1 - low, r2 - low);
            }
        },
        _ => {},
    }
}

/// Two runs of the same calls that start in the same state go through the same states and give
/// the same values, up to call `n`.
proof fn lemma_pcg_runs_agree(
    calls: Seq<PcgCall>,
    states1: Seq<u128>,
    values1: Seq<int>,
    states2: Seq<u128>,
    values2: Seq<int>,
    n: int,
)
    requires
        pcg_run(calls, states1, values1),
        pcg_run(calls, states2, values2),
        states1[0] == states2[0],
        0 <= n <= calls.len(),
    ensures
        forall|i: int| 0 <= i <= n ==> #[trigger] states1[i] == states2[i],
        forall|i: int| 0 <= i < n ==> #[trigger] values1[i] == values2[i],
    decreases n,
{
    if n > 0 {
        lemma_pcg_runs_agree(calls, states1, values1, states2, values2, n - 1);
        assert(pcg_step_call(calls[n - 1], states1[n - 1], states1[n], values1[n - 1]));
        assert(pcg_step_call(calls[n - 1], states2[n - 1], states2[n], values2[n - 1]));
        lemma_pcg_step_unique(calls[n - 1], states1[n - 1], states1[n], states2[n], values1[n - 1], values2[n - 1]);
    }
}

/// The inverse of `PCG_MULTIPLIER` modulo `2^128`.
pub const PCG_MULTIPLIER_INVERSE: u128 = 30862878981850946537889826026036309133;

/// Multiplying by `PCG_MULTIPLIER` modulo `2^128` is undone by multiplying by its inverse.
proof fn lemma_multiplier_inverse(a: int)
    requires
        0 <= a < 0x1_0000_0000_0000_0000_0000_0000_0000_0000,
    ensures
        (a * PCG_MULTIPLIER as int % 0x1_0000_0000_0000_0000_0000_0000_0000_0000int) * PCG_MULTIPLIER_INVERSE as int
            % 0x1_0000_0000_0000_0000_0000_0000_0000_0000int == a,
{
    let m = 0x1_0000_0000_0000_0000_0000_0000_0000_0000int;
    let mul = PCG_MULTIPLIER as int;
    let inv = PCG_MULTIPLIER_INVERSE as int;
    let k = 2312158465078786654681915139133034492int;
    assert(mul * inv == 1 + k * m);
    vstd::arithmetic::div_mod::lemma_mul_mod_noop_left(a * mul, inv, m);
    assert((a * mul) * inv == m * (a * k) + a) by (nonlinear_arith)
        requires
            mul * inv == 1 + k * m,
    ;
    vstd::arithmetic::div_mod::lemma_mod_multiples_vanish(a * k, a, m);
    vstd::arithmetic::div_mod::lemma_small_mod(a as nat, m as nat);
}

/// A number below `2 * m` modulo `m` is itself or `m` less.
proof fn lemma_mod_below_twice(x: int, m: int)
    requires
        0 < m,
        0 <= x < 2 * m,
    ensures
        x % m == if x < m { x } else { x - m },
{
    if x < m {
        vstd::arithmetic::div_mod::lemma_small_mod(x as nat, m as nat);
    } else {
        vstd::arithmetic::div_mod::lemma_mod_multiples_vanish(1, x - m, m);
        vstd::arithmetic::div_mod::lemma_small_mod((x - m) as nat, m as nat);
    }
}

/// Distinct states step to distinct states: the multiplier is odd, so a step can be undone.
pub proof fn lemma_pcg_step_injective(a: u128, b: u128)
    ensures
        pcg_step(a) == pcg_step(b) ==> a == b,
{
    reveal(pcg_step);
    let m = 0x1_0000_0000_0000_0000_0000_0000_0000_0000int;
    let x = a as int * PCG_MULTIPLIER as int % m;
    let y = b as int * PCG_MULTIPLIER as int % m;
    vstd::arithmetic::div_mod::lemma_mod_pos_bound(a as int * PCG_MULTIPLIER as int, m);
    vstd::arithmetic::div_mod::lemma_mod_pos_bound(b as int * PCG_MULTIPLIER as int, m);
    vstd::arithmetic::div_mod::lemma_mod_pos_bound(x + PCG_INCREMENT as int, m);
    vstd::arithmetic::div_mod::lemma_mod_pos_bound(y + PCG_INCREMENT as int, m);
    lemma_mod_below_twice(x + PCG_INCREMENT as int, m);
    lemma_mod_below_twice(y + PCG_INCREMENT as int, m);
    if pcg_step(a) == pcg_step(b) {
        assert((x + PCG_INCREMENT as int) % m == (y + PCG_INCREMENT as int) % m);
        assert(x == y);
        lemma_multiplier_inverse(a as int);
        lemma_multiplier_inverse(b as int);
    }
}

/// Generators made with distinct seeds start in distinct states: every bit of the seed counts.
pub proof fn lemma_new_state_injective(a: u64, b: u64)
    ensures
        PCGRng::new_state(a) == PCGRng::new_state(b) ==> a == b,
{
    let m = 0x1_0000_0000_0000_0000_0000_0000_0000_0000int;
    let c = pcg_step(0) as int;
    vstd::arithmetic::div_mod::lemma_mod_pos_bound(c + a, m);
    vstd::arithmetic::div_mod::lemma_mod_pos_bound(c + b, m);
    lemma_mod_below_twice(c + a, m);
    lemma_mod_below_twice(c + b, m);
    lemma_pcg_step_injective(((c + a) % m) as u128, ((c + b) % m) as u128);
}

/// The value `v` of `2 * half` values read in two's complement: as it is below `half`, less
/// `2 * half` from there on.
pub open spec fn twos_complement(v: int, half: int) -> int {
    if v < half {
        v
    } else {
        v - 2 * half
    }
}

proof fn lemma_signed_casts(a: u8, b: u16, c: u32, d: u64, e: u128)
    ensures
        a as i8 as int == twos_complement(a as int, 0x80),
        b as i16 as int == twos_complement(b as int, 0x8000),
        c as i32 as int == twos_complement(c as int, 0x8000_0000),
        d as i64 as int == twos_complement(d as int, 0x8000_0000_0000_0000),
        e as i128 as int == twos_complement(e as int, 0x8000_0000_0000_0000_0000_0000_0000_0000),
{
    assert(a as i8 as int == if a < 0x80 { a as int } else { a as int - 0x100 }) by (bit_vector);
    assert(b as i16 as int == if b < 0x8000 { b as int } else { b as int - 0x1_0000 }) by (bit_vector);
    assert(c as i32 as int == if c < 0x8000_0000 { c as int } else { c as int - 0x1_0000_0000 }) by (bit_vector);
    assert(d as i64 as int == if d < 0x8000_0000_0000_0000 { d as int } else { d as int - 0x1_0000_0000_0000_0000 }) by (bit_vector);
    assert(e as i128 as int == if e < 0x8000_0000_0000_0000_0000_0000_0000_0000 { e as int } else { e as int - 0x1_0000_0000_0000_0000_0000_0000_0000_0000 }) by (bit_vector);
}

proof fn lemma_size_casts(c: u32, d: u64)
    ensures
        usize::BITS == 32 ==> c as isize as int == twos_complement(c as int, 0x8000_0000),
        usize::BITS == 64 ==> d as isize as int == twos_complement(d as int, 0x8000_0000_0000_0000),
{
    if usize::BITS == 32 {
        assert(c as isize as int == if c < 0x8000_0000 { c as int } else { c as int - 0x1_0000_0000 }) by (bit_vector)
            requires
                usize::BITS == 32,
        ;
    } else {
        assert(d as isize as int == if d < 0x8000_0000_0000_0000 { d as int } else { d as int - 0x1_0000_0000_0000_0000 }) by (bit_vector)
            requires
                usize::BITS == 64,
        ;
    }
}

/// Every narrower draw from a state is read off the `u64` that a draw from the same state gives,
/// and advances the state by the same step: a `u32`, `u16` or `u8` is its high 32, 16 or 8 bits
/// (so every value of the type can come out); a signed draw is the same bits in two's complement;
/// a `usize` or `isize` is the `u32`/`i32` draw on 32-bit targets and the `u64`/`i64` draw on
/// 64-bit ones.
pub proof fn lemma_pcg_draws_from_u64(s0: u128, s1: u128, x: int, call: PcgCall, s2: u128, r: int)
    requires
        pcg_step_call(PcgCall::U64, s0, s1, x),
        pcg_step_call(call, s0, s2, r),
    ensures
        call is U32 ==> s2 == s1 && r == x / 0x1_0000_0000,
        call is U16 ==> s2 == s1 && r == x / 0x1_0000_0000_0000,
        call is U8 ==> s2 == s1 && r == x / 0x100_0000_0000_0000,
        call is I64 ==> s2 == s1 && r == twos_complement(x, 0x8000_0000_0000_0000),
        call is I32 ==> s2 == s1 && r == twos_complement(x / 0x1_0000_0000, 0x8000_0000),
        call is I16 ==> s2 == s1 && r == twos_complement(x / 0x1_0000_0000_0000, 0x8000),
        call is I8 ==> s2 == s1 && r == twos_complement(x / 0x100_0000_0000_0000, 0x80),
        call is Usize ==> s2 == s1 && r == (if usize::BITS == 32 { x / 0x1_0000_0000 } else { x }),
        call is Isize ==> s2 == s1 && r == (if usize::BITS == 32 {
            twos_complement(x / 0x1_0000_0000, 0x8000_0000)
        } else {
            twos_complement(x, 0x8000_0000_0000_0000)
        }),
{
    lemma_signed_casts(pcg_u8(s1), pcg_u16(s1), pcg_u32(s1), pcg_u64(s1), 0);
    lemma_size_casts(pcg_u32(s1), pcg_u64(s1));
}

/// A `u128` drawn from a state is made of the two `u64`s that two draws from the same state give,
/// the first as the high half, and leaves the state where they leave it; an `i128` is the same
/// bits in two's complement.
pub proof fn lemma_pcg_u128_from_u64s(s0: u128, s1: u128, x: int, s2: u128, y: int, call: PcgCall, s3: u128, r: int)
    requires
        pcg_step_call(PcgCall::U64, s0, s1, x),
        pcg_step_call(PcgCall::U64, s1, s2, y),
        pcg_step_call(call, s0, s3, r),
    ensures
        call is U128 ==> s3 == s2 && r == x * 0x1_0000_0000_0000_0000 + y,
        call is I128 ==> s3 == s2 && r == twos_complement(
            x * 0x1_0000_0000_0000_0000 + y,
            0x8000_0000_0000_0000_0000_0000_0000_0000,
        ),
{
    assert(pcg_advance(s0, 2) == pcg_step(pcg_advance(s0, 1)));
    assert(pcg_advance(s0, 1) == pcg_step(pcg_advance(s0, 0)));
    assert(pcg_advance(s1, 1) == pcg_step(pcg_advance(s1, 0)));
    assert(s2 == pcg_advance(s0, 2));
    assert((2 * 1 - 1) as nat == 1nat);
    assert(x == pcg_u64(pcg_advance(s0, 1)));
    assert(y == pcg_u64(pcg_advance(s0, 2 * 1)));
    let w = x * 0x1_0000_0000_0000_0000 + y;
    assert(0 <= w < 0x1_0000_0000_0000_0000_0000_0000_0000_0000) by (nonlinear_arith)
        requires
            w == x * 0x1_0000_0000_0000_0000 + y,
            0 <= x < 0x1_0000_0000_0000_0000,
            0 <= y < 0x1_0000_0000_0000_0000,
    ;
    assert(pcg_u128(s0, 1) as int == w);
    lemma_signed_casts(0, 0, 0, 0, pcg_u128(s0, 1));
}

/// A bounded draw whose first word is accepted is read off the `u64` that a draw from the same
/// state gives, and takes the same single step: the word (the high bits of that `u64` for the
/// narrower types) times the width `high - low` of the range, over the number of words, above
/// `low`. So the draw is spread over the whole range.
pub proof fn lemma_pcg_bounded_first_word(s0: u128, s1: u128, x: int, call: PcgCall, s2: u128, r: int)
    requires
        pcg_step_call(PcgCall::U64, s0, s1, x),
        pcg_step_call(call, s0, s2, r),
    ensures
        call matches PcgCall::BoundedU8(low, high) ==> (lemire_accepts((x / 0x100_0000_0000_0000), high - low, 0x100) ==> s2 == s1 && r == low + (x / 0x100_0000_0000_0000) * (high - low) / 0x100),
        call matches PcgCall::BoundedI8(low, high) ==> (lemire_accepts((x / 0x100_0000_0000_0000), high - low, 0x100) ==> s2 == s1 && r == low + (x / 0x100_0000_0000_0000) * (high - low) / 0x100),
        call matches PcgCall::BoundedU16(low, high) ==> (lemire_accepts((x / 0x1_0000_0000_0000), high - low, 0x1_0000) ==> s2 == s1 && r == low + (x / 0x1_0000_0000_0000) * (high - low) / 0x1_0000),
        call matches PcgCall::BoundedI16(low, high) ==> (lemire_accepts((x / 0x1_0000_0000_0000), high - low, 0x1_0000) ==> s2 == s1 && r == low + (x / 0x1_0000_0000_0000) * (high - low) / 0x1_0000),
        call matches PcgCall::BoundedU32(low, high) ==> (lemire_accepts((x / 0x1_0000_0000), high - low, 0x1_0000_0000) ==> s2 == s1 && r == low + (x / 0x1_0000_0000) * (high - low) / 0x1_0000_0000),
        call matches PcgCall::BoundedI32(low, high) ==> (lemire_accepts((x / 0x1_0000_0000), high - low, 0x1_0000_0000) ==> s2 == s1 && r == low + (x / 0x1_0000_0000) * (high - low) / 0x1_0000_0000),
        call matches PcgCall::BoundedU64(low, high) ==> (lemire_accepts(x, high - low, 0x1_0000_0000_0000_0000) ==> s2 == s1 && r == low + x * (high - low) / 0x1_0000_0000_0000_0000),
        call matches PcgCall::BoundedI64(low, high) ==> (lemire_accepts(x, high - low, 0x1_0000_0000_0000_0000) ==> s2 == s1 && r == low + x * (high - low) / 0x1_0000_0000_0000_0000),
        call matches PcgCall::BoundedUsize(low, high) ==> (usize::BITS == 32 && lemire_accepts(
            x / 0x1_0000_0000,
            high - low,
            0x1_0000_0000,
        ) ==> s2 == s1 && r == low + (x / 0x1_0000_0000) * (high - low) / 0x1_0000_0000),
        call matches PcgCall::BoundedUsize(low, high) ==> (usize::BITS == 64 && lemire_accepts(x, high - low, 0x1_0000_0000_0000_0000) ==> s2 == s1 && r == low + x * (high - low) / 0x1_0000_0000_0000_0000),
        call matches PcgCall::BoundedIsize(low, high) ==> (usize::BITS == 32 && lemire_accepts(
            x / 0x1_0000_0000,
            high - low,
            0x1_0000_0000,
        ) ==> s2 == s1 && r == low + (x / 0x1_0000_0000) * (high - low) / 0x1_0000_0000),
        call matches PcgCall::BoundedIsize(low, high) ==> (usize::BITS == 64 && lemire_accepts(x, high - low, 0x1_0000_0000_0000_0000) ==> s2 == s1 && r == low + x * (high - low) / 0x1_0000_0000_0000_0000),
{
    match call {
        PcgCall::BoundedU8(low, high) => {
            if lemire_accepts(pcg_u8(pcg_advance(s0, 1)) as int, high - low, 0x100) {
                PCGRng::lemma_bounded_first_accepted(s0, s2, |s: u128| pcg_u8(s) as int, high - low, 0x100, low as int, r);
            }
        },
        PcgCall::BoundedI8(low, high) => {
            if lemire_accepts(pcg_u8(pcg_advance(s0, 1)) as int, high - low, 0x100) {
                PCGRng::lemma_bounded_first_accepted(s0, s2, |s: u128| pcg_u8(s) as int, high - low, 0x100, 0, r - low);
            }
        },
        PcgCall::BoundedU16(low, high) => {
            if lemire_accepts(pcg_u16(pcg_advance(s0, 1)) as int, high - low, 0x1_0000) {
                PCGRng::lemma_bounded_first_accepted(s0, s2, |s: u128| pcg_u16(s) as int, high - low, 0x1_0000, low as int, r);
            }
        },
        PcgCall::BoundedI16(low, high) => {
            if lemire_accepts(pcg_u16(pcg_advance(s0, 1)) as int, high - low, 0x1_0000) {
                PCGRng::lemma_bounded_first_accepted(s0, s2, |s: u128| pcg_u16(s) as int, high - low, 0x1_0000, 0, r - low);
            }
        },
        PcgCall::BoundedU32(low, high) => {
            if lemire_accepts(pcg_u32(pcg_advance(s0, 1)) as int, high - low, 0x1_0000_0000) {
                PCGRng::lemma_bounded_first_accepted(s0, s2, |s: u128| pcg_u32(s) as int, high - low, 0x1_0000_0000, low as int, r);
            }
        },
        PcgCall::BoundedI32(low, high) => {
            if lemire_accepts(pcg_u32(pcg_advance(s0, 1)) as int, high - low, 0x1_0000_0000) {
                PCGRng::lemma_bounded_first_accepted(s0, s2, |s: u128| pcg_u32(s) as int, high - low, 0x1_0000_0000, 0, r - low);
            }
        },
        PcgCall::BoundedU64(low, high) => {
            if lemire_accepts(pcg_u64(pcg_advance(s0, 1)) as int, high - low, 0x1_0000_0000_0000_0000) {
                PCGRng::lemma_bounded_first_accepted(s0, s2, |s: u128| pcg_u64(s) as int, high - low, 0x1_0000_0000_0000_0000, low as int, r);
            }
        },
        PcgCall::BoundedI64(low, high) => {
            if lemire_accepts(pcg_u64(pcg_advance(s0, 1)) as int, high - low, 0x1_0000_0000_0000_0000) {
                PCGRng::lemma_bounded_first_accepted(s0, s2, |s: u128| pcg_u64(s) as int, high - low, 0x1_0000_0000_0000_0000, 0, r - low);
            }
        },
        PcgCall::BoundedUsize(low, high) => {
            if usize::BITS == 32 {
                if lemire_accepts(pcg_u32(pcg_advance(s0, 1)) as int, high - low, 0x1_0000_0000) {
                    PCGRng::lemma_bounded_first_accepted(s0, s2, |s: u128| pcg_u32(s) as int, high - low, 0x1_0000_0000, low as int, r);
                }
            } else {
                if lemire_accepts(pcg_u64(pcg_advance(s0, 1)) as int, high - low, 0x1_0000_0000_0000_0000) {
                    PCGRng::lemma_bounded_first_accepted(s0, s2, |s: u128| pcg_u64(s) as int, high - low, 0x1_0000_0000_0000_0000, low as int, r);
                }
            }
        },
        PcgCall::BoundedIsize(low, high) => {
            if usize::BITS == 32 {
                if lemire_accepts(pcg_u32(pcg_advance(s0, 1)) as int, high - low, 0x1_0000_0000) {
                    PCGRng::lemma_bounded_first_accepted(s0, s2, |s: u128| pcg_u32(s) as int, high - low, 0x1_0000_0000, 0, r - low);
                }
            } else {
                if lemire_accepts(pcg_u64(pcg_advance(s0, 1)) as int, high - low, 0x1_0000_0000_0000_0000) {
                    PCGRng::lemma_bounded_first_accepted(s0, s2, |s: u128| pcg_u64(s) as int, high - low, 0x1_0000_0000_0000_0000, 0, r - low);
                }
            }
        },
        _ => {},
    }
}

/// A masked `u128` draw whose first masked word is below the width `high - low` of the range takes
/// that word: the `u128` that a draw from the same state gives, masked with the smallest power of
/// two not below the width minus one, above `low`.
pub proof fn lemma_pcg_masked_first_word(s0: u128, s1: u128, w: int, call: PcgCall, s2: u128, r: int)
    requires
        pcg_step_call(PcgCall::U128, s0, s1, w),
        pcg_step_call(call, s0, s2, r),
    ensures
        call matches PcgCall::BoundedU128(low, high) ==> ((w as u128 & (next_pow2((high - low) as nat) - 1) as u128)
            < high - low ==> s2 == s1 && r == low + (w as u128 & (next_pow2((high - low) as nat) - 1) as u128)),
        call matches PcgCall::BoundedI128(low, high) ==> ((w as u128 & (next_pow2((high - low) as nat) - 1) as u128)
            < high - low ==> s2 == s1 && r == low + (w as u128 & (next_pow2((high - low) as nat) - 1) as u128)),
{
    match call {
        PcgCall::BoundedU128(low, high) => {
            let k = choose|k: nat| #[trigger] PCGRng::drew_masked(s0, s2, high - low, low as int, r, k);
            if k > 1 {
                assert((pcg_u128(s0, 1) & (next_pow2((high - low) as nat) - 1) as u128) >= high - low);
            }
        },
        PcgCall::BoundedI128(low, high) => {
            let k = choose|k: nat| #[trigger] PCGRng::drew_masked(s0, s2, high - low, 0, r - low, k);
            if k > 1 {
                assert((pcg_u128(s0, 1) & (next_pow2((high - low) as nat) - 1) as u128) >= high - low);
            }
        },
        _ => {},
    }
}

/// Generators made with the same nonzero seed give the same values for the same sequence of
/// calls: the output depends only on the seed.
pub proof fn lemma_pcg_same_seed_same_values(
    seed: u64,
    calls: Seq<PcgCall>,
    states1: Seq<u128>,
    values1: Seq<int>,
    states2: Seq<u128>,
    values2: Seq<int>,
)
    requires
        seed != 0,
        pcg_run(calls, states1, values1),
        pcg_run(calls, states2, values2),
        states1[0] == PCGRng::new_state(seed),
        states2[0] == PCGRng::new_state(seed),
    ensures
        values1 == values2,
        states1 == states2,
{
    lemma_pcg_runs_agree(calls, states1, values1, states2, values2, calls.len() as int);
    assert(values1 =~= values2);
    assert(states1 =~= states2);
}

} // verus!
