//! A pseudorandom number generator that uses the WyRand algorithm.
use vstd::prelude::*;
use crate::bounded::{
    MAX_REDRAWS, lemire_threshold, lemire_accepts, lemire_value, lemma_threshold_below,
    lemma_value_range, lemma_split_u16, lemma_split_u32, lemma_split_u64, lemma_split_u128,
    next_pow2, lemma_next_pow2_from, u128_next_power_of_two, lemma_join_u128,
};

use crate::rand::pcg::address_of;

verus! {

/// The constant added to the state at each step.
pub const WY_INCREMENT: u64 = 0xa076_1d64_78bd_642f;

/// The constant mixed into the state before the multiplication.
pub const WY_MIX: u64 = 0xe703_7ed1_a0b4_28db;

/// The wyrand mixing function: the 128-bit product of `x` and `x ^ WY_MIX`, with its two halves
/// xored together.
pub open spec fn wyrand_spec(x: u64) -> u64 {
    let p = x as int * (x ^ WY_MIX) as int;
    ((p % 0x1_0000_0000_0000_0000) as u64) ^ ((p / 0x1_0000_0000_0000_0000) as u64)
}

/// The state after `k` steps from state `s`.
#[verifier::opaque]
pub open spec fn wy_advance(s: u64, k: nat) -> u64 {
    ((s + k * WY_INCREMENT) % 0x1_0000_0000_0000_0000) as u64
}

/// The `u64` drawn when the state becomes `s`.
pub open spec fn wy_u64(s: u64) -> u64 {
    wyrand_spec(s)
}

/// The `u32` drawn when the state becomes `s`: the high half of the `u64`.
pub open spec fn wy_u32(s: u64) -> u32 {
    (wyrand_spec(s) / 0x1_0000_0000) as u32
}

/// The `u16` drawn when the state becomes `s`: the high 16 bits of the `u64`.
pub open spec fn wy_u16(s: u64) -> u16 {
    (wyrand_spec(s) / 0x1_0000_0000_0000) as u16
}

/// The `u8` drawn when the state becomes `s`: the high byte of the `u64`.
pub open spec fn wy_u8(s: u64) -> u8 {
    (wyrand_spec(s) / 0x100_0000_0000_0000) as u8
}

/// The `u128` drawn as the `i`-th (from 1) pair of `u64` words after state `s`: the first word of
/// the pair is the high half.
pub open spec fn wy_u128(s: u64, i: nat) -> u128 {
    (wy_u64(wy_advance(s, (2 * i - 1) as nat)) as int * 0x1_0000_0000_0000_0000 + wy_u64(
        wy_advance(s, 2 * i),
    ) as int) as u128
}

/// A pseudorandom number generator that uses the WyRand algorithm.
pub struct WyRng {
    /// The current state of the RNG.
    state: u64,
}

impl WyRng {
    /// The current state.
    pub closed spec fn state(self) -> u64 {
        self.state
    }

    /// A bounded draw: starting from state `s0`, words `draw` of the states after 1, 2, ... steps
    /// were drawn up to and including the first one accepted (or `MAX_REDRAWS + 1` words), the
    /// state ended at `s1`, and `r` is `low` plus the value of the last word.
    pub open spec fn drew_bounded(
        s0: u64,
        s1: u64,
        draw: spec_fn(u64) -> int,
        range: int,
        m: int,
        low: int,
        r: int,
    ) -> bool {
        exists|k: nat|
            {
                &&& 1 <= k <= MAX_REDRAWS + 1
                &&& s1 == #[trigger] wy_advance(s0, k)
                &&& r == low + lemire_value(draw(s1), range, m)
                &&& forall|j: nat| 1 <= j < k ==> !lemire_accepts(draw(#[trigger] wy_advance(s0, j)), range, m)
                &&& (lemire_accepts(draw(s1), range, m) || k == MAX_REDRAWS + 1)
            }
    }

    /// A draw of `bounded_usize(low, high)` that moved the state from `s0` to `s1` and gave `r`:
    /// a bounded `u32` draw on 32-bit targets, a bounded `u64` draw on 64-bit ones.
    pub open spec fn drew_usize(s0: u64, s1: u64, low: int, high: int, r: int) -> bool {
        &&& low <= r < high
        &&& usize::BITS == 32 ==> Self::drew_bounded(s0, s1, |s: u64| wy_u32(s) as int, high - low, 0x1_0000_0000, low, r)
        &&& usize::BITS == 64 ==> Self::drew_bounded(s0, s1, |s: u64| wy_u64(s) as int, high - low, 0x1_0000_0000_0000_0000, low, r)
    }

    /// A masked draw: starting from state `s0`, `k` `u128` words (pairs of steps) were drawn,
    /// masked with the smallest power of two not below `range` minus one; all but the last were
    /// not below `range`; the state ended at `s1`; and `r` is `low` plus the last masked word,
    /// or `low` if that was not below `range` either (after `MAX_REDRAWS + 1` words).
    pub open spec fn drew_masked(s0: u64, s1: u64, range: int, low: int, r: int, k: nat) -> bool {
        let mask = (next_pow2(range as nat) - 1) as u128;
        &&& 1 <= k <= MAX_REDRAWS + 1
        &&& s1 == wy_advance(s0, 2 * k)
        &&& forall|j: nat| 1 <= j < k ==> (#[trigger] wy_u128(s0, j) & mask) >= range
        &&& if (wy_u128(s0, k) & mask) < range {
            r == (wy_u128(s0, k) & mask) + low
        } else {
            k == MAX_REDRAWS + 1 && r == low
        }
    }

    pub proof fn lemma_advance_step(s: u64, k: nat)
        ensures
            wy_advance(wy_advance(s, k), 1) == wy_advance(s, k + 1),
            wy_advance(s, 0) == s,
    {
        reveal(wy_advance);
        let m = 0x1_0000_0000_0000_0000int;
        vstd::arithmetic::div_mod::lemma_add_mod_noop(s + k * WY_INCREMENT, WY_INCREMENT as int, m);
        vstd::arithmetic::div_mod::lemma_small_mod(WY_INCREMENT as nat, m as nat);
        vstd::arithmetic::div_mod::lemma_small_mod(s as nat, m as nat);
        assert((k + 1) * WY_INCREMENT == k * WY_INCREMENT + WY_INCREMENT);
    }

    pub proof fn lemma_advance_add(s: u64, a: nat, b: nat)
        ensures
            wy_advance(wy_advance(s, a), b) == wy_advance(s, a + b),
    {
        reveal(wy_advance);
        let m = 0x1_0000_0000_0000_0000int;
        let c = WY_INCREMENT as int;
        let x = s + a * c;
        let y = b * c;
        vstd::arithmetic::div_mod::lemma_add_mod_noop(x, y, m);
        vstd::arithmetic::div_mod::lemma_add_mod_noop(x % m, y, m);
        vstd::arithmetic::div_mod::lemma_mod_twice(x, m);
        vstd::arithmetic::mul::lemma_mul_is_distributive_add_other_way(c, a as int, b as int);
        assert(wy_advance(s, a) as int == x % m);
        assert(wy_advance(wy_advance(s, a), b) as int == (x % m + y) % m);
        assert(wy_advance(s, a + b) as int == (x + y) % m);
    }

    /// The `i + 1`-th `u128` after `s` is the first one after the state `2 * i` steps later.
    pub proof fn lemma_u128_shift(s: u64, i: nat)
        ensures
            wy_u128(wy_advance(s, 2 * i), 1) == wy_u128(s, i + 1),
    {
        reveal(wy_u128);
        Self::lemma_advance_add(s, 2 * i, 1);
        Self::lemma_advance_add(s, 2 * i, 2);
        assert((2 * (i + 1) - 1) as nat == 2 * i + 1);
        assert(2 * (i + 1) == 2 * i + 2);
    }

    /// Generators made with the same nonzero seed are equal.
    pub proof fn lemma_same_seed(seed: u64, a: WyRng, b: WyRng)
        requires
            seed != 0,
            a.state() == seed,
            b.state() == seed,
        ensures
            a == b,
    {
    }

    /// A bounded draw from a state has one outcome: the state it ends in and the value it gives.
    pub proof fn lemma_bounded_unique(
        s0: u64,
        s1: u64,
        s2: u64,
        draw: spec_fn(u64) -> int,
        range: int,
        m: int,
        low: int,
        r1: int,
        r2: int,
    )
        requires
            Self::drew_bounded(s0, s1, draw, range, m, low, r1),
            Self::drew_bounded(s0, s2, draw, range, m, low, r2),
        ensures
            s1 == s2,
            r1 == r2,
    {
        let k1 = choose|k: nat|
            {
                &&& 1 <= k <= MAX_REDRAWS + 1
                &&& s1 == #[trigger] wy_advance(s0, k)
                &&& r1 == low + lemire_value(draw(s1), range, m)
                &&& forall|j: nat| 1 <= j < k ==> !lemire_accepts(draw(#[trigger] wy_advance(s0, j)), range, m)
                &&& (lemire_accepts(draw(s1), range, m) || k == MAX_REDRAWS + 1)
            };
        let k2 = choose|k: nat|
            {
                &&& 1 <= k <= MAX_REDRAWS + 1
                &&& s2 == #[trigger] wy_advance(s0, k)
                &&& r2 == low + lemire_value(draw(s2), range, m)
                &&& forall|j: nat| 1 <= j < k ==> !lemire_accepts(draw(#[trigger] wy_advance(s0, j)), range, m)
                &&& (lemire_accepts(draw(s2), range, m) || k == MAX_REDRAWS + 1)
            };
        if k1 < k2 {
            assert(!lemire_accepts(draw(wy_advance(s0, k1)), range, m));
        } else if k2 < k1 {
            assert(!lemire_accepts(draw(wy_advance(s0, k2)), range, m));
        }
    }

    /// Some number of words gave a masked draw (see `drew_masked`).
    pub open spec fn drew_masked_some(s0: u64, s1: u64, range: int, low: int, r: int) -> bool {
        exists|k: nat| #[trigger] Self::drew_masked(s0, s1, range, low, r, k)
    }

    /// A bounded draw whose first word is accepted takes that word: one step, and its value.
    pub proof fn lemma_bounded_first_accepted(
        s0: u64,
        s1: u64,
        draw: spec_fn(u64) -> int,
        range: int,
        m: int,
        low: int,
        r: int,
    )
        requires
            Self::drew_bounded(s0, s1, draw, range, m, low, r),
            lemire_accepts(draw(wy_advance(s0, 1)), range, m),
        ensures
            s1 == wy_advance(s0, 1),
            r == low + lemire_value(draw(wy_advance(s0, 1)), range, m),
    {
        let k = choose|k: nat|
            {
                &&& 1 <= k <= MAX_REDRAWS + 1
                &&& s1 == #[trigger] wy_advance(s0, k)
                &&& r == low + lemire_value(draw(s1), range, m)
                &&& forall|j: nat| 1 <= j < k ==> !lemire_accepts(draw(#[trigger] wy_advance(s0, j)), range, m)
                &&& (lemire_accepts(draw(s1), range, m) || k == MAX_REDRAWS + 1)
            };
        if k > 1 {
            assert(!lemire_accepts(draw(wy_advance(s0, 1)), range, m));
        }
    }

    /// A masked draw from a state has one outcome: the number of words, the state it ends in and
    /// the value it gives.
    pub proof fn lemma_masked_unique(s0: u64, s1: u64, s2: u64, range: int, low: int, r1: int, r2: int, k1: nat, k2: nat)
        requires
            Self::drew_masked(s0, s1, range, low, r1, k1),
            Self::drew_masked(s0, s2, range, low, r2, k2),
        ensures
            k1 == k2,
            s1 == s2,
            r1 == r2,
    {
        let mask = (next_pow2(range as nat) - 1) as u128;
        if k1 < k2 {
            assert((wy_u128(s0, k1) & mask) >= range);
        } else if k2 < k1 {
            assert((wy_u128(s0, k2) & mask) >= range);
        }
    }

    /// Returns a new PRNG initialized with the given seed. If the seed is `0`, the address of the
    /// generator is used as the seed, which should give each run of a program its own sequence.
    pub fn new(seed: u64) -> (rng: Self)
        ensures
            seed != 0 ==> rng.state() == seed,
    {
        let mut seed = seed;
        let mut rng = Self { state: 0 };
        if seed == 0 {
            seed = address_of(&rng);
        }
        rng.state = rng.state.wrapping_add(seed);
        rng
    }

    /// The generator itself, mutably borrowed.
    pub fn as_mut(&mut self) -> (r: &mut Self)
        ensures
            *r == *old(self),
            *final(self) == *final(r),
    {
        self
    }

    /// Returns a `u64` using `x` as the seed for the wyrand algorithm.
    fn wyrand(x: u64) -> (r: u64)
        ensures
            r == wyrand_spec(x),
    {
        let mut a = x;
        let mut b = x ^ WY_MIX;
        proof {
            lemma_value_range(a as int, b as int, 0x1_0000_0000_0000_0000);
        }
        let r = (a as u128) * (b as u128);
        a = r as u64;
        b = (r >> 64u128) as u64;
        proof {
            lemma_split_u128(r);
        }
        a ^ b
    }

    /// Returns a `u64`.
    pub fn u64(&mut self) -> (r: u64)
        ensures
            wy_step(WyCall::U64, old(self).state(), final(self).state(), r as int),
            final(self).state() == wy_advance(old(self).state(), 1),
            r == wy_u64(final(self).state()),
    {
        proof {
            reveal(wy_advance);
        }
        self.state = self.state.wrapping_add(WY_INCREMENT);
        Self::wyrand(self.state)
    }

    /// Returns a `u32`.
    pub fn u32(&mut self) -> (r: u32)
        ensures
            wy_step(WyCall::U32, old(self).state(), final(self).state(), r as int),
            final(self).state() == wy_advance(old(self).state(), 1),
            r == wy_u32(final(self).state()),
    {
        let x = self.u64();
        proof {
            lemma_split_u64(x);
        }
        (x >> 32u64) as u32
    }

    /// Returns a `u16`.
    pub fn u16(&mut self) -> (r: u16)
        ensures
            wy_step(WyCall::U16, old(self).state(), final(self).state(), r as int),
            final(self).state() == wy_advance(old(self).state(), 1),
            r == wy_u16(final(self).state()),
    {
        let x = self.u64();
        assert(x >> 48u64 == x / 0x1_0000_0000_0000) by (bit_vector);
        (x >> 48u64) as u16
    }

    /// Returns a `u8`.
    pub fn u8(&mut self) -> (r: u8)
        ensures
            wy_step(WyCall::U8, old(self).state(), final(self).state(), r as int),
            final(self).state() == wy_advance(old(self).state(), 1),
            r == wy_u8(final(self).state()),
    {
        let x = self.u64();
        assert(x >> 56u64 == x / 0x100_0000_0000_0000) by (bit_vector);
        (x >> 56u64) as u8
    }

    /// Returns a `bool`: whether the next `u64` is above `u64::MAX / 2`.
    pub fn bool(&mut self) -> (r: bool)
        ensures
            wy_step(WyCall::Bool, old(self).state(), final(self).state(), if r { 1 } else { 0 }),
            final(self).state() == wy_advance(old(self).state(), 1),
            r == (wy_u64(final(self).state()) > u64::MAX / 2),
    {
        self.u64() > u64::MAX / 2
    }

    /// Returns a `u8` in the range `[low, high)` (just `low` when `low == high`), drawing new
    /// words while the draw is rejected.
    pub fn bounded_u8(&mut self, low: u8, high: u8) -> (r: u8)
        requires
            low <= high,
        ensures
            wy_step(WyCall::BoundedU8(low, high), old(self).state(), final(self).state(), r as int),
            WyRng::drew_bounded(old(self).state(), final(self).state(), |s: u64| wy_u8(s) as int, (high - low) as int, 0x100, low as int, r as int),
            low < high ==> low <= r < high,
            low == high ==> r == low,
    {
        let ghost s0 = self.state();
        let range = high - low;
        let mut x = self.u8();
        let ghost mut k: nat = 1;
        proof {
            lemma_value_range(x as int, range as int, 0x100);
        }
        let mut m = (x as u16) * (range as u16);
        let mut l = m as u8;
        proof {
            lemma_split_u16(m);
        }
        if l < range {
            let mut t = u8::MAX - range;
            if t >= range {
                t -= range;
                if t >= range {
                    t %= range;
                }
            }
            proof {
                lemma_threshold_below(range as int, 0x100);
                assert(t as int == lemire_threshold(range as int, 0x100));
            }
            let mut tries: u64 = 0;
            while l < t && tries < MAX_REDRAWS
                invariant
                    0 < range,
                    range == high - low,
                    low <= high,
                    t as int == lemire_threshold(range as int, 0x100),
                    tries as int == k - 1,
                    k >= 1,
                    self.state() == wy_advance(s0, k),
                    x == wy_u8(self.state()),
                    m as int == x * range,
                    l as int == (x * range) % 0x100,
                    forall|j: nat| 1 <= j < k ==> !lemire_accepts(wy_u8(#[trigger] wy_advance(s0, j)) as int, range as int, 0x100),
                decreases MAX_REDRAWS - tries,
            {
                proof {
                    assert(!lemire_accepts(wy_u8(wy_advance(s0, k)) as int, range as int, 0x100));
                    WyRng::lemma_advance_step(s0, k);
                }
                x = self.u8();
                proof {
                    k = k + 1;
                    lemma_value_range(x as int, range as int, 0x100);
                }
                m = (x as u16) * (range as u16);
                l = m as u8;
                proof {
                    lemma_split_u16(m);
                }
                tries = tries + 1;
            }
        } else {
            proof {
                if range > 0 {
                    lemma_threshold_below(range as int, 0x100);
                }
            }
        }
        proof {
            lemma_value_range(x as int, range as int, 0x100);
            lemma_split_u16(m);
            assert(WyRng::drew_bounded(s0, self.state(), |s: u64| wy_u8(s) as int, range as int, 0x100, low as int, (m / 0x100) + low)) by {
                let f = |s: u64| wy_u8(s) as int;
                assert(f(self.state()) == x);
                assert forall|j: nat| 1 <= j < k implies !lemire_accepts(f(#[trigger] wy_advance(s0, j)), range as int, 0x100) by {
                    assert(f(wy_advance(s0, j)) == wy_u8(wy_advance(s0, j)));
                }
            }
        }
        (m >> 8u16) as u8 + low
    }

    /// Returns a `u16` in the range `[low, high)` (just `low` when `low == high`), drawing new
    /// words while the draw is rejected.
    pub fn bounded_u16(&mut self, low: u16, high: u16) -> (r: u16)
        requires
            low <= high,
        ensures
            wy_step(WyCall::BoundedU16(low, high), old(self).state(), final(self).state(), r as int),
            WyRng::drew_bounded(old(self).state(), final(self).state(), |s: u64| wy_u16(s) as int, (high - low) as int, 0x1_0000, low as int, r as int),
            low < high ==> low <= r < high,
            low == high ==> r == low,
    {
        let ghost s0 = self.state();
        let range = high - low;
        let mut x = self.u16();
        let ghost mut k: nat = 1;
        proof {
            lemma_value_range(x as int, range as int, 0x1_0000);
        }
        let mut m = (x as u32) * (range as u32);
        let mut l = m as u16;
        proof {
            lemma_split_u32(m);
        }
        if l < range {
            let mut t = u16::MAX - range;
            if t >= range {
                t -= range;
                if t >= range {
                    t %= range;
                }
            }
            proof {
                lemma_threshold_below(range as int, 0x1_0000);
                assert(t as int == lemire_threshold(range as int, 0x1_0000));
            }
            let mut tries: u64 = 0;
            while l < t && tries < MAX_REDRAWS
                invariant
                    0 < range,
                    range == high - low,
                    low <= high,
                    t as int == lemire_threshold(range as int, 0x1_0000),
                    tries as int == k - 1,
                    k >= 1,
                    self.state() == wy_advance(s0, k),
                    x == wy_u16(self.state()),
                    m as int == x * range,
                    l as int == (x * range) % 0x1_0000,
                    forall|j: nat| 1 <= j < k ==> !lemire_accepts(wy_u16(#[trigger] wy_advance(s0, j)) as int, range as int, 0x1_0000),
                decreases MAX_REDRAWS - tries,
            {
                proof {
                    assert(!lemire_accepts(wy_u16(wy_advance(s0, k)) as int, range as int, 0x1_0000));
                    WyRng::lemma_advance_step(s0, k);
                }
                x = self.u16();
                proof {
                    k = k + 1;
                    lemma_value_range(x as int, range as int, 0x1_0000);
                }
                m = (x as u32) * (range as u32);
                l = m as u16;
                proof {
                    lemma_split_u32(m);
                }
                tries = tries + 1;
            }
        } else {
            proof {
                if range > 0 {
                    lemma_threshold_below(range as int, 0x1_0000);
                }
            }
        }
        proof {
            lemma_value_range(x as int, range as int, 0x1_0000);
            lemma_split_u32(m);
            assert(WyRng::drew_bounded(s0, self.state(), |s: u64| wy_u16(s) as int, range as int, 0x1_0000, low as int, (m / 0x1_0000) + low)) by {
                let f = |s: u64| wy_u16(s) as int;
                assert(f(self.state()) == x);
                assert forall|j: nat| 1 <= j < k implies !lemire_accepts(f(#[trigger] wy_advance(s0, j)), range as int, 0x1_0000) by {
                    assert(f(wy_advance(s0, j)) == wy_u16(wy_advance(s0, j)));
                }
            }
        }
        (m >> 16u32) as u16 + low
    }

    /// Returns a `u32` in the range `[low, high)` (just `low` when `low == high`), drawing new
    /// words while the draw is rejected.
    pub fn bounded_u32(&mut self, low: u32, high: u32) -> (r: u32)
        requires
            low <= high,
        ensures
            wy_step(WyCall::BoundedU32(low, high), old(self).state(), final(self).state(), r as int),
            WyRng::drew_bounded(old(self).state(), final(self).state(), |s: u64| wy_u32(s) as int, (high - low) as int, 0x1_0000_0000, low as int, r as int),
            low < high ==> low <= r < high,
            low == high ==> r == low,
    {
        let ghost s0 = self.state();
        let range = high - low;
        let mut x = self.u32();
        let ghost mut k: nat = 1;
        proof {
            lemma_value_range(x as int, range as int, 0x1_0000_0000);
        }
        let mut m = (x as u64) * (range as u64);
        let mut l = m as u32;
        proof {
            lemma_split_u64(m);
        }
        if l < range {
            let mut t = u32::MAX - range;
            if t >= range {
                t -= range;
                if t >= range {
                    t %= range;
                }
            }
            proof {
                lemma_threshold_below(range as int, 0x1_0000_0000);
                assert(t as int == lemire_threshold(range as int, 0x1_0000_0000));
            }
            let mut tries: u64 = 0;
            while l < t && tries < MAX_REDRAWS
                invariant
                    0 < range,
                    range == high - low,
                    low <= high,
                    t as int == lemire_threshold(range as int, 0x1_0000_0000),
                    tries as int == k - 1,
                    k >= 1,
                    self.state() == wy_advance(s0, k),
                    x == wy_u32(self.state()),
                    m as int == x * range,
                    l as int == (x * range) % 0x1_0000_0000,
                    forall|j: nat| 1 <= j < k ==> !lemire_accepts(wy_u32(#[trigger] wy_advance(s0, j)) as int, range as int, 0x1_0000_0000),
                decreases MAX_REDRAWS - tries,
            {
                proof {
                    assert(!lemire_accepts(wy_u32(wy_advance(s0, k)) as int, range as int, 0x1_0000_0000));
                    WyRng::lemma_advance_step(s0, k);
                }
                x = self.u32();
                proof {
                    k = k + 1;
                    lemma_value_range(x as int, range as int, 0x1_0000_0000);
                }
                m = (x as u64) * (range as u64);
                l = m as u32;
                proof {
                    lemma_split_u64(m);
                }
                tries = tries + 1;
            }
        } else {
            proof {
                if range > 0 {
                    lemma_threshold_below(range as int, 0x1_0000_0000);
                }
            }
        }
        proof {
            lemma_value_range(x as int, range as int, 0x1_0000_0000);
            lemma_split_u64(m);
            assert(WyRng::drew_bounded(s0, self.state(), |s: u64| wy_u32(s) as int, range as int, 0x1_0000_0000, low as int, (m / 0x1_0000_0000) + low)) by {
                let f = |s: u64| wy_u32(s) as int;
                assert(f(self.state()) == x);
                assert forall|j: nat| 1 <= j < k implies !lemire_accepts(f(#[trigger] wy_advance(s0, j)), range as int, 0x1_0000_0000) by {
                    assert(f(wy_advance(s0, j)) == wy_u32(wy_advance(s0, j)));
                }
            }
        }
        (m >> 32u64) as u32 + low
    }

    /// Returns a `u64` in the range `[low, high)` (just `low` when `low == high`), drawing new
    /// words while the draw is rejected.
    pub fn bounded_u64(&mut self, low: u64, high: u64) -> (r: u64)
        requires
            low < high,
        ensures
            wy_step(WyCall::BoundedU64(low, high), old(self).state(), final(self).state(), r as int),
            WyRng::drew_bounded(old(self).state(), final(self).state(), |s: u64| wy_u64(s) as int, (high - low) as int, 0x1_0000_0000_0000_0000, low as int, r as int),
            low < high ==> low <= r < high,
            low == high ==> r == low,
    {
        let ghost s0 = self.state();
        let range = high - low;
        let mut x = self.u64();
        let ghost mut k: nat = 1;
        proof {
            lemma_value_range(x as int, range as int, 0x1_0000_0000_0000_0000);
        }
        let mut m = (x as u128) * (range as u128);
        let mut l = m as u64;
        proof {
            lemma_split_u128(m);
        }
        if l < range {
            let mut t = u64::MAX - range;
            let sub: u64 = if t >= range { range } else { 0 };
            t -= sub;
            if t >= range {
                t %= range;
            }
            proof {
                lemma_threshold_below(range as int, 0x1_0000_0000_0000_0000);
                assert(t as int == lemire_threshold(range as int, 0x1_0000_0000_0000_0000));
            }
            let mut tries: u64 = 0;
            while l < t && tries < MAX_REDRAWS
                invariant
                    0 < range,
                    range == high - low,
                    low <= high,
                    t as int == lemire_threshold(range as int, 0x1_0000_0000_0000_0000),
                    tries as int == k - 1,
                    k >= 1,
                    self.state() == wy_advance(s0, k),
                    x == wy_u64(self.state()),
                    m as int == x * range,
                    l as int == (x * range) % 0x1_0000_0000_0000_0000,
                    forall|j: nat| 1 <= j < k ==> !lemire_accepts(wy_u64(#[trigger] wy_advance(s0, j)) as int, range as int, 0x1_0000_0000_0000_0000),
                decreases MAX_REDRAWS - tries,
            {
                proof {
                    assert(!lemire_accepts(wy_u64(wy_advance(s0, k)) as int, range as int, 0x1_0000_0000_0000_0000));
                    WyRng::lemma_advance_step(s0, k);
                }
                x = self.u64();
                proof {
                    k = k + 1;
                    lemma_value_range(x as int, range as int, 0x1_0000_0000_0000_0000);
                }
                m = (x as u128) * (range as u128);
                l = m as u64;
                proof {
                    lemma_split_u128(m);
                }
                tries = tries + 1;
            }
        } else {
            proof {
                if range > 0 {
                    lemma_threshold_below(range as int, 0x1_0000_0000_0000_0000);
                }
            }
        }
        proof {
            lemma_value_range(x as int, range as int, 0x1_0000_0000_0000_0000);
            lemma_split_u128(m);
            assert(WyRng::drew_bounded(s0, self.state(), |s: u64| wy_u64(s) as int, range as int, 0x1_0000_0000_0000_0000, low as int, (m / 0x1_0000_0000_0000_0000) + low)) by {
                let f = |s: u64| wy_u64(s) as int;
                assert(f(self.state()) == x);
                assert forall|j: nat| 1 <= j < k implies !lemire_accepts(f(#[trigger] wy_advance(s0, j)), range as int, 0x1_0000_0000_0000_0000) by {
                    assert(f(wy_advance(s0, j)) == wy_u64(wy_advance(s0, j)));
                }
            }
        }
        (m >> 64u128) as u64 + low
    }

    /// Returns a `u128`, made of two `u64`s, the first as the high half.
    pub fn u128(&mut self) -> (r: u128)
        ensures
            wy_step(WyCall::U128, old(self).state(), final(self).state(), r as int),
            final(self).state() == wy_advance(old(self).state(), 2),
            r == wy_u128(old(self).state(), 1),
    {
        let ghost s0 = self.state();
        let a = self.u64();
        let b = self.u64();
        proof {
            reveal(wy_u128);
            Self::lemma_advance_step(s0, 1);
            Self::lemma_advance_add(s0, 1, 1);
            lemma_join_u128(a, b);
        }
        (a as u128) << 64u128 | b as u128
    }

    /// Returns a `u128` in the range `[low, high)`, drawing masked `u128`s until one is below
    /// `high - low`. If `MAX_REDRAWS + 1` draws are rejected, `low` is returned.
    pub fn bounded_u128(&mut self, low: u128, high: u128) -> (r: u128)
        requires
            low < high,
            high - low <= 0x8000_0000_0000_0000_0000_0000_0000_0000,
        ensures
            wy_step(WyCall::BoundedU128(low, high), old(self).state(), final(self).state(), r as int),
            low <= r < high,
            exists|k: nat| #[trigger] Self::drew_masked(old(self).state(), final(self).state(), (high - low) as int, low as int, r as int, k),
    {
        let ghost s0 = self.state();
        let range = high - low;
        proof {
            lemma_next_pow2_from(1, range as nat);
        }
        let mask = u128_next_power_of_two(range) - 1;
        let ghost mut k: nat = 0;
        let mut tries: u64 = 0;
        let mut result = low;
        proof {
            Self::lemma_advance_step(s0, 0);
        }
        loop
            invariant_except_break
                0 < range,
                range == high - low,
                low < high,
                mask == (next_pow2(range as nat) - 1) as u128,
                result == low,
                tries as int == k,
                self.state() == wy_advance(s0, 2 * k),
                forall|j: nat| 1 <= j <= k ==> (#[trigger] wy_u128(s0, j) & mask) >= range,
            ensures
                low <= result < high,
                Self::drew_masked(s0, self.state(), range as int, low as int, result as int, k),
            decreases MAX_REDRAWS - tries,
        {
            proof {
                Self::lemma_u128_shift(s0, k);
                Self::lemma_advance_add(s0, 2 * k, 2);
            }
            let x = self.u128() & mask;
            proof {
                k = k + 1;
                assert(x == wy_u128(s0, k) & mask);
                assert(self.state() == wy_advance(s0, 2 * k));
            }
            if x < range {
                result = x + low;
                break;
            }
            if tries == MAX_REDRAWS {
                break;
            }
            tries = tries + 1;
        }
        proof {
            assert(Self::drew_masked(s0, self.state(), high - low, low as int, result as int, k));
            assert(Self::drew_masked_some(s0, self.state(), high - low, low as int, result as int));
        }
        result
    }

    /// Returns a `usize` in the range `[low, high)`: a bounded `u32` on 32-bit targets, a bounded
    /// `u64` on 64-bit ones.
    pub fn bounded_usize(&mut self, low: usize, high: usize) -> (r: usize)
        requires
            low < high,
        ensures
            wy_step(WyCall::BoundedUsize(low, high), old(self).state(), final(self).state(), r as int),
            low <= r < high,
            Self::drew_usize(old(self).state(), final(self).state(), low as int, high as int, r as int),
    {
        if usize::BITS == 32 {
            self.bounded_u32(low as u32, high as u32) as usize
        } else {
            self.bounded_u64(low as u64, high as u64) as usize
        }
    }

    /// Returns a `usize`: a `u32` on 32-bit targets, a `u64` on 64-bit ones.
    pub fn usize(&mut self) -> (r: usize)
        ensures
            wy_step(WyCall::Usize, old(self).state(), final(self).state(), r as int),
            final(self).state() == wy_advance(old(self).state(), 1),
            usize::BITS == 32 ==> r == wy_u32(final(self).state()),
            usize::BITS == 64 ==> r == wy_u64(final(self).state()),
    {
        if usize::BITS == 32 {
            self.u32() as usize
        } else {
            self.u64() as usize
        }
    }
}

/// A call of a method of `WyRng` that draws a value, with its arguments.
pub enum WyCall {
    U64,
    U32,
    U16,
    U8,
    Bool,
    U128,
    Usize,
    BoundedU8(u8, u8),
    BoundedU16(u16, u16),
    BoundedU32(u32, u32),
    BoundedU64(u64, u64),
    BoundedU128(u128, u128),
    BoundedUsize(usize, usize),
}

/// The call `call` took the generator from state `s0` to `s1` and gave the value `r` (a `bool`
/// as `0` or `1`).
pub open spec fn wy_step(call: WyCall, s0: u64, s1: u64, r: int) -> bool {
    match call {
        WyCall::U64 => s1 == wy_advance(s0, 1) && r == wy_u64(s1),
        WyCall::U32 => s1 == wy_advance(s0, 1) && r == wy_u32(s1),
        WyCall::U16 => s1 == wy_advance(s0, 1) && r == wy_u16(s1),
        WyCall::U8 => s1 == wy_advance(s0, 1) && r == wy_u8(s1),
        WyCall::Bool => s1 == wy_advance(s0, 1) && r == (if wy_u64(s1) > u64::MAX / 2 { 1int } else { 0 }),
        WyCall::U128 => s1 == wy_advance(s0, 2) && r == wy_u128(s0, 1),
        WyCall::Usize => {
            &&& s1 == wy_advance(s0, 1)
            &&& usize::BITS == 32 ==> r == wy_u32(s1)
            &&& usize::BITS == 64 ==> r == wy_u64(s1)
        },
        WyCall::BoundedU8(low, high) => WyRng::drew_bounded(s0, s1, |s: u64| wy_u8(s) as int, (high - low) as int, 0x100, low as int, r),
        WyCall::BoundedU16(low, high) => WyRng::drew_bounded(s0, s1, |s: u64| wy_u16(s) as int, (high - low) as int, 0x1_0000, low as int, r),
        WyCall::BoundedU32(low, high) => WyRng::drew_bounded(s0, s1, |s: u64| wy_u32(s) as int, (high - low) as int, 0x1_0000_0000, low as int, r),
        WyCall::BoundedU64(low, high) => WyRng::drew_bounded(s0, s1, |s: u64| wy_u64(s) as int, (high - low) as int, 0x1_0000_0000_0000_0000, low as int, r),
        WyCall::BoundedU128(low, high) => WyRng::drew_masked_some(s0, s1, high - low, low as int, r),
        WyCall::BoundedUsize(low, high) => WyRng::drew_usize(s0, s1, low as int, high as int, r),
    }
}

/// The calls `calls`, made one after the other, took the generator through the states `states`
/// and gave the values `values`.
pub open spec fn wy_run(calls: Seq<WyCall>, states: Seq<u64>, values: Seq<int>) -> bool {
    &&& states.len() == calls.len() + 1
    &&& values.len() == calls.len()
    &&& forall|i: int| 0 <= i < calls.len() ==> wy_step(#[trigger] calls[i], states[i], states[i + 1], values[i])
}

/// A call from a given state has one outcome: the state after it and the value it gives.
pub proof fn lemma_wy_step_unique(call: WyCall, s0: u64, s1: u64, s2: u64, r1: int, r2: int)
    requires
        wy_step(call, s0, s1, r1),
        wy_step(call, s0, s2, r2),
    ensures
        s1 == s2,
        r1 == r2,
{
    match call {
        WyCall::BoundedU8(low, high) => {
            WyRng::lemma_bounded_unique(s0, s1, s2, |s: u64| wy_u8(s) as int, (high - low) as int, 0x100, low as int, r1, r2);
        },
        WyCall::BoundedU16(low, high) => {
            WyRng::lemma_bounded_unique(s0, s1, s2, |s: u64| wy_u16(s) as int, (high - low) as int, 0x1_0000, low as int, r1, r2);
        },
        WyCall::BoundedU32(low, high) => {
            WyRng::lemma_bounded_unique(s0, s1, s2, |s: u64| wy_u32(s) as int, (high - low) as int, 0x1_0000_0000, low as int, r1, r2);
        },
        WyCall::BoundedU64(low, high) => {
            WyRng::lemma_bounded_unique(s0, s1, s2, |s: u64| wy_u64(s) as int, (high - low) as int, 0x1_0000_0000_0000_0000, low as int, r1, r2);
        },
        WyCall::BoundedU128(low, high) => {
            let k1 = choose|k: nat| #[trigger] WyRng::drew_masked(s0, s1, high - low, low as int, r1, k);
            let k2 = choose|k: nat| #[trigger] WyRng::drew_masked(s0, s2, high - low, low as int, r2, k);
            WyRng::lemma_masked_unique(s0, s1, s2, high - low, low as int, r1, r2, k1, k2);
        },
        WyCall::BoundedUsize(low, high) => {
            if usize::BITS == 32 {
                WyRng::lemma_bounded_unique(s0, s1, s2, |s: u64| wy_u32(s) as int, high - low, 0x1_0000_0000, low as int, r1, r2);
            } else {
                WyRng::lemma_bounded_unique(s0, s1, s2, |s: u64| wy_u64(s) as int, high - low, 0x1_0000_0000_0000_0000, low as int, r1, r2);
            }
        },
        _ => {},
    }
}

/// Two runs of the same calls that start in the same state go through the same states and give
/// the same values, up to call `n`.
proof fn lemma_wy_runs_agree(
    calls: Seq<WyCall>,
    states1: Seq<u64>,
    values1: Seq<int>,
    states2: Seq<u64>,
    values2: Seq<int>,
    n: int,
)
    requires
        wy_run(calls, states1, values1),
        wy_run(calls, states2, values2),
        states1[0] == states2[0],
        0 <= n <= calls.len(),
    ensures
        forall|i: int| 0 <= i <= n ==> #[trigger] states1[i] == states2[i],
        forall|i: int| 0 <= i < n ==> #[trigger] values1[i] == values2[i],
    decreases n,
{
    if n > 0 {
        lemma_wy_runs_agree(calls, states1, values1, states2, values2, n - 1);
        assert(wy_step(calls[n - 1], states1[n - 1], states1[n], values1[n - 1]));
        assert(wy_step(calls[n - 1], states2[n - 1], states2[n], values2[n - 1]));
        lemma_wy_step_unique(calls[n - 1], states1[n - 1], states1[n], states2[n], values1[n - 1], values2[n - 1]);
    }
}

/// The state comes back to where it was after `k` steps exactly when `k` is a multiple of
/// `2^64`: the increment is odd, so the state runs through all `2^64` values before it repeats.
pub proof fn lemma_wy_period(s: u64, k: nat)
    ensures
        wy_advance(s, k) == s <==> k % 0x1_0000_0000_0000_0000 == 0,
{
    reveal(wy_advance);
    let m = 0x1_0000_0000_0000_0000int;
    let inc = WY_INCREMENT as int;
    let inv = 10636502746458383055int;
    let c = 6666984268827920654int;
    assert(inc * inv == 1 + c * m);
    vstd::arithmetic::div_mod::lemma_small_mod(s as nat, m as nat);
    vstd::arithmetic::div_mod::lemma_fundamental_div_mod(k as int, m);
    vstd::arithmetic::div_mod::lemma_mod_pos_bound(k as int, m);
    let q = k as int / m;
    let r = k as int % m;
    // s + k * inc == s + r * inc + m * (q * inc)
    assert(s + k * inc == m * (q * inc) + (s + r * inc)) by (nonlinear_arith)
        requires
            k == m * q + r,
    ;
    vstd::arithmetic::div_mod::lemma_mod_multiples_vanish(q * inc, s + r * inc, m);
    if r == 0 {
        assert(s + r * inc == s);
    } else {
        // If `s + r * inc` were `s` modulo `m`, then `r * inc` would be a multiple of `m`, and so
        // would `r * inc * inv == r + r * c * m`, which `0 < r < m` rules out.
        if (s + r * inc) % m == s as int {
            vstd::arithmetic::div_mod::lemma_fundamental_div_mod(s + r * inc, m);
            let t = (s + r * inc) / m;
            assert(r * inc == m * t);
            assert(r * inc * inv == r + m * (r * c)) by (nonlinear_arith)
                requires
                    inc * inv == 1 + c * m,
            ;
            assert(m * t * inv == m * (t * inv)) by (nonlinear_arith);
            vstd::arithmetic::div_mod::lemma_mod_multiples_vanish(r * c, r, m);
            vstd::arithmetic::div_mod::lemma_mod_multiples_vanish(t * inv, 0, m);
            vstd::arithmetic::div_mod::lemma_small_mod(r as nat, m as nat);
            assert(false);
        }
    }
}

/// Every narrower draw from a state is read off the `u64` that a draw from the same state gives,
/// and advances the state by the same step: a `u32`, `u16` or `u8` is its high 32, 16 or 8 bits
/// (so every value of the type can come out), a `bool` is whether it is above `u64::MAX / 2`, and
/// a `usize` is the `u32` draw on 32-bit targets and the `u64` draw on 64-bit ones.
pub proof fn lemma_wy_draws_from_u64(s0: u64, s1: u64, x: int, call: WyCall, s2: u64, r: int)
    requires
        wy_step(WyCall::U64, s0, s1, x),
        wy_step(call, s0, s2, r),
    ensures
        call is U32 ==> s2 == s1 && r == x / 0x1_0000_0000,
        call is U16 ==> s2 == s1 && r == x / 0x1_0000_0000_0000,
        call is U8 ==> s2 == s1 && r == x / 0x100_0000_0000_0000,
        call is Bool ==> s2 == s1 && r == (if x > u64::MAX / 2 { 1int } else { 0 }),
        call is Usize ==> s2 == s1 && r == (if usize::BITS == 32 { x / 0x1_0000_0000 } else { x }),
{
}

/// A `u128` drawn from a state is made of the two `u64`s that two draws from the same state give,
/// the first as the high half, and leaves the state where they leave it.
pub proof fn lemma_wy_u128_from_u64s(s0: u64, s1: u64, x: int, s2: u64, y: int, s3: u64, r: int)
    requires
        wy_step(WyCall::U64, s0, s1, x),
        wy_step(WyCall::U64, s1, s2, y),
        wy_step(WyCall::U128, s0, s3, r),
    ensures
        s3 == s2,
        r == x * 0x1_0000_0000_0000_0000 + y,
{
    WyRng::lemma_advance_add(s0, 1, 1);
    assert((2 * 1 - 1) as nat == 1nat);
    assert(x == wy_u64(wy_advance(s0, 1)));
    assert(y == wy_u64(wy_advance(s0, 2 * 1)));
    let w = x * 0x1_0000_0000_0000_0000 + y;
    assert(0 <= w < 0x1_0000_0000_0000_0000_0000_0000_0000_0000) by (nonlinear_arith)
        requires
            w == x * 0x1_0000_0000_0000_0000 + y,
            0 <= x < 0x1_0000_0000_0000_0000,
            0 <= y < 0x1_0000_0000_0000_0000,
    ;
}

/// A bounded draw whose first word is accepted is read off the `u64` that a draw from the same
/// state gives, and takes the same single step: the word (the high bits of that `u64` for the
/// narrower types) times the width `high - low` of the range, over the number of words, above
/// `low`. So the draw is spread over the whole range.
pub proof fn lemma_wy_bounded_first_word(s0: u64, s1: u64, x: int, call: WyCall, s2: u64, r: int)
    requires
        wy_step(WyCall::U64, s0, s1, x),
        wy_step(call, s0, s2, r),
    ensures
        call matches WyCall::BoundedU8(low, high) ==> (lemire_accepts((x / 0x100_0000_0000_0000), high - low, 0x100) ==> s2 == s1 && r == low + (x / 0x100_0000_0000_0000) * (high - low) / 0x100),
        call matches WyCall::BoundedU16(low, high) ==> (lemire_accepts((x / 0x1_0000_0000_0000), high - low, 0x1_0000) ==> s2 == s1 && r == low + (x / 0x1_0000_0000_0000) * (high - low) / 0x1_0000),
        call matches WyCall::BoundedU32(low, high) ==> (lemire_accepts((x / 0x1_0000_0000), high - low, 0x1_0000_0000) ==> s2 == s1 && r == low + (x / 0x1_0000_0000) * (high - low) / 0x1_0000_0000),
        call matches WyCall::BoundedU64(low, high) ==> (lemire_accepts(x, high - low, 0x1_0000_0000_0000_0000) ==> s2 == s1 && r == low + x * (high - low) / 0x1_0000_0000_0000_0000),
        call matches WyCall::BoundedUsize(low, high) ==> (usize::BITS == 32 && lemire_accepts(x / 0x1_0000_0000, high - low, 0x1_0000_0000) ==> s2 == s1 && r == low + (x / 0x1_0000_0000) * (high - low) / 0x1_0000_0000),
        call matches WyCall::BoundedUsize(low, high) ==> (usize::BITS == 64 && lemire_accepts(x, high - low, 0x1_0000_0000_0000_0000) ==> s2 == s1 && r == low + x * (high - low) / 0x1_0000_0000_0000_0000),
{
    match call {
        WyCall::BoundedU8(low, high) => {
            if lemire_accepts(wy_u8(wy_advance(s0, 1)) as int, high - low, 0x100) {
                WyRng::lemma_bounded_first_accepted(s0, s2, |s: u64| wy_u8(s) as int, high - low, 0x100, low as int, r);
            }
        },
        WyCall::BoundedU16(low, high) => {
            if lemire_accepts(wy_u16(wy_advance(s0, 1)) as int, high - low, 0x1_0000) {
                WyRng::lemma_bounded_first_accepted(s0, s2, |s: u64| wy_u16(s) as int, high - low, 0x1_0000, low as int, r);
            }
        },
        WyCall::BoundedU32(low, high) => {
            if lemire_accepts(wy_u32(wy_advance(s0, 1)) as int, high - low, 0x1_0000_0000) {
                WyRng::lemma_bounded_first_accepted(s0, s2, |s: u64| wy_u32(s) as int, high - low, 0x1_0000_0000, low as int, r);
            }
        },
        WyCall::BoundedU64(low, high) => {
            if lemire_accepts(wy_u64(wy_advance(s0, 1)) as int, high - low, 0x1_0000_0000_0000_0000) {
                WyRng::lemma_bounded_first_accepted(s0, s2, |s: u64| wy_u64(s) as int, high - low, 0x1_0000_0000_0000_0000, low as int, r);
            }
        },
        WyCall::BoundedUsize(low, high) => {
            if usize::BITS == 32 {
                if lemire_accepts(wy_u32(wy_advance(s0, 1)) as int, high - low, 0x1_0000_0000) {
                    WyRng::lemma_bounded_first_accepted(s0, s2, |s: u64| wy_u32(s) as int, high - low, 0x1_0000_0000, low as int, r);
                }
            } else {
                if lemire_accepts(wy_u64(wy_advance(s0, 1)) as int, high - low, 0x1_0000_0000_0000_0000) {
                    WyRng::lemma_bounded_first_accepted(s0, s2, |s: u64| wy_u64(s) as int, high - low, 0x1_0000_0000_0000_0000, low as int, r);
                }
            }
        },
        _ => {},
    }
}

/// A masked `u128` draw whose first masked word is below the width `high - low` of the range takes
/// that word: the `u128` that a draw from the same state gives, masked with the smallest power of
/// two not below the width minus one, above `low`.
pub proof fn lemma_wy_masked_first_word(s0: u64, s1: u64, w: int, call: WyCall, s2: u64, r: int)
    requires
        wy_step(WyCall::U128, s0, s1, w),
        wy_step(call, s0, s2, r),
    ensures
        call matches WyCall::BoundedU128(low, high) ==> ((w as u128 & (next_pow2((high - low) as nat) - 1) as u128)
            < high - low ==> s2 == s1 && r == low + (w as u128 & (next_pow2((high - low) as nat) - 1) as u128)),
{
    match call {
        WyCall::BoundedU128(low, high) => {
            let k = choose|k: nat| #[trigger] WyRng::drew_masked(s0, s2, high - low, low as int, r, k);
            if k > 1 {
                assert((wy_u128(s0, 1) & (next_pow2((high - low) as nat) - 1) as u128) >= high - low);
            }
        },
        _ => {},
    }
}

/// Generators made with the same nonzero seed give the same values for the same sequence of
/// calls: the output depends only on the seed.
pub proof fn lemma_wy_same_seed_same_values(
    seed: u64,
    calls: Seq<WyCall>,
    states1: Seq<u64>,
    values1: Seq<int>,
    states2: Seq<u64>,
    values2: Seq<int>,
)
    requires
        seed != 0,
        wy_run(calls, states1, values1),
        wy_run(calls, states2, values2),
        states1[0] == seed,
        states2[0] == seed,
    ensures
        values1 == values2,
        states1 == states2,
{
    lemma_wy_runs_agree(calls, states1, values1, states2, values2, calls.len() as int);
    assert(values1 =~= values2);
    assert(states1 =~= states2);
}

} // verus!
