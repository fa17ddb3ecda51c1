//! Generators of values of a given type, built on `PCGRng`.
use vstd::prelude::*;
use crate::rand::pcg::{PCGRng, PcgCall, pcg_step_call, pcg_advance, pcg_u8, pcg_u16, pcg_u32, pcg_u64, pcg_u128};

verus! {

/// A type whose values can be generated from a `PCGRng`, freely or in a range.
pub trait Rng: Sized {
    /// The range `[low, high)` is one that `bound_map` accepts.
    spec fn valid_range(low: Self, high: Self) -> bool;

    /// `r` lies in the range `[low, high)` (or is `low` when the range is empty).
    spec fn within(r: Self, low: Self, high: Self) -> bool;

    /// `r` is the value that `map` yields when it takes the generator from state `s0` to `s1`.
    spec fn drawn(s0: u128, s1: u128, r: Self) -> bool;

    /// `r` is the value that `bound_map` yields for the range `[low, high)` when it takes the
    /// generator from state `s0` to `s1`.
    spec fn drawn_between(s0: u128, s1: u128, low: Self, high: Self, r: Self) -> bool;

    /// A draw by `map` from a state has one outcome: the same state after it and the same value.
    proof fn lemma_drawn_unique(s0: u128, s1: u128, s2: u128, r1: Self, r2: Self)
        requires
            Self::drawn(s0, s1, r1),
            Self::drawn(s0, s2, r2),
        ensures
            s1 == s2,
            r1 == r2,
    ;

    /// A draw by `bound_map` in a range from a state has one outcome: the same state after it and
    /// the same value. So generators in the same state that draw in the same range give the same
    /// values, whether bound to the range by `in_range` or drawing with `get_bounded`.
    proof fn lemma_drawn_between_unique(s0: u128, s1: u128, s2: u128, low: Self, high: Self, r1: Self, r2: Self)
        requires
            Self::drawn_between(s0, s1, low, high, r1),
            Self::drawn_between(s0, s2, low, high, r2),
        ensures
            s1 == s2,
            r1 == r2,
    ;

    /// Yields a value from the generator.
    fn map(prng: &mut PCGRng) -> (r: Self)
        ensures
            Self::drawn(old(prng).state(), final(prng).state(), r),
    ;

    /// Yields a value in the range `[low, high)` from the generator.
    fn bound_map(prng: &mut PCGRng, low: Self, high: Self) -> (r: Self)
        requires
            Self::valid_range(low, high),
        ensures
            Self::within(r, low, high),
            Self::drawn_between(old(prng).state(), final(prng).state(), low, high, r),
    ;

    /// Constructs a random number generator that yields values of type `Self`. If `seed` is
    /// `0`, the address of the generator is used as the seed.
    fn rng(seed: u64) -> (r: MappedRng<Self>)
        ensures
            seed != 0 ==> r.prng() == PCGRng::new_state(seed),
            seed == 0 ==> exists|a: u64| r.prng() == PCGRng::new_state(a),
    {
        MappedRng { prng: PCGRng::new(seed), marker: core::marker::PhantomData }
    }
}

/// A generator of values of type `T`.
pub struct MappedRng<T> {
    /// The underlying PRNG.
    prng: PCGRng,
    marker: core::marker::PhantomData<T>,
}

impl<T> MappedRng<T> {
    /// The state of the underlying PRNG.
    pub closed spec fn prng(self) -> u128 {
        self.prng.state()
    }
}

impl<T: Rng> MappedRng<T> {
    /// Binds the values of the generator to the range `[low, high)`.
    pub fn in_range(self, low: T, high: T) -> (r: BoundedRng<T>)
        ensures
            r.low() == low,
            r.high() == high,
            r.prng() == self.prng(),
    {
        BoundedRng { rng: self, low, high }
    }

    /// Gets a value from the sequence.
    pub fn get(&mut self) -> (r: T)
        ensures
            T::drawn(old(self).prng(), final(self).prng(), r),
    {
        T::map(&mut self.prng)
    }

    /// Gets a value from the sequence; there is always one.
    pub fn next(&mut self) -> (r: Option<T>)
        ensures
            r matches Some(x) && T::drawn(old(self).prng(), final(self).prng(), x),
    {
        Some(self.get())
    }

    /// Gets a value in the range `[low, high)`.
    pub fn get_bounded(&mut self, low: T, high: T) -> (r: T)
        requires
            T::valid_range(low, high),
        ensures
            T::within(r, low, high),
            T::drawn_between(old(self).prng(), final(self).prng(), low, high, r),
    {
        T::bound_map(&mut self.prng, low, high)
    }
}

/// A generator of values of type `T` in a range.
pub struct BoundedRng<T> {
    rng: MappedRng<T>,
    low: T,
    high: T,
}

impl<T> BoundedRng<T> {
    /// The lower bound (included).
    pub closed spec fn low(self) -> T {
        self.low
    }

    /// The upper bound (excluded).
    pub closed spec fn high(self) -> T {
        self.high
    }

    /// The state of the underlying PRNG.
    pub closed spec fn prng(self) -> u128 {
        self.rng.prng()
    }
}

impl<T: Rng + Copy> BoundedRng<T> {
    /// Gets a value from the sequence.
    pub fn get(&mut self) -> (r: T)
        requires
            T::valid_range(old(self).low(), old(self).high()),
        ensures
            T::within(r, old(self).low(), old(self).high()),
            T::drawn_between(old(self).prng(), final(self).prng(), old(self).low(), old(self).high(), r),
            final(self).low() == old(self).low(),
            final(self).high() == old(self).high(),
    {
        self.rng.get_bounded(self.low, self.high)
    }

    /// Gets a value from the sequence; there is always one.
    pub fn next(&mut self) -> (r: Option<T>)
        requires
            T::valid_range(old(self).low(), old(self).high()),
        ensures
            r matches Some(x) && T::within(x, old(self).low(), old(self).high()) && T::drawn_between(
                old(self).prng(),
                final(self).prng(),
                old(self).low(),
                old(self).high(),
                x,
            ),
            final(self).low() == old(self).low(),
            final(self).high() == old(self).high(),
    {
        Some(self.get())
    }
}

impl Rng for u8 {
    open spec fn valid_range(low: u8, high: u8) -> bool {
        low <= high
    }

    open spec fn within(r: u8, low: u8, high: u8) -> bool {
        (low < high ==> low <= r < high) && (low == high ==> r == low)
    }

    open spec fn drawn(s0: u128, s1: u128, r: u8) -> bool {
        (s1 == pcg_advance(s0, 1)) && (r == pcg_u8(pcg_advance(s0, 1)))
    }

    open spec fn drawn_between(s0: u128, s1: u128, low: u8, high: u8, r: u8) -> bool {
        (PCGRng::drew_bounded(s0, s1, |s: u128| pcg_u8(s) as int, (high - low) as int, 0x100, low as int, r as int)) && (low < high ==> low <= r < high) && (low == high ==> r == low)
    }

    proof fn lemma_drawn_unique(s0: u128, s1: u128, s2: u128, r1: u8, r2: u8) {
    }

    proof fn lemma_drawn_between_unique(s0: u128, s1: u128, s2: u128, low: u8, high: u8, r1: u8, r2: u8) {
        PCGRng::lemma_bounded_unique(s0, s1, s2, |s: u128| pcg_u8(s) as int, (high - low) as int, 0x100, low as int, r1 as int, r2 as int);
    }

    fn map(prng: &mut PCGRng) -> (r: u8) {
        prng.u8()
    }

    fn bound_map(prng: &mut PCGRng, low: u8, high: u8) -> (r: u8) {
        prng.bounded_u8(low, high)
    }
}

impl Rng for u16 {
    open spec fn valid_range(low: u16, high: u16) -> bool {
        low <= high
    }

    open spec fn within(r: u16, low: u16, high: u16) -> bool {
        (low < high ==> low <= r < high) && (low == high ==> r == low)
    }

    open spec fn drawn(s0: u128, s1: u128, r: u16) -> bool {
        (s1 == pcg_advance(s0, 1)) && (r == pcg_u16(pcg_advance(s0, 1)))
    }

    open spec fn drawn_between(s0: u128, s1: u128, low: u16, high: u16, r: u16) -> bool {
        (PCGRng::drew_bounded(s0, s1, |s: u128| pcg_u16(s) as int, (high - low) as int, 0x1_0000, low as int, r as int)) && (low < high ==> low <= r < high) && (low == high ==> r == low)
    }

    proof fn lemma_drawn_unique(s0: u128, s1: u128, s2: u128, r1: u16, r2: u16) {
    }

    proof fn lemma_drawn_between_unique(s0: u128, s1: u128, s2: u128, low: u16, high: u16, r1: u16, r2: u16) {
        PCGRng::lemma_bounded_unique(s0, s1, s2, |s: u128| pcg_u16(s) as int, (high - low) as int, 0x1_0000, low as int, r1 as int, r2 as int);
    }

    fn map(prng: &mut PCGRng) -> (r: u16) {
        prng.u16()
    }

    fn bound_map(prng: &mut PCGRng, low: u16, high: u16) -> (r: u16) {
        prng.bounded_u16(low, high)
    }
}

impl Rng for u32 {
    open spec fn valid_range(low: u32, high: u32) -> bool {
        low <= high
    }

    open spec fn within(r: u32, low: u32, high: u32) -> bool {
        (low < high ==> low <= r < high) && (low == high ==> r == low)
    }

    open spec fn drawn(s0: u128, s1: u128, r: u32) -> bool {
        (s1 == pcg_advance(s0, 1)) && (r == pcg_u32(pcg_advance(s0, 1)))
    }

    open spec fn drawn_between(s0: u128, s1: u128, low: u32, high: u32, r: u32) -> bool {
        (PCGRng::drew_bounded(s0, s1, |s: u128| pcg_u32(s) as int, (high - low) as int, 0x1_0000_0000, low as int, r as int)) && (low < high ==> low <= r < high) && (low == high ==> r == low)
    }

    proof fn lemma_drawn_unique(s0: u128, s1: u128, s2: u128, r1: u32, r2: u32) {
    }

    proof fn lemma_drawn_between_unique(s0: u128, s1: u128, s2: u128, low: u32, high: u32, r1: u32, r2: u32) {
        PCGRng::lemma_bounded_unique(s0, s1, s2, |s: u128| pcg_u32(s) as int, (high - low) as int, 0x1_0000_0000, low as int, r1 as int, r2 as int);
    }

    fn map(prng: &mut PCGRng) -> (r: u32) {
        prng.u32()
    }

    fn bound_map(prng: &mut PCGRng, low: u32, high: u32) -> (r: u32) {
        prng.bounded_u32(low, high)
    }
}

impl Rng for u64 {
    open spec fn valid_range(low: u64, high: u64) -> bool {
        low <= high
    }

    open spec fn within(r: u64, low: u64, high: u64) -> bool {
        (low < high ==> low <= r < high) && (low == high ==> r == low)
    }

    open spec fn drawn(s0: u128, s1: u128, r: u64) -> bool {
        (s1 == pcg_advance(s0, 1)) && (r == pcg_u64(pcg_advance(s0, 1)))
    }

    open spec fn drawn_between(s0: u128, s1: u128, low: u64, high: u64, r: u64) -> bool {
        (PCGRng::drew_bounded(s0, s1, |s: u128| pcg_u64(s) as int, (high - low) as int, 0x1_0000_0000_0000_0000, low as int, r as int)) && (low < high ==> low <= r < high) && (low == high ==> r == low)
    }

    proof fn lemma_drawn_unique(s0: u128, s1: u128, s2: u128, r1: u64, r2: u64) {
    }

    proof fn lemma_drawn_between_unique(s0: u128, s1: u128, s2: u128, low: u64, high: u64, r1: u64, r2: u64) {
        PCGRng::lemma_bounded_unique(s0, s1, s2, |s: u128| pcg_u64(s) as int, (high - low) as int, 0x1_0000_0000_0000_0000, low as int, r1 as int, r2 as int);
    }

    fn map(prng: &mut PCGRng) -> (r: u64) {
        prng.u64()
    }

    fn bound_map(prng: &mut PCGRng, low: u64, high: u64) -> (r: u64) {
        prng.bounded_u64(low, high)
    }
}

impl Rng for u128 {
    open spec fn valid_range(low: u128, high: u128) -> bool {
        low < high && high - low <= 0x8000_0000_0000_0000_0000_0000_0000_0000
    }

    open spec fn within(r: u128, low: u128, high: u128) -> bool {
        (low < high ==> low <= r < high) && (low == high ==> r == low)
    }

    open spec fn drawn(s0: u128, s1: u128, r: u128) -> bool {
        (s1 == pcg_advance(s0, 2)) && (r == pcg_u128(s0, 1))
    }

    open spec fn drawn_between(s0: u128, s1: u128, low: u128, high: u128, r: u128) -> bool {
        (low <= r < high) && (exists|k: nat| #[trigger] PCGRng::drew_masked(s0, s1, (high - low) as int, low as int, r as int, k))
    }

    proof fn lemma_drawn_unique(s0: u128, s1: u128, s2: u128, r1: u128, r2: u128) {
    }

    proof fn lemma_drawn_between_unique(s0: u128, s1: u128, s2: u128, low: u128, high: u128, r1: u128, r2: u128) {
        let k1 = choose|k: nat| #[trigger] PCGRng::drew_masked(s0, s1, (high - low) as int, low as int, r1 as int, k);
        let k2 = choose|k: nat| #[trigger] PCGRng::drew_masked(s0, s2, (high - low) as int, low as int, r2 as int, k);
        PCGRng::lemma_masked_unique(s0, s1, s2, (high - low) as int, low as int, r1 as int, r2 as int, k1, k2);
    }

    fn map(prng: &mut PCGRng) -> (r: u128) {
        prng.u128()
    }

    fn bound_map(prng: &mut PCGRng, low: u128, high: u128) -> (r: u128) {
        prng.bounded_u128(low, high)
    }
}

impl Rng for usize {
    open spec fn valid_range(low: usize, high: usize) -> bool {
        low <= high
    }

    open spec fn within(r: usize, low: usize, high: usize) -> bool {
        (low < high ==> low <= r < high) && (low == high ==> r == low)
    }

    open spec fn drawn(s0: u128, s1: u128, r: usize) -> bool {
        (s1 == pcg_advance(s0, 1)) && (r == (if usize::BITS == 32 { pcg_u32(s1) as usize } else { pcg_u64(s1) as usize }))
    }

    open spec fn drawn_between(s0: u128, s1: u128, low: usize, high: usize, r: usize) -> bool {
        (low < high ==> low <= r < high) && (low == high ==> r == low) && (usize::BITS == 32 ==> PCGRng::drew_bounded(s0, s1, |s: u128| pcg_u32(s) as int, (high - low) as int, 0x1_0000_0000, low as int, r as int)) && (usize::BITS == 64 ==> PCGRng::drew_bounded(s0, s1, |s: u128| pcg_u64(s) as int, (high - low) as int, 0x1_0000_0000_0000_0000, low as int, r as int))
    }

    proof fn lemma_drawn_unique(s0: u128, s1: u128, s2: u128, r1: usize, r2: usize) {
    }

    proof fn lemma_drawn_between_unique(s0: u128, s1: u128, s2: u128, low: usize, high: usize, r1: usize, r2: usize) {
        if usize::BITS == 32 {
            PCGRng::lemma_bounded_unique(s0, s1, s2, |s: u128| pcg_u32(s) as int, (high - low) as int, 0x1_0000_0000, low as int, r1 as int, r2 as int);
        } else {
            PCGRng::lemma_bounded_unique(s0, s1, s2, |s: u128| pcg_u64(s) as int, (high - low) as int, 0x1_0000_0000_0000_0000, low as int, r1 as int, r2 as int);
        }
    }

    fn map(prng: &mut PCGRng) -> (r: usize) {
        prng.usize()
    }

    fn bound_map(prng: &mut PCGRng, low: usize, high: usize) -> (r: usize) {
        prng.bounded_usize(low, high)
    }
}

impl Rng for i8 {
    open spec fn valid_range(low: i8, high: i8) -> bool {
        low <= high
    }

    open spec fn within(r: i8, low: i8, high: i8) -> bool {
        (low < high ==> low <= r < high) && (low == high ==> r == low)
    }

    open spec fn drawn(s0: u128, s1: u128, r: i8) -> bool {
        (s1 == pcg_advance(s0, 1)) && (r == pcg_u8(s1) as i8)
    }

    open spec fn drawn_between(s0: u128, s1: u128, low: i8, high: i8, r: i8) -> bool {
        (PCGRng::drew_bounded(s0, s1, |s: u128| pcg_u8(s) as int, high - low, 0x100, 0, r - low)) && (low < high ==> low <= r < high) && (low == high ==> r == low)
    }

    proof fn lemma_drawn_unique(s0: u128, s1: u128, s2: u128, r1: i8, r2: i8) {
    }

    proof fn lemma_drawn_between_unique(s0: u128, s1: u128, s2: u128, low: i8, high: i8, r1: i8, r2: i8) {
        PCGRng::lemma_bounded_unique(s0, s1, s2, |s: u128| pcg_u8(s) as int, high - low, 0x100, 0, r1 - low, r2 - low);
    }

    fn map(prng: &mut PCGRng) -> (r: i8) {
        prng.i8()
    }

    fn bound_map(prng: &mut PCGRng, low: i8, high: i8) -> (r: i8) {
        prng.bounded_i8(low, high)
    }
}

impl Rng for i16 {
    open spec fn valid_range(low: i16, high: i16) -> bool {
        low <= high
    }

    open spec fn within(r: i16, low: i16, high: i16) -> bool {
        (low < high ==> low <= r < high) && (low == high ==> r == low)
    }

    open spec fn drawn(s0: u128, s1: u128, r: i16) -> bool {
        (s1 == pcg_advance(s0, 1)) && (r == pcg_u16(s1) as i16)
    }

    open spec fn drawn_between(s0: u128, s1: u128, low: i16, high: i16, r: i16) -> bool {
        (PCGRng::drew_bounded(s0, s1, |s: u128| pcg_u16(s) as int, high - low, 0x1_0000, 0, r - low)) && (low < high ==> low <= r < high) && (low == high ==> r == low)
    }

    proof fn lemma_drawn_unique(s0: u128, s1: u128, s2: u128, r1: i16, r2: i16) {
    }

    proof fn lemma_drawn_between_unique(s0: u128, s1: u128, s2: u128, low: i16, high: i16, r1: i16, r2: i16) {
        PCGRng::lemma_bounded_unique(s0, s1, s2, |s: u128| pcg_u16(s) as int, high - low, 0x1_0000, 0, r1 - low, r2 - low);
    }

    fn map(prng: &mut PCGRng) -> (r: i16) {
        prng.i16()
    }

    fn bound_map(prng: &mut PCGRng, low: i16, high: i16) -> (r: i16) {
        prng.bounded_i16(low, high)
    }
}

impl Rng for i32 {
    open spec fn valid_range(low: i32, high: i32) -> bool {
        low <= high
    }

    open spec fn within(r: i32, low: i32, high: i32) -> bool {
        (low < high ==> low <= r < high) && (low == high ==> r == low)
    }

    open spec fn drawn(s0: u128, s1: u128, r: i32) -> bool {
        (s1 == pcg_advance(s0, 1)) && (r == pcg_u32(s1) as i32)
    }

    open spec fn drawn_between(s0: u128, s1: u128, low: i32, high: i32, r: i32) -> bool {
        (PCGRng::drew_bounded(s0, s1, |s: u128| pcg_u32(s) as int, high - low, 0x1_0000_0000, 0, r - low)) && (low < high ==> low <= r < high) && (low == high ==> r == low)
    }

    proof fn lemma_drawn_unique(s0: u128, s1: u128, s2: u128, r1: i32, r2: i32) {
    }

    proof fn lemma_drawn_between_unique(s0: u128, s1: u128, s2: u128, low: i32, high: i32, r1: i32, r2: i32) {
        PCGRng::lemma_bounded_unique(s0, s1, s2, |s: u128| pcg_u32(s) as int, high - low, 0x1_0000_0000, 0, r1 - low, r2 - low);
    }

    fn map(prng: &mut PCGRng) -> (r: i32) {
        prng.i32()
    }

    fn bound_map(prng: &mut PCGRng, low: i32, high: i32) -> (r: i32) {
        prng.bounded_i32(low, high)
    }
}

impl Rng for i64 {
    open spec fn valid_range(low: i64, high: i64) -> bool {
        low <= high
    }

    open spec fn within(r: i64, low: i64, high: i64) -> bool {
        (low < high ==> low <= r < high) && (low == high ==> r == low)
    }

    open spec fn drawn(s0: u128, s1: u128, r: i64) -> bool {
        (s1 == pcg_advance(s0, 1)) && (r == pcg_u64(s1) as i64)
    }

    open spec fn drawn_between(s0: u128, s1: u128, low: i64, high: i64, r: i64) -> bool {
        (PCGRng::drew_bounded(s0, s1, |s: u128| pcg_u64(s) as int, high - low, 0x1_0000_0000_0000_0000, 0, r - low)) && (low < high ==> low <= r < high) && (low == high ==> r == low)
    }

    proof fn lemma_drawn_unique(s0: u128, s1: u128, s2: u128, r1: i64, r2: i64) {
    }

    proof fn lemma_drawn_between_unique(s0: u128, s1: u128, s2: u128, low: i64, high: i64, r1: i64, r2: i64) {
        PCGRng::lemma_bounded_unique(s0, s1, s2, |s: u128| pcg_u64(s) as int, high - low, 0x1_0000_0000_0000_0000, 0, r1 - low, r2 - low);
    }

    fn map(prng: &mut PCGRng) -> (r: i64) {
        prng.i64()
    }

    fn bound_map(prng: &mut PCGRng, low: i64, high: i64) -> (r: i64) {
        prng.bounded_i64(low, high)
    }
}

impl Rng for i128 {
    open spec fn valid_range(low: i128, high: i128) -> bool {
        low < high && high - low <= 0x8000_0000_0000_0000_0000_0000_0000_0000
    }

    open spec fn within(r: i128, low: i128, high: i128) -> bool {
        (low < high ==> low <= r < high) && (low == high ==> r == low)
    }

    open spec fn drawn(s0: u128, s1: u128, r: i128) -> bool {
        (s1 == pcg_advance(s0, 2)) && (r == pcg_u128(s0, 1) as i128)
    }

    open spec fn drawn_between(s0: u128, s1: u128, low: i128, high: i128, r: i128) -> bool {
        (low <= r < high) && (exists|k: nat| #[trigger] PCGRng::drew_masked(s0, s1, high - low, 0, r - low, k))
    }

    proof fn lemma_drawn_unique(s0: u128, s1: u128, s2: u128, r1: i128, r2: i128) {
    }

    proof fn lemma_drawn_between_unique(s0: u128, s1: u128, s2: u128, low: i128, high: i128, r1: i128, r2: i128) {
        let k1 = choose|k: nat| #[trigger] PCGRng::drew_masked(s0, s1, high - low, 0, r1 - low, k);
        let k2 = choose|k: nat| #[trigger] PCGRng::drew_masked(s0, s2, high - low, 0, r2 - low, k);
        PCGRng::lemma_masked_unique(s0, s1, s2, high - low, 0, r1 - low, r2 - low, k1, k2);
    }

    fn map(prng: &mut PCGRng) -> (r: i128) {
        prng.i128()
    }

    fn bound_map(prng: &mut PCGRng, low: i128, high: i128) -> (r: i128) {
        prng.bounded_i128(low, high)
    }
}

impl Rng for isize {
    open spec fn valid_range(low: isize, high: isize) -> bool {
        low <= high
    }

    open spec fn within(r: isize, low: isize, high: isize) -> bool {
        (low < high ==> low <= r < high) && (low == high ==> r == low)
    }

    open spec fn drawn(s0: u128, s1: u128, r: isize) -> bool {
        (s1 == pcg_advance(s0, 1)) && (r == (if usize::BITS == 32 { pcg_u32(s1) as isize } else { pcg_u64(s1) as isize }))
    }

    open spec fn drawn_between(s0: u128, s1: u128, low: isize, high: isize, r: isize) -> bool {
        (low < high ==> low <= r < high) && (low == high ==> r == low) && (usize::BITS == 32 ==> PCGRng::drew_bounded(s0, s1, |s: u128| pcg_u32(s) as int, high - low, 0x1_0000_0000, 0, r - low)) && (usize::BITS == 64 ==> PCGRng::drew_bounded(s0, s1, |s: u128| pcg_u64(s) as int, high - low, 0x1_0000_0000_0000_0000, 0, r - low))
    }

    proof fn lemma_drawn_unique(s0: u128, s1: u128, s2: u128, r1: isize, r2: isize) {
    }

    proof fn lemma_drawn_between_unique(s0: u128, s1: u128, s2: u128, low: isize, high: isize, r1: isize, r2: isize) {
        if usize::BITS == 32 {
            PCGRng::lemma_bounded_unique(s0, s1, s2, |s: u128| pcg_u32(s) as int, high - low, 0x1_0000_0000, 0, r1 - low, r2 - low);
        } else {
            PCGRng::lemma_bounded_unique(s0, s1, s2, |s: u128| pcg_u64(s) as int, high - low, 0x1_0000_0000_0000_0000, 0, r1 - low, r2 - low);
        }
    }

    fn map(prng: &mut PCGRng) -> (r: isize) {
        prng.isize()
    }

    fn bound_map(prng: &mut PCGRng, low: isize, high: isize) -> (r: isize) {
        prng.bounded_isize(low, high)
    }
}

} // verus!

verus! {

/// The states `states` lead from `s0` to `s1`, and `map` drew the `i`-th element of `r` from
/// `states[i]` to `states[i + 1]`.
pub open spec fn drawn_each<T: Rng, const D: usize>(states: Seq<u128>, s0: u128, s1: u128, r: [T; D]) -> bool {
    &&& states.len() == D + 1
    &&& states[0] == s0
    &&& states[D as int] == s1
    &&& forall|i: int| 0 <= i < D ==> T::drawn(states[i], states[i + 1], #[trigger] r@[i])
}

/// The states `states` lead from `s0` to `s1`, and `bound_map` drew the `i`-th element of `r` in
/// the range `[low[i], high[i])` from `states[i]` to `states[i + 1]`.
pub open spec fn drawn_each_between<T: Rng, const D: usize>(
    states: Seq<u128>,
    s0: u128,
    s1: u128,
    low: [T; D],
    high: [T; D],
    r: [T; D],
) -> bool {
    &&& states.len() == D + 1
    &&& states[0] == s0
    &&& states[D as int] == s1
    &&& forall|i: int| 0 <= i < D ==> T::drawn_between(states[i], states[i + 1], low@[i], high@[i], #[trigger] r@[i])
}

/// Two draws of an array element by element from the same state agree on the states and on the
/// first `n` elements.
proof fn lemma_each_agree<T: Rng, const D: usize>(
    states1: Seq<u128>,
    states2: Seq<u128>,
    s0: u128,
    s1: u128,
    s2: u128,
    r1: [T; D],
    r2: [T; D],
    n: int,
)
    requires
        drawn_each(states1, s0, s1, r1),
        drawn_each(states2, s0, s2, r2),
        0 <= n <= D,
    ensures
        forall|i: int| 0 <= i <= n ==> #[trigger] states1[i] == states2[i],
        forall|i: int| 0 <= i < n ==> #[trigger] r1@[i] == r2@[i],
    decreases n,
{
    if n > 0 {
        lemma_each_agree(states1, states2, s0, s1, s2, r1, r2, n - 1);
        assert(T::drawn(states1[n - 1], states1[n], r1@[n - 1]));
        assert(T::drawn(states2[n - 1], states2[n], r2@[n - 1]));
        T::lemma_drawn_unique(states1[n - 1], states1[n], states2[n], r1@[n - 1], r2@[n - 1]);
    }
}

/// Two bounded draws of an array element by element from the same state, in the same ranges,
/// agree on the states and on the first `n` elements.
proof fn lemma_each_between_agree<T: Rng, const D: usize>(
    states1: Seq<u128>,
    states2: Seq<u128>,
    s0: u128,
    s1: u128,
    s2: u128,
    low: [T; D],
    high: [T; D],
    r1: [T; D],
    r2: [T; D],
    n: int,
)
    requires
        drawn_each_between(states1, s0, s1, low, high, r1),
        drawn_each_between(states2, s0, s2, low, high, r2),
        0 <= n <= D,
    ensures
        forall|i: int| 0 <= i <= n ==> #[trigger] states1[i] == states2[i],
        forall|i: int| 0 <= i < n ==> #[trigger] r1@[i] == r2@[i],
    decreases n,
{
    if n > 0 {
        lemma_each_between_agree(states1, states2, s0, s1, s2, low, high, r1, r2, n - 1);
        assert(T::drawn_between(states1[n - 1], states1[n], low@[n - 1], high@[n - 1], r1@[n - 1]));
        assert(T::drawn_between(states2[n - 1], states2[n], low@[n - 1], high@[n - 1], r2@[n - 1]));
        T::lemma_drawn_between_unique(states1[n - 1], states1[n], states2[n], low@[n - 1], high@[n - 1], r1@[n - 1], r2@[n - 1]);
    }
}

/// Arrays are drawn element by element, from the first to the last.
impl<T: Rng + Copy, const D: usize> Rng for [T; D] {
    open spec fn valid_range(low: [T; D], high: [T; D]) -> bool {
        forall|i: int| 0 <= i < D ==> T::valid_range(#[trigger] low@[i], high@[i])
    }

    open spec fn within(r: [T; D], low: [T; D], high: [T; D]) -> bool {
        forall|i: int| 0 <= i < D ==> T::within(#[trigger] r@[i], low@[i], high@[i])
    }

    open spec fn drawn(s0: u128, s1: u128, r: [T; D]) -> bool {
        exists|states: Seq<u128>| #[trigger] drawn_each(states, s0, s1, r)
    }

    open spec fn drawn_between(s0: u128, s1: u128, low: [T; D], high: [T; D], r: [T; D]) -> bool {
        exists|states: Seq<u128>| #[trigger] drawn_each_between(states, s0, s1, low, high, r)
    }

    proof fn lemma_drawn_unique(s0: u128, s1: u128, s2: u128, r1: [T; D], r2: [T; D]) {
        let states1 = choose|states: Seq<u128>| #[trigger] drawn_each(states, s0, s1, r1);
        let states2 = choose|states: Seq<u128>| #[trigger] drawn_each(states, s0, s2, r2);
        lemma_each_agree(states1, states2, s0, s1, s2, r1, r2, D as int);
        assert(states1[D as int] == states2[D as int]);
        assert(r1 =~= r2);
    }

    proof fn lemma_drawn_between_unique(s0: u128, s1: u128, s2: u128, low: [T; D], high: [T; D], r1: [T; D], r2: [T; D]) {
        let states1 = choose|states: Seq<u128>| #[trigger] drawn_each_between(states, s0, s1, low, high, r1);
        let states2 = choose|states: Seq<u128>| #[trigger] drawn_each_between(states, s0, s2, low, high, r2);
        lemma_each_between_agree(states1, states2, s0, s1, s2, low, high, r1, r2, D as int);
        assert(states1[D as int] == states2[D as int]);
        assert(r1 =~= r2);
    }

    fn map(prng: &mut PCGRng) -> (r: [T; D]) {
        let ghost s0 = prng.state();
        if D == 0 {
            // An empty array draws nothing; the value to build it with comes from a generator of
            // its own.
            let filler = T::map(&mut PCGRng::new(1));
            let r = [filler; D];
            proof {
                assert(drawn_each(seq![s0], s0, s0, r));
            }
            return r;
        }
        let first = T::map(prng);
        let mut out = [first; D];
        let ghost mut states: Seq<u128> = seq![s0, prng.state()];
        let mut i: usize = 1;
        while i < D
            invariant
                1 <= i <= D,
                states.len() == i + 1,
                states[0] == s0,
                states[i as int] == prng.state(),
                forall|j: int| 0 <= j < i ==> T::drawn(states[j], states[j + 1], #[trigger] out@[j]),
            decreases D - i,
        {
            let ghost before = out;
            let x = T::map(prng);
            out[i] = x;
            proof {
                let states2 = states.push(prng.state());
                assert forall|j: int| 0 <= j < i + 1 implies T::drawn(states2[j], states2[j + 1], #[trigger] out@[j]) by {
                    if j < i {
                        assert(out@[j] == before@[j]);
                    }
                }
                states = states2;
            }
            i = i + 1;
        }
        proof {
            assert(drawn_each(states, s0, prng.state(), out));
        }
        out
    }

    fn bound_map(prng: &mut PCGRng, low: [T; D], high: [T; D]) -> (r: [T; D]) {
        let ghost s0 = prng.state();
        let mut out = low;
        let ghost mut states: Seq<u128> = seq![s0];
        let mut i: usize = 0;
        while i < D
            invariant
                i <= D,
                Self::valid_range(low, high),
                states.len() == i + 1,
                states[0] == s0,
                states[i as int] == prng.state(),
                forall|j: int| 0 <= j < i ==> T::within(#[trigger] out@[j], low@[j], high@[j]),
                forall|j: int| 0 <= j < i ==> T::drawn_between(states[j], states[j + 1], low@[j], high@[j], #[trigger] out@[j]),
            decreases D - i,
        {
            let ghost before = out;
            assert(T::valid_range(low@[i as int], high@[i as int]));
            let x = T::bound_map(prng, low[i], high[i]);
            out[i] = x;
            proof {
                let states2 = states.push(prng.state());
                assert forall|j: int| 0 <= j < i + 1 implies T::drawn_between(states2[j], states2[j + 1], low@[j], high@[j], #[trigger] out@[j]) && T::within(out@[j], low@[j], high@[j]) by {
                    if j < i {
                        assert(out@[j] == before@[j]);
                    }
                }
                states = states2;
            }
            i = i + 1;
        }
        proof {
            assert(drawn_each_between(states, s0, prng.state(), low, high, out));
        }
        out
    }
}

} // verus!

verus! {

/// A `u8` drawn through `Rng` is the draw that `PCGRng` makes from the same state: `map` is
/// `PCGRng::u8`, and `bound_map` is `PCGRng::bounded_u8` over the whole range `[low, high)`.
pub proof fn lemma_u8_draws_are_pcg_draws(s0: u128, s1: u128, low: u8, high: u8, r: u8)
    ensures
        <u8 as Rng>::drawn(s0, s1, r) ==> pcg_step_call(PcgCall::U8, s0, s1, r as int),
        <u8 as Rng>::drawn_between(s0, s1, low, high, r) ==> pcg_step_call(PcgCall::BoundedU8(low, high), s0, s1, r as int),
{
}

/// A `u16` drawn through `Rng` is the draw that `PCGRng` makes from the same state: `map` is
/// `PCGRng::u16`, and `bound_map` is `PCGRng::bounded_u16` over the whole range `[low, high)`.
pub proof fn lemma_u16_draws_are_pcg_draws(s0: u128, s1: u128, low: u16, high: u16, r: u16)
    ensures
        <u16 as Rng>::drawn(s0, s1, r) ==> pcg_step_call(PcgCall::U16, s0, s1, r as int),
        <u16 as Rng>::drawn_between(s0, s1, low, high, r) ==> pcg_step_call(PcgCall::BoundedU16(low, high), s0, s1, r as int),
{
}

/// A `u32` drawn through `Rng` is the draw that `PCGRng` makes from the same state: `map` is
/// `PCGRng::u32`, and `bound_map` is `PCGRng::bounded_u32` over the whole range `[low, high)`.
pub proof fn lemma_u32_draws_are_pcg_draws(s0: u128, s1: u128, low: u32, high: u32, r: u32)
    ensures
        <u32 as Rng>::drawn(s0, s1, r) ==> pcg_step_call(PcgCall::U32, s0, s1, r as int),
        <u32 as Rng>::drawn_between(s0, s1, low, high, r) ==> pcg_step_call(PcgCall::BoundedU32(low, high), s0, s1, r as int),
{
}

/// A `u64` drawn through `Rng` is the draw that `PCGRng` makes from the same state: `map` is
/// `PCGRng::u64`, and `bound_map` is `PCGRng::bounded_u64` over the whole range `[low, high)`.
pub proof fn lemma_u64_draws_are_pcg_draws(s0: u128, s1: u128, low: u64, high: u64, r: u64)
    ensures
        <u64 as Rng>::drawn(s0, s1, r) ==> pcg_step_call(PcgCall::U64, s0, s1, r as int),
        <u64 as Rng>::drawn_between(s0, s1, low, high, r) ==> pcg_step_call(PcgCall::BoundedU64(low, high), s0, s1, r as int),
{
}

/// A `u128` drawn through `Rng` is the draw that `PCGRng` makes from the same state: `map` is
/// `PCGRng::u128`, and `bound_map` is `PCGRng::bounded_u128` over the whole range `[low, high)`.
pub proof fn lemma_u128_draws_are_pcg_draws(s0: u128, s1: u128, low: u128, high: u128, r: u128)
    ensures
        <u128 as Rng>::drawn(s0, s1, r) ==> pcg_step_call(PcgCall::U128, s0, s1, r as int),
        <u128 as Rng>::drawn_between(s0, s1, low, high, r) ==> pcg_step_call(PcgCall::BoundedU128(low, high), s0, s1, r as int),
{
}

/// A `usize` drawn through `Rng` is the draw that `PCGRng` makes from the same state: `map` is
/// `PCGRng::usize`, and `bound_map` is `PCGRng::bounded_usize` over the whole range `[low, high)`.
pub proof fn lemma_usize_draws_are_pcg_draws(s0: u128, s1: u128, low: usize, high: usize, r: usize)
    ensures
        <usize as Rng>::drawn(s0, s1, r) ==> pcg_step_call(PcgCall::Usize, s0, s1, r as int),
        <usize as Rng>::drawn_between(s0, s1, low, high, r) ==> pcg_step_call(PcgCall::BoundedUsize(low, high), s0, s1, r as int),
{
}

/// A `i8` drawn through `Rng` is the draw that `PCGRng` makes from the same state: `map` is
/// `PCGRng::i8`, and `bound_map` is `PCGRng::bounded_i8` over the whole range `[low, high)`.
pub proof fn lemma_i8_draws_are_pcg_draws(s0: u128, s1: u128, low: i8, high: i8, r: i8)
    ensures
        <i8 as Rng>::drawn(s0, s1, r) ==> pcg_step_call(PcgCall::I8, s0, s1, r as int),
        <i8 as Rng>::drawn_between(s0, s1, low, high, r) ==> pcg_step_call(PcgCall::BoundedI8(low, high), s0, s1, r as int),
{
}

/// A `i16` drawn through `Rng` is the draw that `PCGRng` makes from the same state: `map` is
/// `PCGRng::i16`, and `bound_map` is `PCGRng::bounded_i16` over the whole range `[low, high)`.
pub proof fn lemma_i16_draws_are_pcg_draws(s0: u128, s1: u128, low: i16, high: i16, r: i16)
    ensures
        <i16 as Rng>::drawn(s0, s1, r) ==> pcg_step_call(PcgCall::I16, s0, s1, r as int),
        <i16 as Rng>::drawn_between(s0, s1, low, high, r) ==> pcg_step_call(PcgCall::BoundedI16(low, high), s0, s1, r as int),
{
}

/// A `i32` drawn through `Rng` is the draw that `PCGRng` makes from the same state: `map` is
/// `PCGRng::i32`, and `bound_map` is `PCGRng::bounded_i32` over the whole range `[low, high)`.
pub proof fn lemma_i32_draws_are_pcg_draws(s0: u128, s1: u128, low: i32, high: i32, r: i32)
    ensures
        <i32 as Rng>::drawn(s0, s1, r) ==> pcg_step_call(PcgCall::I32, s0, s1, r as int),
        <i32 as Rng>::drawn_between(s0, s1, low, high, r) ==> pcg_step_call(PcgCall::BoundedI32(low, high), s0, s1, r as int),
{
}

/// A `i64` drawn through `Rng` is the draw that `PCGRng` makes from the same state: `map` is
/// `PCGRng::i64`, and `bound_map` is `PCGRng::bounded_i64` over the whole range `[low, high)`.
pub proof fn lemma_i64_draws_are_pcg_draws(s0: u128, s1: u128, low: i64, high: i64, r: i64)
    ensures
        <i64 as Rng>::drawn(s0, s1, r) ==> pcg_step_call(PcgCall::I64, s0, s1, r as int),
        <i64 as Rng>::drawn_between(s0, s1, low, high, r) ==> pcg_step_call(PcgCall::BoundedI64(low, high), s0, s1, r as int),
{
}

/// A `i128` drawn through `Rng` is the draw that `PCGRng` makes from the same state: `map` is
/// `PCGRng::i128`, and `bound_map` is `PCGRng::bounded_i128` over the whole range `[low, high)`.
pub proof fn lemma_i128_draws_are_pcg_draws(s0: u128, s1: u128, low: i128, high: i128, r: i128)
    ensures
        <i128 as Rng>::drawn(s0, s1, r) ==> pcg_step_call(PcgCall::I128, s0, s1, r as int),
        <i128 as Rng>::drawn_between(s0, s1, low, high, r) ==> pcg_step_call(PcgCall::BoundedI128(low, high), s0, s1, r as int),
{
}

/// A `isize` drawn through `Rng` is the draw that `PCGRng` makes from the same state: `map` is
/// `PCGRng::isize`, and `bound_map` is `PCGRng::bounded_isize` over the whole range `[low, high)`.
pub proof fn lemma_isize_draws_are_pcg_draws(s0: u128, s1: u128, low: isize, high: isize, r: isize)
    ensures
        <isize as Rng>::drawn(s0, s1, r) ==> pcg_step_call(PcgCall::Isize, s0, s1, r as int),
        <isize as Rng>::drawn_between(s0, s1, low, high, r) ==> pcg_step_call(PcgCall::BoundedIsize(low, high), s0, s1, r as int),
{
}

} // verus!
