//! The 0-1 principle for comparator networks.
//!
//! Fix a strict weak order `less` and a threshold `t`. Mapping every element `x` of a window of a
//! sequence to the bit `t <= x` gives a word of bits. A compare-exchange of two elements acts on
//! that word as the compare-exchange `cx` of two bits. So a network that sorts every word of bits
//! sorts every sequence: this is checked for each network by the bit-vector solver.
use vstd::prelude::*;
use crate::order::{orders, strict_weak_order, known_le};
use crate::perm::swapped;

verus! {

/// Compare-exchange of bits `a < b` of `x`: bit `a` gets the smaller, bit `b` the larger bit.
pub open spec fn cx(x: u32, a: u32, b: u32) -> u32 {
    (x & !((1u32 << a) | (1u32 << b))) | ((((x >> a) & (x >> b)) & 1u32) << a) | ((((x >> a) | (x
        >> b)) & 1u32) << b)
}

/// The low `n` bits of `x` are sorted: no set bit is followed by a clear bit.
pub open spec fn sorted_bits(x: u32, n: u32) -> bool {
    (x & !(x >> 1u32)) & ((1u32 << (n - 1u32) as u32) - 1u32) as u32 == 0u32
}

/// The word whose bit `k < n` is set when `t <= s[lo + k * stride]` under `less`.
pub open spec fn thr<T>(s: Seq<T>, lo: int, stride: int, t: T, less: spec_fn(T, T) -> bool, n: nat) -> u32
    decreases n,
{
    if n == 0 {
        0u32
    } else {
        thr(s, lo, stride, t, less, (n - 1) as nat) | (if !less(s[lo + (n - 1) * stride], t) {
            1u32 << ((n - 1) as u32)
        } else {
            0u32
        })
    }
}

proof fn lemma_or_bit(x: u32, m: u32, k: u32)
    by (bit_vector)
    requires
        m < 32,
        k < 32,
    ensures
        ((x | (1u32 << m)) >> k) & 1u32 == (if k == m {
            1u32
        } else {
            (x >> k) & 1u32
        }),
{
}

proof fn lemma_bit_range(x: u32, k: u32)
    by (bit_vector)
    ensures
        (x >> k) & 1u32 == 0u32 || (x >> k) & 1u32 == 1u32,
{
}

proof fn lemma_zero_bits(k: u32)
    by (bit_vector)
    ensures
        (0u32 >> k) & 1u32 == 0u32,
{
}

/// Bit `k` of `thr(s, lo, stride, t, less, n)`.
pub proof fn lemma_thr_bit<T>(s: Seq<T>, lo: int, stride: int, t: T, less: spec_fn(T, T) -> bool, n: nat, k: u32)
    requires
        n <= 32,
        k < 32,
    ensures
        ((thr(s, lo, stride, t, less, n) >> k) & 1u32 == 1u32) <==> (k < n && !less(s[lo + k * stride], t)),
    decreases n,
{
    if n == 0 {
        lemma_zero_bits(k);
    } else {
        let m = (n - 1) as u32;
        let x = thr(s, lo, stride, t, less, (n - 1) as nat);
        lemma_thr_bit(s, lo, stride, t, less, (n - 1) as nat, k);
        if !less(s[lo + (n - 1) * stride], t) {
            lemma_or_bit(x, m, k);
        } else {
            assert(x | 0u32 == x) by (bit_vector);
        }
    }
}

proof fn lemma_cx_bits(x: u32, a: u32, b: u32, k: u32)
    by (bit_vector)
    requires
        a < b < 32,
        k < 32,
    ensures
        (cx(x, a, b) >> k) & 1u32 == (if k == a {
            ((x >> a) & (x >> b)) & 1u32
        } else if k == b {
            ((x >> a) | (x >> b)) & 1u32
        } else {
            (x >> k) & 1u32
        }),
{
}

/// Two words with the same bits are equal.
proof fn lemma_u32_ext(x: u32, y: u32)
    by (bit_vector)
    requires
        (x >> 0u32) & 1 == (y >> 0u32) & 1,
        (x >> 1u32) & 1 == (y >> 1u32) & 1,
        (x >> 2u32) & 1 == (y >> 2u32) & 1,
        (x >> 3u32) & 1 == (y >> 3u32) & 1,
        (x >> 4u32) & 1 == (y >> 4u32) & 1,
        (x >> 5u32) & 1 == (y >> 5u32) & 1,
        (x >> 6u32) & 1 == (y >> 6u32) & 1,
        (x >> 7u32) & 1 == (y >> 7u32) & 1,
        (x >> 8u32) & 1 == (y >> 8u32) & 1,
        (x >> 9u32) & 1 == (y >> 9u32) & 1,
        (x >> 10u32) & 1 == (y >> 10u32) & 1,
        (x >> 11u32) & 1 == (y >> 11u32) & 1,
        (x >> 12u32) & 1 == (y >> 12u32) & 1,
        (x >> 13u32) & 1 == (y >> 13u32) & 1,
        (x >> 14u32) & 1 == (y >> 14u32) & 1,
        (x >> 15u32) & 1 == (y >> 15u32) & 1,
        (x >> 16u32) & 1 == (y >> 16u32) & 1,
        (x >> 17u32) & 1 == (y >> 17u32) & 1,
        (x >> 18u32) & 1 == (y >> 18u32) & 1,
        (x >> 19u32) & 1 == (y >> 19u32) & 1,
        (x >> 20u32) & 1 == (y >> 20u32) & 1,
        (x >> 21u32) & 1 == (y >> 21u32) & 1,
        (x >> 22u32) & 1 == (y >> 22u32) & 1,
        (x >> 23u32) & 1 == (y >> 23u32) & 1,
        (x >> 24u32) & 1 == (y >> 24u32) & 1,
        (x >> 25u32) & 1 == (y >> 25u32) & 1,
        (x >> 26u32) & 1 == (y >> 26u32) & 1,
        (x >> 27u32) & 1 == (y >> 27u32) & 1,
        (x >> 28u32) & 1 == (y >> 28u32) & 1,
        (x >> 29u32) & 1 == (y >> 29u32) & 1,
        (x >> 30u32) & 1 == (y >> 30u32) & 1,
        (x >> 31u32) & 1 == (y >> 31u32) & 1,
    ensures
        x == y,
{
}

/// Two words are equal when all their bits are.
proof fn lemma_u32_ext_forall(x: u32, y: u32)
    requires
        forall|k: u32| k < 32 ==> (#[trigger] (x >> k) & 1u32) == (y >> k) & 1u32,
    ensures
        x == y,
{
    assert((x >> 0u32) & 1u32 == (y >> 0u32) & 1u32);
    assert((x >> 1u32) & 1u32 == (y >> 1u32) & 1u32);
    assert((x >> 2u32) & 1u32 == (y >> 2u32) & 1u32);
    assert((x >> 3u32) & 1u32 == (y >> 3u32) & 1u32);
    assert((x >> 4u32) & 1u32 == (y >> 4u32) & 1u32);
    assert((x >> 5u32) & 1u32 == (y >> 5u32) & 1u32);
    assert((x >> 6u32) & 1u32 == (y >> 6u32) & 1u32);
    assert((x >> 7u32) & 1u32 == (y >> 7u32) & 1u32);
    assert((x >> 8u32) & 1u32 == (y >> 8u32) & 1u32);
    assert((x >> 9u32) & 1u32 == (y >> 9u32) & 1u32);
    assert((x >> 10u32) & 1u32 == (y >> 10u32) & 1u32);
    assert((x >> 11u32) & 1u32 == (y >> 11u32) & 1u32);
    assert((x >> 12u32) & 1u32 == (y >> 12u32) & 1u32);
    assert((x >> 13u32) & 1u32 == (y >> 13u32) & 1u32);
    assert((x >> 14u32) & 1u32 == (y >> 14u32) & 1u32);
    assert((x >> 15u32) & 1u32 == (y >> 15u32) & 1u32);
    assert((x >> 16u32) & 1u32 == (y >> 16u32) & 1u32);
    assert((x >> 17u32) & 1u32 == (y >> 17u32) & 1u32);
    assert((x >> 18u32) & 1u32 == (y >> 18u32) & 1u32);
    assert((x >> 19u32) & 1u32 == (y >> 19u32) & 1u32);
    assert((x >> 20u32) & 1u32 == (y >> 20u32) & 1u32);
    assert((x >> 21u32) & 1u32 == (y >> 21u32) & 1u32);
    assert((x >> 22u32) & 1u32 == (y >> 22u32) & 1u32);
    assert((x >> 23u32) & 1u32 == (y >> 23u32) & 1u32);
    assert((x >> 24u32) & 1u32 == (y >> 24u32) & 1u32);
    assert((x >> 25u32) & 1u32 == (y >> 25u32) & 1u32);
    assert((x >> 26u32) & 1u32 == (y >> 26u32) & 1u32);
    assert((x >> 27u32) & 1u32 == (y >> 27u32) & 1u32);
    assert((x >> 28u32) & 1u32 == (y >> 28u32) & 1u32);
    assert((x >> 29u32) & 1u32 == (y >> 29u32) & 1u32);
    assert((x >> 30u32) & 1u32 == (y >> 30u32) & 1u32);
    assert((x >> 31u32) & 1u32 == (y >> 31u32) & 1u32);
    lemma_u32_ext(x, y);
}

/// `lo + i * stride` and `lo + j * stride` differ for `i != j` when `stride > 0`, and are ordered
/// as `i` and `j` are.
pub proof fn lemma_stride(stride: int, i: int, j: int)
    requires
        stride > 0,
        i < j,
    ensures
        i * stride < j * stride,
{
    assert(i * stride < j * stride) by (nonlinear_arith)
        requires
            stride > 0,
            i < j,
    ;
}

/// One compare-exchange acts on every threshold word as `cx`.
pub proof fn lemma_thr_step<T>(
    old: Seq<T>,
    new: Seq<T>,
    lo: int,
    stride: int,
    n: nat,
    a: u32,
    b: u32,
    t: T,
    less: spec_fn(T, T) -> bool,
)
    requires
        strict_weak_order(less),
        n <= 32,
        a < b < n,
        0 <= lo,
        stride > 0,
        lo + (n - 1) * stride < old.len(),
        new == if less(old[lo + b * stride], old[lo + a * stride]) {
            swapped(old, lo + a * stride, lo + b * stride)
        } else {
            old
        },
    ensures
        thr(new, lo, stride, t, less, n) == cx(thr(old, lo, stride, t, less, n), a, b),
{
    let x = thr(old, lo, stride, t, less, n);
    let y = thr(new, lo, stride, t, less, n);
    let pa = lo + a * stride;
    let pb = lo + b * stride;
    assert forall|k: u32| k < 32 implies (#[trigger] (y >> k) & 1u32) == (cx(x, a, b) >> k) & 1u32 by {
        lemma_thr_bit(new, lo, stride, t, less, n, k);
        lemma_thr_bit(old, lo, stride, t, less, n, k);
        lemma_thr_bit(old, lo, stride, t, less, n, a);
        lemma_thr_bit(old, lo, stride, t, less, n, b);
        lemma_cx_bits(x, a, b, k);
        lemma_bit_range(y, k);
        lemma_bit_range(x, k);
        lemma_bit_range(x, a);
        lemma_bit_range(x, b);
        let pk = lo + k * stride;
        if k < n {
            if k < a {
                lemma_stride(stride, k as int, a as int);
            } else if k > a {
                lemma_stride(stride, a as int, k as int);
            }
            if k < b {
                lemma_stride(stride, k as int, b as int);
            } else if k > b {
                lemma_stride(stride, b as int, k as int);
            }
            assert(0 <= k * stride <= (n - 1) * stride) by (nonlinear_arith)
                requires
                    stride > 0,
                    0 <= k < n,
            ;
        }
        lemma_stride(stride, a as int, b as int);
        assert(0 <= a * stride) by (nonlinear_arith)
            requires
                stride > 0,
                a >= 0,
        ;
        assert(b * stride <= (n - 1) * stride) by (nonlinear_arith)
            requires
                stride > 0,
                b <= n - 1,
        ;
        let va = old[pa];
        let vb = old[pb];
        assert((x >> a) & 1u32 == 1u32 <==> !less(va, t));
        assert((x >> b) & 1u32 == 1u32 <==> !less(vb, t));
        if less(vb, va) {
            // t <= vb implies t <= va
            if !less(vb, t) && less(va, t) {
                assert(less(vb, t));
            }
        } else {
            // t <= va implies t <= vb
            if !less(va, t) && less(vb, t) {
                assert(!less(vb, t));
            }
        }
        assert(((x >> a) & (x >> b)) & 1u32 == ((x >> a) & 1u32) & ((x >> b) & 1u32)) by (bit_vector);
        assert(((x >> a) | (x >> b)) & 1u32 == ((x >> a) & 1u32) | ((x >> b) & 1u32)) by (bit_vector);
        assert(1u32 & 1u32 == 1u32 && 1u32 & 0u32 == 0u32 && 0u32 & 1u32 == 0u32 && 0u32 & 0u32 == 0u32) by (bit_vector);
        assert(1u32 | 1u32 == 1u32 && 1u32 | 0u32 == 1u32 && 0u32 | 1u32 == 1u32 && 0u32 | 0u32 == 0u32) by (bit_vector);
    }
    lemma_u32_ext_forall(y, cx(x, a, b));
}

proof fn lemma_sorted_bits_pair(x: u32, n: u32, i: u32, j: u32)
    by (bit_vector)
    requires
        1 <= n <= 32,
        i < j < n,
        (x & !(x >> 1u32)) & ((1u32 << (n - 1u32) as u32) - 1u32) as u32 == 0u32,
        (x >> i) & 1u32 == 1u32,
    ensures
        (x >> j) & 1u32 == 1u32,
{
}

/// The element at position `lo + k * stride`.
pub open spec fn at<T>(s: Seq<T>, lo: int, stride: int, k: int) -> T {
    s[lo + k * stride]
}

/// If every threshold word is sorted, the elements at `lo + k * stride` are sorted under `less`.
pub proof fn lemma_sorted_from_bits<T>(s: Seq<T>, lo: int, stride: int, n: nat, less: spec_fn(T, T) -> bool)
    requires
        strict_weak_order(less),
        1 <= n <= 32,
        forall|t: T| sorted_bits(#[trigger] thr(s, lo, stride, t, less, n), n as u32),
    ensures
        forall|i: int, j: int| 0 <= i < j < n ==> !less(#[trigger] at(s, lo, stride, j), #[trigger] at(s, lo, stride, i)),
{
    assert forall|i: int, j: int| 0 <= i < j < n implies !less(#[trigger] at(s, lo, stride, j), #[trigger] at(s, lo, stride, i)) by {
        let t = s[lo + i * stride];
        let x = thr(s, lo, stride, t, less, n);
        assert(sorted_bits(x, n as u32));
        lemma_thr_bit(s, lo, stride, t, less, n, i as u32);
        lemma_thr_bit(s, lo, stride, t, less, n, j as u32);
        lemma_sorted_bits_pair(x, n as u32, i as u32, j as u32);
    }
}

} // verus!
