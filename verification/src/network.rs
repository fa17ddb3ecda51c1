//! Sorting networks for 3 to 16 elements.
//!
//! Each network is a fixed sequence of compare-exchanges. That it sorts is shown by the 0-1
//! principle: the same sequence of bit compare-exchanges sorts every word of bits, which the
//! bit-vector solver checks, and `cx_step` relates the two. The elements sorted are those at the
//! positions `lo + k * stride` for `k < n`.
use vstd::prelude::*;
use crate::order::{total, orders, known_le, strict_weak_order};
use crate::perm::{perm_in, lemma_perm_refl, lemma_perm_trans, lemma_perm_swap};
use crate::sort::sort2;
use crate::zero_one::{at, cx, sorted_bits, thr, lemma_thr_step, lemma_sorted_from_bits};

verus! {

/// The elements at positions `lo + k * stride`, `k < n`, are sorted under every order that
/// explains `lt`.
pub open spec fn sorted_at<T, F: Fn(&T, &T) -> bool>(lt: F, s: Seq<T>, lo: int, stride: int, n: int) -> bool {
    forall|i: int, j: int|
        0 <= i < j < n ==> known_le(lt, #[trigger] at(s, lo, stride, i), #[trigger] at(s, lo, stride, j))
}

/// The last position `lo + (n - 1) * stride` of `n` elements `stride` apart.
pub open spec fn last_at(lo: int, stride: int, n: int) -> int {
    lo + (n - 1) * stride
}

pub proof fn lemma_position(lo: int, stride: int, n: int, k: int)
    requires
        stride > 0,
        0 <= k < n,
        lo >= 0,
    ensures
        lo <= lo + k * stride <= last_at(lo, stride, n),
{
    assert(0 <= k * stride <= (n - 1) * stride) by (nonlinear_arith)
        requires
            stride > 0,
            0 <= k < n,
    ;
}

/// Every position from `lo` on that is not `lo` plus a multiple of `stride` holds the same element
/// in `a` and in `b`.
pub open spec fn off_stride_kept<T>(a: Seq<T>, b: Seq<T>, lo: int, stride: int) -> bool {
    forall|k: int| lo <= k < a.len() && (k - lo) % stride != 0 ==> #[trigger] b[k] == a[k]
}

pub proof fn lemma_kept_trans<T>(a: Seq<T>, b: Seq<T>, c: Seq<T>, lo: int, stride: int)
    requires
        a.len() == b.len(),
        off_stride_kept(a, b, lo, stride),
        off_stride_kept(b, c, lo, stride),
    ensures
        off_stride_kept(a, c, lo, stride),
{
    assert forall|k: int| lo <= k < a.len() && (k - lo) % stride != 0 implies #[trigger] c[k] == a[k] by {
        assert(b[k] == a[k]);
    }
}

/// Compare-exchange of the elements `a` and `b` of `n` elements `stride` apart.
fn cx_step<T, F: Fn(&T, &T) -> bool>(
    data: &mut [T],
    lo: usize,
    stride: usize,
    n: usize,
    a: usize,
    b: usize,
    lt: &F,
)
    requires
        total(*lt),
        a < b < n <= 32,
        stride > 0,
        last_at(lo as int, stride as int, n as int) < old(data)@.len(),
    ensures
        perm_in(old(data)@, final(data)@, lo as int, last_at(lo as int, stride as int, n as int) + 1),
        off_stride_kept(old(data)@, final(data)@, lo as int, stride as int),
        forall|less: spec_fn(T, T) -> bool, t: T|
            orders(*lt, less) ==> #[trigger] thr(final(data)@, lo as int, stride as int, t, less, n as nat) == cx(
                thr(old(data)@, lo as int, stride as int, t, less, n as nat),
                a as u32,
                b as u32,
            ),
{
    let ghost s0 = data@;
    let len = data.len();
    proof {
        lemma_position(lo as int, stride as int, n as int, a as int);
        lemma_position(lo as int, stride as int, n as int, b as int);
        crate::zero_one::lemma_stride(stride as int, a as int, b as int);
    }
    let pa = lo + a * stride;
    let pb = lo + b * stride;
    sort2(data, pa, pb, lt);
    proof {
        let hi = last_at(lo as int, stride as int, n as int) + 1;
        if data@ != s0 {
            lemma_perm_swap(s0, lo as int, hi, pa as int, pb as int);
        } else {
            lemma_perm_refl(s0, lo as int, hi);
        }
        vstd::arithmetic::div_mod::lemma_mod_multiples_basic(a as int, stride as int);
        vstd::arithmetic::div_mod::lemma_mod_multiples_basic(b as int, stride as int);
        assert(off_stride_kept(s0, data@, lo as int, stride as int));
        assert forall|less: spec_fn(T, T) -> bool, t: T|
            orders(*lt, less) implies #[trigger] thr(data@, lo as int, stride as int, t, less, n as nat) == cx(
                thr(s0, lo as int, stride as int, t, less, n as nat),
                a as u32,
                b as u32,
            ) by {
            lemma_thr_step(s0, data@, lo as int, stride as int, n as nat, a as u32, b as u32, t, less);
        }
    }
}

/// Concludes sortedness from the sortedness of all threshold words.
proof fn lemma_network_sorted<T, F: Fn(&T, &T) -> bool>(lt: F, s: Seq<T>, lo: int, stride: int, n: nat)
    requires
        1 <= n <= 32,
        forall|less: spec_fn(T, T) -> bool, t: T|
            orders(lt, less) ==> sorted_bits(#[trigger] thr(s, lo, stride, t, less, n), n as u32),
    ensures
        sorted_at(lt, s, lo, stride, n as int),
{
    assert forall|i: int, j: int| 0 <= i < j < n implies known_le(lt, #[trigger] at(s, lo, stride, i), #[trigger] at(s, lo, stride, j)) by {
        assert forall|less: spec_fn(T, T) -> bool| #[trigger] orders(lt, less) implies !less(at(s, lo, stride, j), at(s, lo, stride, i)) by {
            assert(strict_weak_order(less));
            lemma_sorted_from_bits(s, lo, stride, n, less);
        }
    }
}

/// The bit network on 3 elements sorts every word: `x3` is the word `x0` after all steps.
proof fn lemma_net3_sorts(x0: u32, x1: u32, x2: u32, x3: u32)
    by (bit_vector)
    requires
        x1 == cx(x0, 0, 2),
        x2 == cx(x1, 0, 1),
        x3 == cx(x2, 1, 2),
    ensures
        sorted_bits(x3, 3u32),
{
}

/// Sorts the 3 elements at positions `lo + k * stride` with a network of 3 compare-exchanges.
pub fn sort3<T, F: Fn(&T, &T) -> bool>(data: &mut [T], lo: usize, stride: usize, lt: &F)
    requires
        total(*lt),
        stride > 0,
        last_at(lo as int, stride as int, 3) < old(data)@.len(),
    ensures
        perm_in(old(data)@, final(data)@, lo as int, last_at(lo as int, stride as int, 3) + 1),
        off_stride_kept(old(data)@, final(data)@, lo as int, stride as int),
        sorted_at(*lt, final(data)@, lo as int, stride as int, 3),
{
    let ghost s0 = data@;
    let ghost hi = last_at(lo as int, stride as int, 3) + 1;
    proof { lemma_perm_refl(s0, lo as int, hi); }
    cx_step(data, lo, stride, 3, 0, 2, lt);
    let ghost s1 = data@;
    proof { lemma_perm_trans(s0, s0, s1, lo as int, hi); lemma_kept_trans(s0, s0, s1, lo as int, stride as int); }
    cx_step(data, lo, stride, 3, 0, 1, lt);
    let ghost s2 = data@;
    proof { lemma_perm_trans(s0, s1, s2, lo as int, hi); lemma_kept_trans(s0, s1, s2, lo as int, stride as int); }
    cx_step(data, lo, stride, 3, 1, 2, lt);
    let ghost s3 = data@;
    proof { lemma_perm_trans(s0, s2, s3, lo as int, hi); lemma_kept_trans(s0, s2, s3, lo as int, stride as int); }
    proof {
        assert forall|less: spec_fn(T, T) -> bool, t: T|
            orders(*lt, less) implies sorted_bits(#[trigger] thr(s3, lo as int, stride as int, t, less, 3), 3u32) by {
            lemma_net3_sorts(thr(s0, lo as int, stride as int, t, less, 3), thr(s1, lo as int, stride as int, t, less, 3), thr(s2, lo as int, stride as int, t, less, 3), thr(s3, lo as int, stride as int, t, less, 3));
        }
        lemma_network_sorted(*lt, s3, lo as int, stride as int, 3);
    }
}

/// The bit network on 4 elements sorts every word: `x5` is the word `x0` after all steps.
proof fn lemma_net4_sorts(x0: u32, x1: u32, x2: u32, x3: u32, x4: u32, x5: u32)
    by (bit_vector)
    requires
        x1 == cx(x0, 0, 2),
        x2 == cx(x1, 1, 3),
        x3 == cx(x2, 0, 1),
        x4 == cx(x3, 2, 3),
        x5 == cx(x4, 1, 2),
    ensures
        sorted_bits(x5, 4u32),
{
}

/// Sorts the 4 elements at positions `lo + k * stride` with a network of 5 compare-exchanges.
pub fn sort4<T, F: Fn(&T, &T) -> bool>(data: &mut [T], lo: usize, stride: usize, lt: &F)
    requires
        total(*lt),
        stride > 0,
        last_at(lo as int, stride as int, 4) < old(data)@.len(),
    ensures
        perm_in(old(data)@, final(data)@, lo as int, last_at(lo as int, stride as int, 4) + 1),
        off_stride_kept(old(data)@, final(data)@, lo as int, stride as int),
        sorted_at(*lt, final(data)@, lo as int, stride as int, 4),
{
    let ghost s0 = data@;
    let ghost hi = last_at(lo as int, stride as int, 4) + 1;
    proof { lemma_perm_refl(s0, lo as int, hi); }
    cx_step(data, lo, stride, 4, 0, 2, lt);
    let ghost s1 = data@;
    proof { lemma_perm_trans(s0, s0, s1, lo as int, hi); lemma_kept_trans(s0, s0, s1, lo as int, stride as int); }
    cx_step(data, lo, stride, 4, 1, 3, lt);
    let ghost s2 = data@;
    proof { lemma_perm_trans(s0, s1, s2, lo as int, hi); lemma_kept_trans(s0, s1, s2, lo as int, stride as int); }
    cx_step(data, lo, stride, 4, 0, 1, lt);
    let ghost s3 = data@;
    proof { lemma_perm_trans(s0, s2, s3, lo as int, hi); lemma_kept_trans(s0, s2, s3, lo as int, stride as int); }
    cx_step(data, lo, stride, 4, 2, 3, lt);
    let ghost s4 = data@;
    proof { lemma_perm_trans(s0, s3, s4, lo as int, hi); lemma_kept_trans(s0, s3, s4, lo as int, stride as int); }
    cx_step(data, lo, stride, 4, 1, 2, lt);
    let ghost s5 = data@;
    proof { lemma_perm_trans(s0, s4, s5, lo as int, hi); lemma_kept_trans(s0, s4, s5, lo as int, stride as int); }
    proof {
        assert forall|less: spec_fn(T, T) -> bool, t: T|
            orders(*lt, less) implies sorted_bits(#[trigger] thr(s5, lo as int, stride as int, t, less, 4), 4u32) by {
            lemma_net4_sorts(thr(s0, lo as int, stride as int, t, less, 4), thr(s1, lo as int, stride as int, t, less, 4), thr(s2, lo as int, stride as int, t, less, 4), thr(s3, lo as int, stride as int, t, less, 4), thr(s4, lo as int, stride as int, t, less, 4), thr(s5, lo as int, stride as int, t, less, 4));
        }
        lemma_network_sorted(*lt, s5, lo as int, stride as int, 4);
    }
}

/// The bit network on 5 elements sorts every word: `x9` is the word `x0` after all steps.
proof fn lemma_net5_sorts(x0: u32, x1: u32, x2: u32, x3: u32, x4: u32, x5: u32, x6: u32, x7: u32, x8: u32, x9: u32)
    by (bit_vector)
    requires
        x1 == cx(x0, 0, 3),
        x2 == cx(x1, 1, 4),
        x3 == cx(x2, 0, 2),
        x4 == cx(x3, 1, 3),
        x5 == cx(x4, 0, 1),
        x6 == cx(x5, 2, 4),
        x7 == cx(x6, 1, 2),
        x8 == cx(x7, 3, 4),
        x9 == cx(x8, 2, 3),
    ensures
        sorted_bits(x9, 5u32),
{
}

/// Sorts the 5 elements at positions `lo + k * stride` with a network of 9 compare-exchanges.
pub fn sort5<T, F: Fn(&T, &T) -> bool>(data: &mut [T], lo: usize, stride: usize, lt: &F)
    requires
        total(*lt),
        stride > 0,
        last_at(lo as int, stride as int, 5) < old(data)@.len(),
    ensures
        perm_in(old(data)@, final(data)@, lo as int, last_at(lo as int, stride as int, 5) + 1),
        off_stride_kept(old(data)@, final(data)@, lo as int, stride as int),
        sorted_at(*lt, final(data)@, lo as int, stride as int, 5),
{
    let ghost s0 = data@;
    let ghost hi = last_at(lo as int, stride as int, 5) + 1;
    proof { lemma_perm_refl(s0, lo as int, hi); }
    cx_step(data, lo, stride, 5, 0, 3, lt);
    let ghost s1 = data@;
    proof { lemma_perm_trans(s0, s0, s1, lo as int, hi); lemma_kept_trans(s0, s0, s1, lo as int, stride as int); }
    cx_step(data, lo, stride, 5, 1, 4, lt);
    let ghost s2 = data@;
    proof { lemma_perm_trans(s0, s1, s2, lo as int, hi); lemma_kept_trans(s0, s1, s2, lo as int, stride as int); }
    cx_step(data, lo, stride, 5, 0, 2, lt);
    let ghost s3 = data@;
    proof { lemma_perm_trans(s0, s2, s3, lo as int, hi); lemma_kept_trans(s0, s2, s3, lo as int, stride as int); }
    cx_step(data, lo, stride, 5, 1, 3, lt);
    let ghost s4 = data@;
    proof { lemma_perm_trans(s0, s3, s4, lo as int, hi); lemma_kept_trans(s0, s3, s4, lo as int, stride as int); }
    cx_step(data, lo, stride, 5, 0, 1, lt);
    let ghost s5 = data@;
    proof { lemma_perm_trans(s0, s4, s5, lo as int, hi); lemma_kept_trans(s0, s4, s5, lo as int, stride as int); }
    cx_step(data, lo, stride, 5, 2, 4, lt);
    let ghost s6 = data@;
    proof { lemma_perm_trans(s0, s5, s6, lo as int, hi); lemma_kept_trans(s0, s5, s6, lo as int, stride as int); }
    cx_step(data, lo, stride, 5, 1, 2, lt);
    let ghost s7 = data@;
    proof { lemma_perm_trans(s0, s6, s7, lo as int, hi); lemma_kept_trans(s0, s6, s7, lo as int, stride as int); }
    cx_step(data, lo, stride, 5, 3, 4, lt);
    let ghost s8 = data@;
    proof { lemma_perm_trans(s0, s7, s8, lo as int, hi); lemma_kept_trans(s0, s7, s8, lo as int, stride as int); }
    cx_step(data, lo, stride, 5, 2, 3, lt);
    let ghost s9 = data@;
    proof { lemma_perm_trans(s0, s8, s9, lo as int, hi); lemma_kept_trans(s0, s8, s9, lo as int, stride as int); }
    proof {
        assert forall|less: spec_fn(T, T) -> bool, t: T|
            orders(*lt, less) implies sorted_bits(#[trigger] thr(s9, lo as int, stride as int, t, less, 5), 5u32) by {
            lemma_net5_sorts(thr(s0, lo as int, stride as int, t, less, 5), thr(s1, lo as int, stride as int, t, less, 5), thr(s2, lo as int, stride as int, t, less, 5), thr(s3, lo as int, stride as int, t, less, 5), thr(s4, lo as int, stride as int, t, less, 5), thr(s5, lo as int, stride as int, t, less, 5), thr(s6, lo as int, stride as int, t, less, 5), thr(s7, lo as int, stride as int, t, less, 5), thr(s8, lo as int, stride as int, t, less, 5), thr(s9, lo as int, stride as int, t, less, 5));
        }
        lemma_network_sorted(*lt, s9, lo as int, stride as int, 5);
    }
}

/// The bit network on 6 elements sorts every word: `x12` is the word `x0` after all steps.
proof fn lemma_net6_sorts(x0: u32, x1: u32, x2: u32, x3: u32, x4: u32, x5: u32, x6: u32, x7: u32, x8: u32, x9: u32, x10: u32, x11: u32, x12: u32)
    by (bit_vector)
    requires
        x1 == cx(x0, 0, 5),
        x2 == cx(x1, 1, 3),
        x3 == cx(x2, 2, 4),
        x4 == cx(x3, 1, 2),
        x5 == cx(x4, 3, 4),
        x6 == cx(x5, 0, 3),
        x7 == cx(x6, 2, 5),
        x8 == cx(x7, 0, 1),
        x9 == cx(x8, 2, 3),
        x10 == cx(x9, 4, 5),
        x11 == cx(x10, 1, 2),
        x12 == cx(x11, 3, 4),
    ensures
        sorted_bits(x12, 6u32),
{
}

/// Sorts the 6 elements at positions `lo + k * stride` with a network of 12 compare-exchanges.
pub fn sort6<T, F: Fn(&T, &T) -> bool>(data: &mut [T], lo: usize, stride: usize, lt: &F)
    requires
        total(*lt),
        stride > 0,
        last_at(lo as int, stride as int, 6) < old(data)@.len(),
    ensures
        perm_in(old(data)@, final(data)@, lo as int, last_at(lo as int, stride as int, 6) + 1),
        off_stride_kept(old(data)@, final(data)@, lo as int, stride as int),
        sorted_at(*lt, final(data)@, lo as int, stride as int, 6),
{
    let ghost s0 = data@;
    let ghost hi = last_at(lo as int, stride as int, 6) + 1;
    proof { lemma_perm_refl(s0, lo as int, hi); }
    cx_step(data, lo, stride, 6, 0, 5, lt);
    let ghost s1 = data@;
    proof { lemma_perm_trans(s0, s0, s1, lo as int, hi); lemma_kept_trans(s0, s0, s1, lo as int, stride as int); }
    cx_step(data, lo, stride, 6, 1, 3, lt);
    let ghost s2 = data@;
    proof { lemma_perm_trans(s0, s1, s2, lo as int, hi); lemma_kept_trans(s0, s1, s2, lo as int, stride as int); }
    cx_step(data, lo, stride, 6, 2, 4, lt);
    let ghost s3 = data@;
    proof { lemma_perm_trans(s0, s2, s3, lo as int, hi); lemma_kept_trans(s0, s2, s3, lo as int, stride as int); }
    cx_step(data, lo, stride, 6, 1, 2, lt);
    let ghost s4 = data@;
    proof { lemma_perm_trans(s0, s3, s4, lo as int, hi); lemma_kept_trans(s0, s3, s4, lo as int, stride as int); }
    cx_step(data, lo, stride, 6, 3, 4, lt);
    let ghost s5 = data@;
    proof { lemma_perm_trans(s0, s4, s5, lo as int, hi); lemma_kept_trans(s0, s4, s5, lo as int, stride as int); }
    cx_step(data, lo, stride, 6, 0, 3, lt);
    let ghost s6 = data@;
    proof { lemma_perm_trans(s0, s5, s6, lo as int, hi); lemma_kept_trans(s0, s5, s6, lo as int, stride as int); }
    cx_step(data, lo, stride, 6, 2, 5, lt);
    let ghost s7 = data@;
    proof { lemma_perm_trans(s0, s6, s7, lo as int, hi); lemma_kept_trans(s0, s6, s7, lo as int, stride as int); }
    cx_step(data, lo, stride, 6, 0, 1, lt);
    let ghost s8 = data@;
    proof { lemma_perm_trans(s0, s7, s8, lo as int, hi); lemma_kept_trans(s0, s7, s8, lo as int, stride as int); }
    cx_step(data, lo, stride, 6, 2, 3, lt);
    let ghost s9 = data@;
    proof { lemma_perm_trans(s0, s8, s9, lo as int, hi); lemma_kept_trans(s0, s8, s9, lo as int, stride as int); }
    cx_step(data, lo, stride, 6, 4, 5, lt);
    let ghost s10 = data@;
    proof { lemma_perm_trans(s0, s9, s10, lo as int, hi); lemma_kept_trans(s0, s9, s10, lo as int, stride as int); }
    cx_step(data, lo, stride, 6, 1, 2, lt);
    let ghost s11 = data@;
    proof { lemma_perm_trans(s0, s10, s11, lo as int, hi); lemma_kept_trans(s0, s10, s11, lo as int, stride as int); }
    cx_step(data, lo, stride, 6, 3, 4, lt);
    let ghost s12 = data@;
    proof { lemma_perm_trans(s0, s11, s12, lo as int, hi); lemma_kept_trans(s0, s11, s12, lo as int, stride as int); }
    proof {
        assert forall|less: spec_fn(T, T) -> bool, t: T|
            orders(*lt, less) implies sorted_bits(#[trigger] thr(s12, lo as int, stride as int, t, less, 6), 6u32) by {
            lemma_net6_sorts(thr(s0, lo as int, stride as int, t, less, 6), thr(s1, lo as int, stride as int, t, less, 6), thr(s2, lo as int, stride as int, t, less, 6), thr(s3, lo as int, stride as int, t, less, 6), thr(s4, lo as int, stride as int, t, less, 6), thr(s5, lo as int, stride as int, t, less, 6), thr(s6, lo as int, stride as int, t, less, 6), thr(s7, lo as int, stride as int, t, less, 6), thr(s8, lo as int, stride as int, t, less, 6), thr(s9, lo as int, stride as int, t, less, 6), thr(s10, lo as int, stride as int, t, less, 6), thr(s11, lo as int, stride as int, t, less, 6), thr(s12, lo as int, stride as int, t, less, 6));
        }
        lemma_network_sorted(*lt, s12, lo as int, stride as int, 6);
    }
}

/// The bit network on 7 elements sorts every word: `x16` is the word `x0` after all steps.
proof fn lemma_net7_sorts(x0: u32, x1: u32, x2: u32, x3: u32, x4: u32, x5: u32, x6: u32, x7: u32, x8: u32, x9: u32, x10: u32, x11: u32, x12: u32, x13: u32, x14: u32, x15: u32, x16: u32)
    by (bit_vector)
    requires
        x1 == cx(x0, 0, 6),
        x2 == cx(x1, 2, 3),
        x3 == cx(x2, 4, 5),
        x4 == cx(x3, 0, 2),
        x5 == cx(x4, 1, 4),
        x6 == cx(x5, 3, 6),
        x7 == cx(x6, 0, 1),
        x8 == cx(x7, 2, 5),
        x9 == cx(x8, 3, 4),
        x10 == cx(x9, 1, 2),
        x11 == cx(x10, 4, 6),
        x12 == cx(x11, 2, 3),
        x13 == cx(x12, 4, 5),
        x14 == cx(x13, 1, 2),
        x15 == cx(x14, 3, 4),
        x16 == cx(x15, 5, 6),
    ensures
        sorted_bits(x16, 7u32),
{
}

/// Sorts the 7 elements at positions `lo + k * stride` with a network of 16 compare-exchanges.
pub fn sort7<T, F: Fn(&T, &T) -> bool>(data: &mut [T], lo: usize, stride: usize, lt: &F)
    requires
        total(*lt),
        stride > 0,
        last_at(lo as int, stride as int, 7) < old(data)@.len(),
    ensures
        perm_in(old(data)@, final(data)@, lo as int, last_at(lo as int, stride as int, 7) + 1),
        off_stride_kept(old(data)@, final(data)@, lo as int, stride as int),
        sorted_at(*lt, final(data)@, lo as int, stride as int, 7),
{
    let ghost s0 = data@;
    let ghost hi = last_at(lo as int, stride as int, 7) + 1;
    proof { lemma_perm_refl(s0, lo as int, hi); }
    cx_step(data, lo, stride, 7, 0, 6, lt);
    let ghost s1 = data@;
    proof { lemma_perm_trans(s0, s0, s1, lo as int, hi); lemma_kept_trans(s0, s0, s1, lo as int, stride as int); }
    cx_step(data, lo, stride, 7, 2, 3, lt);
    let ghost s2 = data@;
    proof { lemma_perm_trans(s0, s1, s2, lo as int, hi); lemma_kept_trans(s0, s1, s2, lo as int, stride as int); }
    cx_step(data, lo, stride, 7, 4, 5, lt);
    let ghost s3 = data@;
    proof { lemma_perm_trans(s0, s2, s3, lo as int, hi); lemma_kept_trans(s0, s2, s3, lo as int, stride as int); }
    cx_step(data, lo, stride, 7, 0, 2, lt);
    let ghost s4 = data@;
    proof { lemma_perm_trans(s0, s3, s4, lo as int, hi); lemma_kept_trans(s0, s3, s4, lo as int, stride as int); }
    cx_step(data, lo, stride, 7, 1, 4, lt);
    let ghost s5 = data@;
    proof { lemma_perm_trans(s0, s4, s5, lo as int, hi); lemma_kept_trans(s0, s4, s5, lo as int, stride as int); }
    cx_step(data, lo, stride, 7, 3, 6, lt);
    let ghost s6 = data@;
    proof { lemma_perm_trans(s0, s5, s6, lo as int, hi); lemma_kept_trans(s0, s5, s6, lo as int, stride as int); }
    cx_step(data, lo, stride, 7, 0, 1, lt);
    let ghost s7 = data@;
    proof { lemma_perm_trans(s0, s6, s7, lo as int, hi); lemma_kept_trans(s0, s6, s7, lo as int, stride as int); }
    cx_step(data, lo, stride, 7, 2, 5, lt);
    let ghost s8 = data@;
    proof { lemma_perm_trans(s0, s7, s8, lo as int, hi); lemma_kept_trans(s0, s7, s8, lo as int, stride as int); }
    cx_step(data, lo, stride, 7, 3, 4, lt);
    let ghost s9 = data@;
    proof { lemma_perm_trans(s0, s8, s9, lo as int, hi); lemma_kept_trans(s0, s8, s9, lo as int, stride as int); }
    cx_step(data, lo, stride, 7, 1, 2, lt);
    let ghost s10 = data@;
    proof { lemma_perm_trans(s0, s9, s10, lo as int, hi); lemma_kept_trans(s0, s9, s10, lo as int, stride as int); }
    cx_step(data, lo, stride, 7, 4, 6, lt);
    let ghost s11 = data@;
    proof { lemma_perm_trans(s0, s10, s11, lo as int, hi); lemma_kept_trans(s0, s10, s11, lo as int, stride as int); }
    cx_step(data, lo, stride, 7, 2, 3, lt);
    let ghost s12 = data@;
    proof { lemma_perm_trans(s0, s11, s12, lo as int, hi); lemma_kept_trans(s0, s11, s12, lo as int, stride as int); }
    cx_step(data, lo, stride, 7, 4, 5, lt);
    let ghost s13 = data@;
    proof { lemma_perm_trans(s0, s12, s13, lo as int, hi); lemma_kept_trans(s0, s12, s13, lo as int, stride as int); }
    cx_step(data, lo, stride, 7, 1, 2, lt);
    let ghost s14 = data@;
    proof { lemma_perm_trans(s0, s13, s14, lo as int, hi); lemma_kept_trans(s0, s13, s14, lo as int, stride as int); }
    cx_step(data, lo, stride, 7, 3, 4, lt);
    let ghost s15 = data@;
    proof { lemma_perm_trans(s0, s14, s15, lo as int, hi); lemma_kept_trans(s0, s14, s15, lo as int, stride as int); }
    cx_step(data, lo, stride, 7, 5, 6, lt);
    let ghost s16 = data@;
    proof { lemma_perm_trans(s0, s15, s16, lo as int, hi); lemma_kept_trans(s0, s15, s16, lo as int, stride as int); }
    proof {
        assert forall|less: spec_fn(T, T) -> bool, t: T|
            orders(*lt, less) implies sorted_bits(#[trigger] thr(s16, lo as int, stride as int, t, less, 7), 7u32) by {
            lemma_net7_sorts(thr(s0, lo as int, stride as int, t, less, 7), thr(s1, lo as int, stride as int, t, less, 7), thr(s2, lo as int, stride as int, t, less, 7), thr(s3, lo as int, stride as int, t, less, 7), thr(s4, lo as int, stride as int, t, less, 7), thr(s5, lo as int, stride as int, t, less, 7), thr(s6, lo as int, stride as int, t, less, 7), thr(s7, lo as int, stride as int, t, less, 7), thr(s8, lo as int, stride as int, t, less, 7), thr(s9, lo as int, stride as int, t, less, 7), thr(s10, lo as int, stride as int, t, less, 7), thr(s11, lo as int, stride as int, t, less, 7), thr(s12, lo as int, stride as int, t, less, 7), thr(s13, lo as int, stride as int, t, less, 7), thr(s14, lo as int, stride as int, t, less, 7), thr(s15, lo as int, stride as int, t, less, 7), thr(s16, lo as int, stride as int, t, less, 7));
        }
        lemma_network_sorted(*lt, s16, lo as int, stride as int, 7);
    }
}

/// The bit network on 8 elements sorts every word: `x19` is the word `x0` after all steps.
proof fn lemma_net8_sorts(x0: u32, x1: u32, x2: u32, x3: u32, x4: u32, x5: u32, x6: u32, x7: u32, x8: u32, x9: u32, x10: u32, x11: u32, x12: u32, x13: u32, x14: u32, x15: u32, x16: u32, x17: u32, x18: u32, x19: u32)
    by (bit_vector)
    requires
        x1 == cx(x0, 0, 2),
        x2 == cx(x1, 1, 3),
        x3 == cx(x2, 4, 6),
        x4 == cx(x3, 5, 7),
        x5 == cx(x4, 0, 4),
        x6 == cx(x5, 1, 5),
        x7 == cx(x6, 2, 6),
        x8 == cx(x7, 3, 7),
        x9 == cx(x8, 0, 1),
        x10 == cx(x9, 2, 3),
        x11 == cx(x10, 4, 5),
        x12 == cx(x11, 6, 7),
        x13 == cx(x12, 2, 4),
        x14 == cx(x13, 3, 5),
        x15 == cx(x14, 1, 4),
        x16 == cx(x15, 3, 6),
        x17 == cx(x16, 1, 2),
        x18 == cx(x17, 3, 4),
        x19 == cx(x18, 5, 6),
    ensures
        sorted_bits(x19, 8u32),
{
}

/// Sorts the 8 elements at positions `lo + k * stride` with a network of 19 compare-exchanges.
pub fn sort8<T, F: Fn(&T, &T) -> bool>(data: &mut [T], lo: usize, stride: usize, lt: &F)
    requires
        total(*lt),
        stride > 0,
        last_at(lo as int, stride as int, 8) < old(data)@.len(),
    ensures
        perm_in(old(data)@, final(data)@, lo as int, last_at(lo as int, stride as int, 8) + 1),
        off_stride_kept(old(data)@, final(data)@, lo as int, stride as int),
        sorted_at(*lt, final(data)@, lo as int, stride as int, 8),
{
    let ghost s0 = data@;
    let ghost hi = last_at(lo as int, stride as int, 8) + 1;
    proof { lemma_perm_refl(s0, lo as int, hi); }
    cx_step(data, lo, stride, 8, 0, 2, lt);
    let ghost s1 = data@;
    proof { lemma_perm_trans(s0, s0, s1, lo as int, hi); lemma_kept_trans(s0, s0, s1, lo as int, stride as int); }
    cx_step(data, lo, stride, 8, 1, 3, lt);
    let ghost s2 = data@;
    proof { lemma_perm_trans(s0, s1, s2, lo as int, hi); lemma_kept_trans(s0, s1, s2, lo as int, stride as int); }
    cx_step(data, lo, stride, 8, 4, 6, lt);
    let ghost s3 = data@;
    proof { lemma_perm_trans(s0, s2, s3, lo as int, hi); lemma_kept_trans(s0, s2, s3, lo as int, stride as int); }
    cx_step(data, lo, stride, 8, 5, 7, lt);
    let ghost s4 = data@;
    proof { lemma_perm_trans(s0, s3, s4, lo as int, hi); lemma_kept_trans(s0, s3, s4, lo as int, stride as int); }
    cx_step(data, lo, stride, 8, 0, 4, lt);
    let ghost s5 = data@;
    proof { lemma_perm_trans(s0, s4, s5, lo as int, hi); lemma_kept_trans(s0, s4, s5, lo as int, stride as int); }
    cx_step(data, lo, stride, 8, 1, 5, lt);
    let ghost s6 = data@;
    proof { lemma_perm_trans(s0, s5, s6, lo as int, hi); lemma_kept_trans(s0, s5, s6, lo as int, stride as int); }
    cx_step(data, lo, stride, 8, 2, 6, lt);
    let ghost s7 = data@;
    proof { lemma_perm_trans(s0, s6, s7, lo as int, hi); lemma_kept_trans(s0, s6, s7, lo as int, stride as int); }
    cx_step(data, lo, stride, 8, 3, 7, lt);
    let ghost s8 = data@;
    proof { lemma_perm_trans(s0, s7, s8, lo as int, hi); lemma_kept_trans(s0, s7, s8, lo as int, stride as int); }
    cx_step(data, lo, stride, 8, 0, 1, lt);
    let ghost s9 = data@;
    proof { lemma_perm_trans(s0, s8, s9, lo as int, hi); lemma_kept_trans(s0, s8, s9, lo as int, stride as int); }
    cx_step(data, lo, stride, 8, 2, 3, lt);
    let ghost s10 = data@;
    proof { lemma_perm_trans(s0, s9, s10, lo as int, hi); lemma_kept_trans(s0, s9, s10, lo as int, stride as int); }
    cx_step(data, lo, stride, 8, 4, 5, lt);
    let ghost s11 = data@;
    proof { lemma_perm_trans(s0, s10, s11, lo as int, hi); lemma_kept_trans(s0, s10, s11, lo as int, stride as int); }
    cx_step(data, lo, stride, 8, 6, 7, lt);
    let ghost s12 = data@;
    proof { lemma_perm_trans(s0, s11, s12, lo as int, hi); lemma_kept_trans(s0, s11, s12, lo as int, stride as int); }
    cx_step(data, lo, stride, 8, 2, 4, lt);
    let ghost s13 = data@;
    proof { lemma_perm_trans(s0, s12, s13, lo as int, hi); lemma_kept_trans(s0, s12, s13, lo as int, stride as int); }
    cx_step(data, lo, stride, 8, 3, 5, lt);
    let ghost s14 = data@;
    proof { lemma_perm_trans(s0, s13, s14, lo as int, hi); lemma_kept_trans(s0, s13, s14, lo as int, stride as int); }
    cx_step(data, lo, stride, 8, 1, 4, lt);
    let ghost s15 = data@;
    proof { lemma_perm_trans(s0, s14, s15, lo as int, hi); lemma_kept_trans(s0, s14, s15, lo as int, stride as int); }
    cx_step(data, lo, stride, 8, 3, 6, lt);
    let ghost s16 = data@;
    proof { lemma_perm_trans(s0, s15, s16, lo as int, hi); lemma_kept_trans(s0, s15, s16, lo as int, stride as int); }
    cx_step(data, lo, stride, 8, 1, 2, lt);
    let ghost s17 = data@;
    proof { lemma_perm_trans(s0, s16, s17, lo as int, hi); lemma_kept_trans(s0, s16, s17, lo as int, stride as int); }
    cx_step(data, lo, stride, 8, 3, 4, lt);
    let ghost s18 = data@;
    proof { lemma_perm_trans(s0, s17, s18, lo as int, hi); lemma_kept_trans(s0, s17, s18, lo as int, stride as int); }
    cx_step(data, lo, stride, 8, 5, 6, lt);
    let ghost s19 = data@;
    proof { lemma_perm_trans(s0, s18, s19, lo as int, hi); lemma_kept_trans(s0, s18, s19, lo as int, stride as int); }
    proof {
        assert forall|less: spec_fn(T, T) -> bool, t: T|
            orders(*lt, less) implies sorted_bits(#[trigger] thr(s19, lo as int, stride as int, t, less, 8), 8u32) by {
            lemma_net8_sorts(thr(s0, lo as int, stride as int, t, less, 8), thr(s1, lo as int, stride as int, t, less, 8), thr(s2, lo as int, stride as int, t, less, 8), thr(s3, lo as int, stride as int, t, less, 8), thr(s4, lo as int, stride as int, t, less, 8), thr(s5, lo as int, stride as int, t, less, 8), thr(s6, lo as int, stride as int, t, less, 8), thr(s7, lo as int, stride as int, t, less, 8), thr(s8, lo as int, stride as int, t, less, 8), thr(s9, lo as int, stride as int, t, less, 8), thr(s10, lo as int, stride as int, t, less, 8), thr(s11, lo as int, stride as int, t, less, 8), thr(s12, lo as int, stride as int, t, less, 8), thr(s13, lo as int, stride as int, t, less, 8), thr(s14, lo as int, stride as int, t, less, 8), thr(s15, lo as int, stride as int, t, less, 8), thr(s16, lo as int, stride as int, t, less, 8), thr(s17, lo as int, stride as int, t, less, 8), thr(s18, lo as int, stride as int, t, less, 8), thr(s19, lo as int, stride as int, t, less, 8));
        }
        lemma_network_sorted(*lt, s19, lo as int, stride as int, 8);
    }
}

/// The bit network on 9 elements sorts every word: `x25` is the word `x0` after all steps.
proof fn lemma_net9_sorts(x0: u32, x1: u32, x2: u32, x3: u32, x4: u32, x5: u32, x6: u32, x7: u32, x8: u32, x9: u32, x10: u32, x11: u32, x12: u32, x13: u32, x14: u32, x15: u32, x16: u32, x17: u32, x18: u32, x19: u32, x20: u32, x21: u32, x22: u32, x23: u32, x24: u32, x25: u32)
    by (bit_vector)
    requires
        x1 == cx(x0, 0, 3),
        x2 == cx(x1, 2, 5),
        x3 == cx(x2, 1, 7),
        x4 == cx(x3, 4, 8),
        x5 == cx(x4, 2, 4),
        x6 == cx(x5, 5, 6),
        x7 == cx(x6, 0, 7),
        x8 == cx(x7, 3, 8),
        x9 == cx(x8, 0, 2),
        x10 == cx(x9, 1, 3),
        x11 == cx(x10, 4, 5),
        x12 == cx(x11, 7, 8),
        x13 == cx(x12, 1, 4),
        x14 == cx(x13, 3, 6),
        x15 == cx(x14, 5, 7),
        x16 == cx(x15, 0, 1),
        x17 == cx(x16, 2, 4),
        x18 == cx(x17, 3, 5),
        x19 == cx(x18, 6, 8),
        x20 == cx(x19, 2, 3),
        x21 == cx(x20, 4, 5),
        x22 == cx(x21, 6, 7),
        x23 == cx(x22, 1, 2),
        x24 == cx(x23, 3, 4),
        x25 == cx(x24, 5, 6),
    ensures
        sorted_bits(x25, 9u32),
{
}

/// Sorts the 9 elements at positions `lo + k * stride` with a network of 25 compare-exchanges.
pub fn sort9<T, F: Fn(&T, &T) -> bool>(data: &mut [T], lo: usize, stride: usize, lt: &F)
    requires
        total(*lt),
        stride > 0,
        last_at(lo as int, stride as int, 9) < old(data)@.len(),
    ensures
        perm_in(old(data)@, final(data)@, lo as int, last_at(lo as int, stride as int, 9) + 1),
        off_stride_kept(old(data)@, final(data)@, lo as int, stride as int),
        sorted_at(*lt, final(data)@, lo as int, stride as int, 9),
{
    let ghost s0 = data@;
    let ghost hi = last_at(lo as int, stride as int, 9) + 1;
    proof { lemma_perm_refl(s0, lo as int, hi); }
    cx_step(data, lo, stride, 9, 0, 3, lt);
    let ghost s1 = data@;
    proof { lemma_perm_trans(s0, s0, s1, lo as int, hi); lemma_kept_trans(s0, s0, s1, lo as int, stride as int); }
    cx_step(data, lo, stride, 9, 2, 5, lt);
    let ghost s2 = data@;
    proof { lemma_perm_trans(s0, s1, s2, lo as int, hi); lemma_kept_trans(s0, s1, s2, lo as int, stride as int); }
    cx_step(data, lo, stride, 9, 1, 7, lt);
    let ghost s3 = data@;
    proof { lemma_perm_trans(s0, s2, s3, lo as int, hi); lemma_kept_trans(s0, s2, s3, lo as int, stride as int); }
    cx_step(data, lo, stride, 9, 4, 8, lt);
    let ghost s4 = data@;
    proof { lemma_perm_trans(s0, s3, s4, lo as int, hi); lemma_kept_trans(s0, s3, s4, lo as int, stride as int); }
    cx_step(data, lo, stride, 9, 2, 4, lt);
    let ghost s5 = data@;
    proof { lemma_perm_trans(s0, s4, s5, lo as int, hi); lemma_kept_trans(s0, s4, s5, lo as int, stride as int); }
    cx_step(data, lo, stride, 9, 5, 6, lt);
    let ghost s6 = data@;
    proof { lemma_perm_trans(s0, s5, s6, lo as int, hi); lemma_kept_trans(s0, s5, s6, lo as int, stride as int); }
    cx_step(data, lo, stride, 9, 0, 7, lt);
    let ghost s7 = data@;
    proof { lemma_perm_trans(s0, s6, s7, lo as int, hi); lemma_kept_trans(s0, s6, s7, lo as int, stride as int); }
    cx_step(data, lo, stride, 9, 3, 8, lt);
    let ghost s8 = data@;
    proof { lemma_perm_trans(s0, s7, s8, lo as int, hi); lemma_kept_trans(s0, s7, s8, lo as int, stride as int); }
    cx_step(data, lo, stride, 9, 0, 2, lt);
    let ghost s9 = data@;
    proof { lemma_perm_trans(s0, s8, s9, lo as int, hi); lemma_kept_trans(s0, s8, s9, lo as int, stride as int); }
    cx_step(data, lo, stride, 9, 1, 3, lt);
    let ghost s10 = data@;
    proof { lemma_perm_trans(s0, s9, s10, lo as int, hi); lemma_kept_trans(s0, s9, s10, lo as int, stride as int); }
    cx_step(data, lo, stride, 9, 4, 5, lt);
    let ghost s11 = data@;
    proof { lemma_perm_trans(s0, s10, s11, lo as int, hi); lemma_kept_trans(s0, s10, s11, lo as int, stride as int); }
    cx_step(data, lo, stride, 9, 7, 8, lt);
    let ghost s12 = data@;
    proof { lemma_perm_trans(s0, s11, s12, lo as int, hi); lemma_kept_trans(s0, s11, s12, lo as int, stride as int); }
    cx_step(data, lo, stride, 9, 1, 4, lt);
    let ghost s13 = data@;
    proof { lemma_perm_trans(s0, s12, s13, lo as int, hi); lemma_kept_trans(s0, s12, s13, lo as int, stride as int); }
    cx_step(data, lo, stride, 9, 3, 6, lt);
    let ghost s14 = data@;
    proof { lemma_perm_trans(s0, s13, s14, lo as int, hi); lemma_kept_trans(s0, s13, s14, lo as int, stride as int); }
    cx_step(data, lo, stride, 9, 5, 7, lt);
    let ghost s15 = data@;
    proof { lemma_perm_trans(s0, s14, s15, lo as int, hi); lemma_kept_trans(s0, s14, s15, lo as int, stride as int); }
    cx_step(data, lo, stride, 9, 0, 1, lt);
    let ghost s16 = data@;
    proof { lemma_perm_trans(s0, s15, s16, lo as int, hi); lemma_kept_trans(s0, s15, s16, lo as int, stride as int); }
    cx_step(data, lo, stride, 9, 2, 4, lt);
    let ghost s17 = data@;
    proof { lemma_perm_trans(s0, s16, s17, lo as int, hi); lemma_kept_trans(s0, s16, s17, lo as int, stride as int); }
    cx_step(data, lo, stride, 9, 3, 5, lt);
    let ghost s18 = data@;
    proof { lemma_perm_trans(s0, s17, s18, lo as int, hi); lemma_kept_trans(s0, s17, s18, lo as int, stride as int); }
    cx_step(data, lo, stride, 9, 6, 8, lt);
    let ghost s19 = data@;
    proof { lemma_perm_trans(s0, s18, s19, lo as int, hi); lemma_kept_trans(s0, s18, s19, lo as int, stride as int); }
    cx_step(data, lo, stride, 9, 2, 3, lt);
    let ghost s20 = data@;
    proof { lemma_perm_trans(s0, s19, s20, lo as int, hi); lemma_kept_trans(s0, s19, s20, lo as int, stride as int); }
    cx_step(data, lo, stride, 9, 4, 5, lt);
    let ghost s21 = data@;
    proof { lemma_perm_trans(s0, s20, s21, lo as int, hi); lemma_kept_trans(s0, s20, s21, lo as int, stride as int); }
    cx_step(data, lo, stride, 9, 6, 7, lt);
    let ghost s22 = data@;
    proof { lemma_perm_trans(s0, s21, s22, lo as int, hi); lemma_kept_trans(s0, s21, s22, lo as int, stride as int); }
    cx_step(data, lo, stride, 9, 1, 2, lt);
    let ghost s23 = data@;
    proof { lemma_perm_trans(s0, s22, s23, lo as int, hi); lemma_kept_trans(s0, s22, s23, lo as int, stride as int); }
    cx_step(data, lo, stride, 9, 3, 4, lt);
    let ghost s24 = data@;
    proof { lemma_perm_trans(s0, s23, s24, lo as int, hi); lemma_kept_trans(s0, s23, s24, lo as int, stride as int); }
    cx_step(data, lo, stride, 9, 5, 6, lt);
    let ghost s25 = data@;
    proof { lemma_perm_trans(s0, s24, s25, lo as int, hi); lemma_kept_trans(s0, s24, s25, lo as int, stride as int); }
    proof {
        assert forall|less: spec_fn(T, T) -> bool, t: T|
            orders(*lt, less) implies sorted_bits(#[trigger] thr(s25, lo as int, stride as int, t, less, 9), 9u32) by {
            lemma_net9_sorts(thr(s0, lo as int, stride as int, t, less, 9), thr(s1, lo as int, stride as int, t, less, 9), thr(s2, lo as int, stride as int, t, less, 9), thr(s3, lo as int, stride as int, t, less, 9), thr(s4, lo as int, stride as int, t, less, 9), thr(s5, lo as int, stride as int, t, less, 9), thr(s6, lo as int, stride as int, t, less, 9), thr(s7, lo as int, stride as int, t, less, 9), thr(s8, lo as int, stride as int, t, less, 9), thr(s9, lo as int, stride as int, t, less, 9), thr(s10, lo as int, stride as int, t, less, 9), thr(s11, lo as int, stride as int, t, less, 9), thr(s12, lo as int, stride as int, t, less, 9), thr(s13, lo as int, stride as int, t, less, 9), thr(s14, lo as int, stride as int, t, less, 9), thr(s15, lo as int, stride as int, t, less, 9), thr(s16, lo as int, stride as int, t, less, 9), thr(s17, lo as int, stride as int, t, less, 9), thr(s18, lo as int, stride as int, t, less, 9), thr(s19, lo as int, stride as int, t, less, 9), thr(s20, lo as int, stride as int, t, less, 9), thr(s21, lo as int, stride as int, t, less, 9), thr(s22, lo as int, stride as int, t, less, 9), thr(s23, lo as int, stride as int, t, less, 9), thr(s24, lo as int, stride as int, t, less, 9), thr(s25, lo as int, stride as int, t, less, 9));
        }
        lemma_network_sorted(*lt, s25, lo as int, stride as int, 9);
    }
}

/// The bit network on 10 elements sorts every word: `x29` is the word `x0` after all steps.
proof fn lemma_net10_sorts(x0: u32, x1: u32, x2: u32, x3: u32, x4: u32, x5: u32, x6: u32, x7: u32, x8: u32, x9: u32, x10: u32, x11: u32, x12: u32, x13: u32, x14: u32, x15: u32, x16: u32, x17: u32, x18: u32, x19: u32, x20: u32, x21: u32, x22: u32, x23: u32, x24: u32, x25: u32, x26: u32, x27: u32, x28: u32, x29: u32)
    by (bit_vector)
    requires
        x1 == cx(x0, 3, 5),
        x2 == cx(x1, 4, 6),
        x3 == cx(x2, 2, 7),
        x4 == cx(x3, 0, 8),
        x5 == cx(x4, 1, 9),
        x6 == cx(x5, 0, 2),
        x7 == cx(x6, 1, 4),
        x8 == cx(x7, 5, 8),
        x9 == cx(x8, 7, 9),
        x10 == cx(x9, 0, 3),
        x11 == cx(x10, 2, 4),
        x12 == cx(x11, 5, 7),
        x13 == cx(x12, 6, 9),
        x14 == cx(x13, 0, 1),
        x15 == cx(x14, 3, 6),
        x16 == cx(x15, 8, 9),
        x17 == cx(x16, 2, 3),
        x18 == cx(x17, 1, 5),
        x19 == cx(x18, 6, 7),
        x20 == cx(x19, 4, 8),
        x21 == cx(x20, 1, 2),
        x22 == cx(x21, 3, 5),
        x23 == cx(x22, 4, 6),
        x24 == cx(x23, 7, 8),
        x25 == cx(x24, 2, 3),
        x26 == cx(x25, 4, 5),
        x27 == cx(x26, 6, 7),
        x28 == cx(x27, 3, 4),
        x29 == cx(x28, 5, 6),
    ensures
        sorted_bits(x29, 10u32),
{
}

/// Sorts the 10 elements at positions `lo + k * stride` with a network of 29 compare-exchanges.
pub fn sort10<T, F: Fn(&T, &T) -> bool>(data: &mut [T], lo: usize, stride: usize, lt: &F)
    requires
        total(*lt),
        stride > 0,
        last_at(lo as int, stride as int, 10) < old(data)@.len(),
    ensures
        perm_in(old(data)@, final(data)@, lo as int, last_at(lo as int, stride as int, 10) + 1),
        off_stride_kept(old(data)@, final(data)@, lo as int, stride as int),
        sorted_at(*lt, final(data)@, lo as int, stride as int, 10),
{
    let ghost s0 = data@;
    let ghost hi = last_at(lo as int, stride as int, 10) + 1;
    proof { lemma_perm_refl(s0, lo as int, hi); }
    cx_step(data, lo, stride, 10, 3, 5, lt);
    let ghost s1 = data@;
    proof { lemma_perm_trans(s0, s0, s1, lo as int, hi); lemma_kept_trans(s0, s0, s1, lo as int, stride as int); }
    cx_step(data, lo, stride, 10, 4, 6, lt);
    let ghost s2 = data@;
    proof { lemma_perm_trans(s0, s1, s2, lo as int, hi); lemma_kept_trans(s0, s1, s2, lo as int, stride as int); }
    cx_step(data, lo, stride, 10, 2, 7, lt);
    let ghost s3 = data@;
    proof { lemma_perm_trans(s0, s2, s3, lo as int, hi); lemma_kept_trans(s0, s2, s3, lo as int, stride as int); }
    cx_step(data, lo, stride, 10, 0, 8, lt);
    let ghost s4 = data@;
    proof { lemma_perm_trans(s0, s3, s4, lo as int, hi); lemma_kept_trans(s0, s3, s4, lo as int, stride as int); }
    cx_step(data, lo, stride, 10, 1, 9, lt);
    let ghost s5 = data@;
    proof { lemma_perm_trans(s0, s4, s5, lo as int, hi); lemma_kept_trans(s0, s4, s5, lo as int, stride as int); }
    cx_step(data, lo, stride, 10, 0, 2, lt);
    let ghost s6 = data@;
    proof { lemma_perm_trans(s0, s5, s6, lo as int, hi); lemma_kept_trans(s0, s5, s6, lo as int, stride as int); }
    cx_step(data, lo, stride, 10, 1, 4, lt);
    let ghost s7 = data@;
    proof { lemma_perm_trans(s0, s6, s7, lo as int, hi); lemma_kept_trans(s0, s6, s7, lo as int, stride as int); }
    cx_step(data, lo, stride, 10, 5, 8, lt);
    let ghost s8 = data@;
    proof { lemma_perm_trans(s0, s7, s8, lo as int, hi); lemma_kept_trans(s0, s7, s8, lo as int, stride as int); }
    cx_step(data, lo, stride, 10, 7, 9, lt);
    let ghost s9 = data@;
    proof { lemma_perm_trans(s0, s8, s9, lo as int, hi); lemma_kept_trans(s0, s8, s9, lo as int, stride as int); }
    cx_step(data, lo, stride, 10, 0, 3, lt);
    let ghost s10 = data@;
    proof { lemma_perm_trans(s0, s9, s10, lo as int, hi); lemma_kept_trans(s0, s9, s10, lo as int, stride as int); }
    cx_step(data, lo, stride, 10, 2, 4, lt);
    let ghost s11 = data@;
    proof { lemma_perm_trans(s0, s10, s11, lo as int, hi); lemma_kept_trans(s0, s10, s11, lo as int, stride as int); }
    cx_step(data, lo, stride, 10, 5, 7, lt);
    let ghost s12 = data@;
    proof { lemma_perm_trans(s0, s11, s12, lo as int, hi); lemma_kept_trans(s0, s11, s12, lo as int, stride as int); }
    cx_step(data, lo, stride, 10, 6, 9, lt);
    let ghost s13 = data@;
    proof { lemma_perm_trans(s0, s12, s13, lo as int, hi); lemma_kept_trans(s0, s12, s13, lo as int, stride as int); }
    cx_step(data, lo, stride, 10, 0, 1, lt);
    let ghost s14 = data@;
    proof { lemma_perm_trans(s0, s13, s14, lo as int, hi); lemma_kept_trans(s0, s13, s14, lo as int, stride as int); }
    cx_step(data, lo, stride, 10, 3, 6, lt);
    let ghost s15 = data@;
    proof { lemma_perm_trans(s0, s14, s15, lo as int, hi); lemma_kept_trans(s0, s14, s15, lo as int, stride as int); }
    cx_step(data, lo, stride, 10, 8, 9, lt);
    let ghost s16 = data@;
    proof { lemma_perm_trans(s0, s15, s16, lo as int, hi); lemma_kept_trans(s0, s15, s16, lo as int, stride as int); }
    cx_step(data, lo, stride, 10, 2, 3, lt);
    let ghost s17 = data@;
    proof { lemma_perm_trans(s0, s16, s17, lo as int, hi); lemma_kept_trans(s0, s16, s17, lo as int, stride as int); }
    cx_step(data, lo, stride, 10, 1, 5, lt);
    let ghost s18 = data@;
    proof { lemma_perm_trans(s0, s17, s18, lo as int, hi); lemma_kept_trans(s0, s17, s18, lo as int, stride as int); }
    cx_step(data, lo, stride, 10, 6, 7, lt);
    let ghost s19 = data@;
    proof { lemma_perm_trans(s0, s18, s19, lo as int, hi); lemma_kept_trans(s0, s18, s19, lo as int, stride as int); }
    cx_step(data, lo, stride, 10, 4, 8, lt);
    let ghost s20 = data@;
    proof { lemma_perm_trans(s0, s19, s20, lo as int, hi); lemma_kept_trans(s0, s19, s20, lo as int, stride as int); }
    cx_step(data, lo, stride, 10, 1, 2, lt);
    let ghost s21 = data@;
    proof { lemma_perm_trans(s0, s20, s21, lo as int, hi); lemma_kept_trans(s0, s20, s21, lo as int, stride as int); }
    cx_step(data, lo, stride, 10, 3, 5, lt);
    let ghost s22 = data@;
    proof { lemma_perm_trans(s0, s21, s22, lo as int, hi); lemma_kept_trans(s0, s21, s22, lo as int, stride as int); }
    cx_step(data, lo, stride, 10, 4, 6, lt);
    let ghost s23 = data@;
    proof { lemma_perm_trans(s0, s22, s23, lo as int, hi); lemma_kept_trans(s0, s22, s23, lo as int, stride as int); }
    cx_step(data, lo, stride, 10, 7, 8, lt);
    let ghost s24 = data@;
    proof { lemma_perm_trans(s0, s23, s24, lo as int, hi); lemma_kept_trans(s0, s23, s24, lo as int, stride as int); }
    cx_step(data, lo, stride, 10, 2, 3, lt);
    let ghost s25 = data@;
    proof { lemma_perm_trans(s0, s24, s25, lo as int, hi); lemma_kept_trans(s0, s24, s25, lo as int, stride as int); }
    cx_step(data, lo, stride, 10, 4, 5, lt);
    let ghost s26 = data@;
    proof { lemma_perm_trans(s0, s25, s26, lo as int, hi); lemma_kept_trans(s0, s25, s26, lo as int, stride as int); }
    cx_step(data, lo, stride, 10, 6, 7, lt);
    let ghost s27 = data@;
    proof { lemma_perm_trans(s0, s26, s27, lo as int, hi); lemma_kept_trans(s0, s26, s27, lo as int, stride as int); }
    cx_step(data, lo, stride, 10, 3, 4, lt);
    let ghost s28 = data@;
    proof { lemma_perm_trans(s0, s27, s28, lo as int, hi); lemma_kept_trans(s0, s27, s28, lo as int, stride as int); }
    cx_step(data, lo, stride, 10, 5, 6, lt);
    let ghost s29 = data@;
    proof { lemma_perm_trans(s0, s28, s29, lo as int, hi); lemma_kept_trans(s0, s28, s29, lo as int, stride as int); }
    proof {
        assert forall|less: spec_fn(T, T) -> bool, t: T|
            orders(*lt, less) implies sorted_bits(#[trigger] thr(s29, lo as int, stride as int, t, less, 10), 10u32) by {
            lemma_net10_sorts(thr(s0, lo as int, stride as int, t, less, 10), thr(s1, lo as int, stride as int, t, less, 10), thr(s2, lo as int, stride as int, t, less, 10), thr(s3, lo as int, stride as int, t, less, 10), thr(s4, lo as int, stride as int, t, less, 10), thr(s5, lo as int, stride as int, t, less, 10), thr(s6, lo as int, stride as int, t, less, 10), thr(s7, lo as int, stride as int, t, less, 10), thr(s8, lo as int, stride as int, t, less, 10), thr(s9, lo as int, stride as int, t, less, 10), thr(s10, lo as int, stride as int, t, less, 10), thr(s11, lo as int, stride as int, t, less, 10), thr(s12, lo as int, stride as int, t, less, 10), thr(s13, lo as int, stride as int, t, less, 10), thr(s14, lo as int, stride as int, t, less, 10), thr(s15, lo as int, stride as int, t, less, 10), thr(s16, lo as int, stride as int, t, less, 10), thr(s17, lo as int, stride as int, t, less, 10), thr(s18, lo as int, stride as int, t, less, 10), thr(s19, lo as int, stride as int, t, less, 10), thr(s20, lo as int, stride as int, t, less, 10), thr(s21, lo as int, stride as int, t, less, 10), thr(s22, lo as int, stride as int, t, less, 10), thr(s23, lo as int, stride as int, t, less, 10), thr(s24, lo as int, stride as int, t, less, 10), thr(s25, lo as int, stride as int, t, less, 10), thr(s26, lo as int, stride as int, t, less, 10), thr(s27, lo as int, stride as int, t, less, 10), thr(s28, lo as int, stride as int, t, less, 10), thr(s29, lo as int, stride as int, t, less, 10));
        }
        lemma_network_sorted(*lt, s29, lo as int, stride as int, 10);
    }
}

/// The bit network on 11 elements sorts every word: `x35` is the word `x0` after all steps.
proof fn lemma_net11_sorts(x0: u32, x1: u32, x2: u32, x3: u32, x4: u32, x5: u32, x6: u32, x7: u32, x8: u32, x9: u32, x10: u32, x11: u32, x12: u32, x13: u32, x14: u32, x15: u32, x16: u32, x17: u32, x18: u32, x19: u32, x20: u32, x21: u32, x22: u32, x23: u32, x24: u32, x25: u32, x26: u32, x27: u32, x28: u32, x29: u32, x30: u32, x31: u32, x32: u32, x33: u32, x34: u32, x35: u32)
    by (bit_vector)
    requires
        x1 == cx(x0, 2, 4),
        x2 == cx(x1, 1, 6),
        x3 == cx(x2, 3, 7),
        x4 == cx(x3, 5, 8),
        x5 == cx(x4, 0, 9),
        x6 == cx(x5, 0, 1),
        x7 == cx(x6, 3, 5),
        x8 == cx(x7, 7, 8),
        x9 == cx(x8, 6, 9),
        x10 == cx(x9, 4, 10),
        x11 == cx(x10, 1, 3),
        x12 == cx(x11, 2, 5),
        x13 == cx(x12, 4, 7),
        x14 == cx(x13, 8, 10),
        x15 == cx(x14, 1, 2),
        x16 == cx(x15, 0, 4),
        x17 == cx(x16, 3, 7),
        x18 == cx(x17, 6, 8),
        x19 == cx(x18, 5, 9),
        x20 == cx(x19, 0, 1),
        x21 == cx(x20, 4, 5),
        x22 == cx(x21, 2, 6),
        x23 == cx(x22, 7, 8),
        x24 == cx(x23, 9, 10),
        x25 == cx(x24, 2, 4),
        x26 == cx(x25, 3, 6),
        x27 == cx(x26, 5, 7),
        x28 == cx(x27, 8, 9),
        x29 == cx(x28, 1, 2),
        x30 == cx(x29, 3, 4),
        x31 == cx(x30, 5, 6),
        x32 == cx(x31, 7, 8),
        x33 == cx(x32, 2, 3),
        x34 == cx(x33, 4, 5),
        x35 == cx(x34, 6, 7),
    ensures
        sorted_bits(x35, 11u32),
{
}

/// Sorts the 11 elements at positions `lo + k * stride` with a network of 35 compare-exchanges.
pub fn sort11<T, F: Fn(&T, &T) -> bool>(data: &mut [T], lo: usize, stride: usize, lt: &F)
    requires
        total(*lt),
        stride > 0,
        last_at(lo as int, stride as int, 11) < old(data)@.len(),
    ensures
        perm_in(old(data)@, final(data)@, lo as int, last_at(lo as int, stride as int, 11) + 1),
        off_stride_kept(old(data)@, final(data)@, lo as int, stride as int),
        sorted_at(*lt, final(data)@, lo as int, stride as int, 11),
{
    let ghost s0 = data@;
    let ghost hi = last_at(lo as int, stride as int, 11) + 1;
    proof { lemma_perm_refl(s0, lo as int, hi); }
    cx_step(data, lo, stride, 11, 2, 4, lt);
    let ghost s1 = data@;
    proof { lemma_perm_trans(s0, s0, s1, lo as int, hi); lemma_kept_trans(s0, s0, s1, lo as int, stride as int); }
    cx_step(data, lo, stride, 11, 1, 6, lt);
    let ghost s2 = data@;
    proof { lemma_perm_trans(s0, s1, s2, lo as int, hi); lemma_kept_trans(s0, s1, s2, lo as int, stride as int); }
    cx_step(data, lo, stride, 11, 3, 7, lt);
    let ghost s3 = data@;
    proof { lemma_perm_trans(s0, s2, s3, lo as int, hi); lemma_kept_trans(s0, s2, s3, lo as int, stride as int); }
    cx_step(data, lo, stride, 11, 5, 8, lt);
    let ghost s4 = data@;
    proof { lemma_perm_trans(s0, s3, s4, lo as int, hi); lemma_kept_trans(s0, s3, s4, lo as int, stride as int); }
    cx_step(data, lo, stride, 11, 0, 9, lt);
    let ghost s5 = data@;
    proof { lemma_perm_trans(s0, s4, s5, lo as int, hi); lemma_kept_trans(s0, s4, s5, lo as int, stride as int); }
    cx_step(data, lo, stride, 11, 0, 1, lt);
    let ghost s6 = data@;
    proof { lemma_perm_trans(s0, s5, s6, lo as int, hi); lemma_kept_trans(s0, s5, s6, lo as int, stride as int); }
    cx_step(data, lo, stride, 11, 3, 5, lt);
    let ghost s7 = data@;
    proof { lemma_perm_trans(s0, s6, s7, lo as int, hi); lemma_kept_trans(s0, s6, s7, lo as int, stride as int); }
    cx_step(data, lo, stride, 11, 7, 8, lt);
    let ghost s8 = data@;
    proof { lemma_perm_trans(s0, s7, s8, lo as int, hi); lemma_kept_trans(s0, s7, s8, lo as int, stride as int); }
    cx_step(data, lo, stride, 11, 6, 9, lt);
    let ghost s9 = data@;
    proof { lemma_perm_trans(s0, s8, s9, lo as int, hi); lemma_kept_trans(s0, s8, s9, lo as int, stride as int); }
    cx_step(data, lo, stride, 11, 4, 10, lt);
    let ghost s10 = data@;
    proof { lemma_perm_trans(s0, s9, s10, lo as int, hi); lemma_kept_trans(s0, s9, s10, lo as int, stride as int); }
    cx_step(data, lo, stride, 11, 1, 3, lt);
    let ghost s11 = data@;
    proof { lemma_perm_trans(s0, s10, s11, lo as int, hi); lemma_kept_trans(s0, s10, s11, lo as int, stride as int); }
    cx_step(data, lo, stride, 11, 2, 5, lt);
    let ghost s12 = data@;
    proof { lemma_perm_trans(s0, s11, s12, lo as int, hi); lemma_kept_trans(s0, s11, s12, lo as int, stride as int); }
    cx_step(data, lo, stride, 11, 4, 7, lt);
    let ghost s13 = data@;
    proof { lemma_perm_trans(s0, s12, s13, lo as int, hi); lemma_kept_trans(s0, s12, s13, lo as int, stride as int); }
    cx_step(data, lo, stride, 11, 8, 10, lt);
    let ghost s14 = data@;
    proof { lemma_perm_trans(s0, s13, s14, lo as int, hi); lemma_kept_trans(s0, s13, s14, lo as int, stride as int); }
    cx_step(data, lo, stride, 11, 1, 2, lt);
    let ghost s15 = data@;
    proof { lemma_perm_trans(s0, s14, s15, lo as int, hi); lemma_kept_trans(s0, s14, s15, lo as int, stride as int); }
    cx_step(data, lo, stride, 11, 0, 4, lt);
    let ghost s16 = data@;
    proof { lemma_perm_trans(s0, s15, s16, lo as int, hi); lemma_kept_trans(s0, s15, s16, lo as int, stride as int); }
    cx_step(data, lo, stride, 11, 3, 7, lt);
    let ghost s17 = data@;
    proof { lemma_perm_trans(s0, s16, s17, lo as int, hi); lemma_kept_trans(s0, s16, s17, lo as int, stride as int); }
    cx_step(data, lo, stride, 11, 6, 8, lt);
    let ghost s18 = data@;
    proof { lemma_perm_trans(s0, s17, s18, lo as int, hi); lemma_kept_trans(s0, s17, s18, lo as int, stride as int); }
    cx_step(data, lo, stride, 11, 5, 9, lt);
    let ghost s19 = data@;
    proof { lemma_perm_trans(s0, s18, s19, lo as int, hi); lemma_kept_trans(s0, s18, s19, lo as int, stride as int); }
    cx_step(data, lo, stride, 11, 0, 1, lt);
    let ghost s20 = data@;
    proof { lemma_perm_trans(s0, s19, s20, lo as int, hi); lemma_kept_trans(s0, s19, s20, lo as int, stride as int); }
    cx_step(data, lo, stride, 11, 4, 5, lt);
    let ghost s21 = data@;
    proof { lemma_perm_trans(s0, s20, s21, lo as int, hi); lemma_kept_trans(s0, s20, s21, lo as int, stride as int); }
    cx_step(data, lo, stride, 11, 2, 6, lt);
    let ghost s22 = data@;
    proof { lemma_perm_trans(s0, s21, s22, lo as int, hi); lemma_kept_trans(s0, s21, s22, lo as int, stride as int); }
    cx_step(data, lo, stride, 11, 7, 8, lt);
    let ghost s23 = data@;
    proof { lemma_perm_trans(s0, s22, s23, lo as int, hi); lemma_kept_trans(s0, s22, s23, lo as int, stride as int); }
    cx_step(data, lo, stride, 11, 9, 10, lt);
    let ghost s24 = data@;
    proof { lemma_perm_trans(s0, s23, s24, lo as int, hi); lemma_kept_trans(s0, s23, s24, lo as int, stride as int); }
    cx_step(data, lo, stride, 11, 2, 4, lt);
    let ghost s25 = data@;
    proof { lemma_perm_trans(s0, s24, s25, lo as int, hi); lemma_kept_trans(s0, s24, s25, lo as int, stride as int); }
    cx_step(data, lo, stride, 11, 3, 6, lt);
    let ghost s26 = data@;
    proof { lemma_perm_trans(s0, s25, s26, lo as int, hi); lemma_kept_trans(s0, s25, s26, lo as int, stride as int); }
    cx_step(data, lo, stride, 11, 5, 7, lt);
    let ghost s27 = data@;
    proof { lemma_perm_trans(s0, s26, s27, lo as int, hi); lemma_kept_trans(s0, s26, s27, lo as int, stride as int); }
    cx_step(data, lo, stride, 11, 8, 9, lt);
    let ghost s28 = data@;
    proof { lemma_perm_trans(s0, s27, s28, lo as int, hi); lemma_kept_trans(s0, s27, s28, lo as int, stride as int); }
    cx_step(data, lo, stride, 11, 1, 2, lt);
    let ghost s29 = data@;
    proof { lemma_perm_trans(s0, s28, s29, lo as int, hi); lemma_kept_trans(s0, s28, s29, lo as int, stride as int); }
    cx_step(data, lo, stride, 11, 3, 4, lt);
    let ghost s30 = data@;
    proof { lemma_perm_trans(s0, s29, s30, lo as int, hi); lemma_kept_trans(s0, s29, s30, lo as int, stride as int); }
    cx_step(data, lo, stride, 11, 5, 6, lt);
    let ghost s31 = data@;
    proof { lemma_perm_trans(s0, s30, s31, lo as int, hi); lemma_kept_trans(s0, s30, s31, lo as int, stride as int); }
    cx_step(data, lo, stride, 11, 7, 8, lt);
    let ghost s32 = data@;
    proof { lemma_perm_trans(s0, s31, s32, lo as int, hi); lemma_kept_trans(s0, s31, s32, lo as int, stride as int); }
    cx_step(data, lo, stride, 11, 2, 3, lt);
    let ghost s33 = data@;
    proof { lemma_perm_trans(s0, s32, s33, lo as int, hi); lemma_kept_trans(s0, s32, s33, lo as int, stride as int); }
    cx_step(data, lo, stride, 11, 4, 5, lt);
    let ghost s34 = data@;
    proof { lemma_perm_trans(s0, s33, s34, lo as int, hi); lemma_kept_trans(s0, s33, s34, lo as int, stride as int); }
    cx_step(data, lo, stride, 11, 6, 7, lt);
    let ghost s35 = data@;
    proof { lemma_perm_trans(s0, s34, s35, lo as int, hi); lemma_kept_trans(s0, s34, s35, lo as int, stride as int); }
    proof {
        assert forall|less: spec_fn(T, T) -> bool, t: T|
            orders(*lt, less) implies sorted_bits(#[trigger] thr(s35, lo as int, stride as int, t, less, 11), 11u32) by {
            lemma_net11_sorts(thr(s0, lo as int, stride as int, t, less, 11), thr(s1, lo as int, stride as int, t, less, 11), thr(s2, lo as int, stride as int, t, less, 11), thr(s3, lo as int, stride as int, t, less, 11), thr(s4, lo as int, stride as int, t, less, 11), thr(s5, lo as int, stride as int, t, less, 11), thr(s6, lo as int, stride as int, t, less, 11), thr(s7, lo as int, stride as int, t, less, 11), thr(s8, lo as int, stride as int, t, less, 11), thr(s9, lo as int, stride as int, t, less, 11), thr(s10, lo as int, stride as int, t, less, 11), thr(s11, lo as int, stride as int, t, less, 11), thr(s12, lo as int, stride as int, t, less, 11), thr(s13, lo as int, stride as int, t, less, 11), thr(s14, lo as int, stride as int, t, less, 11), thr(s15, lo as int, stride as int, t, less, 11), thr(s16, lo as int, stride as int, t, less, 11), thr(s17, lo as int, stride as int, t, less, 11), thr(s18, lo as int, stride as int, t, less, 11), thr(s19, lo as int, stride as int, t, less, 11), thr(s20, lo as int, stride as int, t, less, 11), thr(s21, lo as int, stride as int, t, less, 11), thr(s22, lo as int, stride as int, t, less, 11), thr(s23, lo as int, stride as int, t, less, 11), thr(s24, lo as int, stride as int, t, less, 11), thr(s25, lo as int, stride as int, t, less, 11), thr(s26, lo as int, stride as int, t, less, 11), thr(s27, lo as int, stride as int, t, less, 11), thr(s28, lo as int, stride as int, t, less, 11), thr(s29, lo as int, stride as int, t, less, 11), thr(s30, lo as int, stride as int, t, less, 11), thr(s31, lo as int, stride as int, t, less, 11), thr(s32, lo as int, stride as int, t, less, 11), thr(s33, lo as int, stride as int, t, less, 11), thr(s34, lo as int, stride as int, t, less, 11), thr(s35, lo as int, stride as int, t, less, 11));
        }
        lemma_network_sorted(*lt, s35, lo as int, stride as int, 11);
    }
}

/// The bit network on 12 elements sorts every word: `x39` is the word `x0` after all steps.
proof fn lemma_net12_sorts(x0: u32, x1: u32, x2: u32, x3: u32, x4: u32, x5: u32, x6: u32, x7: u32, x8: u32, x9: u32, x10: u32, x11: u32, x12: u32, x13: u32, x14: u32, x15: u32, x16: u32, x17: u32, x18: u32, x19: u32, x20: u32, x21: u32, x22: u32, x23: u32, x24: u32, x25: u32, x26: u32, x27: u32, x28: u32, x29: u32, x30: u32, x31: u32, x32: u32, x33: u32, x34: u32, x35: u32, x36: u32, x37: u32, x38: u32, x39: u32)
    by (bit_vector)
    requires
        x1 == cx(x0, 2, 6),
        x2 == cx(x1, 1, 7),
        x3 == cx(x2, 0, 8),
        x4 == cx(x3, 5, 9),
        x5 == cx(x4, 4, 10),
        x6 == cx(x5, 3, 11),
        x7 == cx(x6, 0, 1),
        x8 == cx(x7, 3, 4),
        x9 == cx(x8, 2, 5),
        x10 == cx(x9, 7, 8),
        x11 == cx(x10, 6, 9),
        x12 == cx(x11, 10, 11),
        x13 == cx(x12, 0, 2),
        x14 == cx(x13, 1, 6),
        x15 == cx(x14, 5, 10),
        x16 == cx(x15, 9, 11),
        x17 == cx(x16, 1, 2),
        x18 == cx(x17, 0, 3),
        x19 == cx(x18, 4, 6),
        x20 == cx(x19, 5, 7),
        x21 == cx(x20, 9, 10),
        x22 == cx(x21, 8, 11),
        x23 == cx(x22, 1, 4),
        x24 == cx(x23, 3, 5),
        x25 == cx(x24, 6, 8),
        x26 == cx(x25, 7, 10),
        x27 == cx(x26, 1, 3),
        x28 == cx(x27, 2, 5),
        x29 == cx(x28, 6, 9),
        x30 == cx(x29, 8, 10),
        x31 == cx(x30, 2, 3),
        x32 == cx(x31, 4, 5),
        x33 == cx(x32, 6, 7),
        x34 == cx(x33, 8, 9),
        x35 == cx(x34, 4, 6),
        x36 == cx(x35, 5, 7),
        x37 == cx(x36, 3, 4),
        x38 == cx(x37, 5, 6),
        x39 == cx(x38, 7, 8),
    ensures
        sorted_bits(x39, 12u32),
{
}

/// Sorts the 12 elements at positions `lo + k * stride` with a network of 39 compare-exchanges.
pub fn sort12<T, F: Fn(&T, &T) -> bool>(data: &mut [T], lo: usize, stride: usize, lt: &F)
    requires
        total(*lt),
        stride > 0,
        last_at(lo as int, stride as int, 12) < old(data)@.len(),
    ensures
        perm_in(old(data)@, final(data)@, lo as int, last_at(lo as int, stride as int, 12) + 1),
        off_stride_kept(old(data)@, final(data)@, lo as int, stride as int),
        sorted_at(*lt, final(data)@, lo as int, stride as int, 12),
{
    let ghost s0 = data@;
    let ghost hi = last_at(lo as int, stride as int, 12) + 1;
    proof { lemma_perm_refl(s0, lo as int, hi); }
    cx_step(data, lo, stride, 12, 2, 6, lt);
    let ghost s1 = data@;
    proof { lemma_perm_trans(s0, s0, s1, lo as int, hi); lemma_kept_trans(s0, s0, s1, lo as int, stride as int); }
    cx_step(data, lo, stride, 12, 1, 7, lt);
    let ghost s2 = data@;
    proof { lemma_perm_trans(s0, s1, s2, lo as int, hi); lemma_kept_trans(s0, s1, s2, lo as int, stride as int); }
    cx_step(data, lo, stride, 12, 0, 8, lt);
    let ghost s3 = data@;
    proof { lemma_perm_trans(s0, s2, s3, lo as int, hi); lemma_kept_trans(s0, s2, s3, lo as int, stride as int); }
    cx_step(data, lo, stride, 12, 5, 9, lt);
    let ghost s4 = data@;
    proof { lemma_perm_trans(s0, s3, s4, lo as int, hi); lemma_kept_trans(s0, s3, s4, lo as int, stride as int); }
    cx_step(data, lo, stride, 12, 4, 10, lt);
    let ghost s5 = data@;
    proof { lemma_perm_trans(s0, s4, s5, lo as int, hi); lemma_kept_trans(s0, s4, s5, lo as int, stride as int); }
    cx_step(data, lo, stride, 12, 3, 11, lt);
    let ghost s6 = data@;
    proof { lemma_perm_trans(s0, s5, s6, lo as int, hi); lemma_kept_trans(s0, s5, s6, lo as int, stride as int); }
    cx_step(data, lo, stride, 12, 0, 1, lt);
    let ghost s7 = data@;
    proof { lemma_perm_trans(s0, s6, s7, lo as int, hi); lemma_kept_trans(s0, s6, s7, lo as int, stride as int); }
    cx_step(data, lo, stride, 12, 3, 4, lt);
    let ghost s8 = data@;
    proof { lemma_perm_trans(s0, s7, s8, lo as int, hi); lemma_kept_trans(s0, s7, s8, lo as int, stride as int); }
    cx_step(data, lo, stride, 12, 2, 5, lt);
    let ghost s9 = data@;
    proof { lemma_perm_trans(s0, s8, s9, lo as int, hi); lemma_kept_trans(s0, s8, s9, lo as int, stride as int); }
    cx_step(data, lo, stride, 12, 7, 8, lt);
    let ghost s10 = data@;
    proof { lemma_perm_trans(s0, s9, s10, lo as int, hi); lemma_kept_trans(s0, s9, s10, lo as int, stride as int); }
    cx_step(data, lo, stride, 12, 6, 9, lt);
    let ghost s11 = data@;
    proof { lemma_perm_trans(s0, s10, s11, lo as int, hi); lemma_kept_trans(s0, s10, s11, lo as int, stride as int); }
    cx_step(data, lo, stride, 12, 10, 11, lt);
    let ghost s12 = data@;
    proof { lemma_perm_trans(s0, s11, s12, lo as int, hi); lemma_kept_trans(s0, s11, s12, lo as int, stride as int); }
    cx_step(data, lo, stride, 12, 0, 2, lt);
    let ghost s13 = data@;
    proof { lemma_perm_trans(s0, s12, s13, lo as int, hi); lemma_kept_trans(s0, s12, s13, lo as int, stride as int); }
    cx_step(data, lo, stride, 12, 1, 6, lt);
    let ghost s14 = data@;
    proof { lemma_perm_trans(s0, s13, s14, lo as int, hi); lemma_kept_trans(s0, s13, s14, lo as int, stride as int); }
    cx_step(data, lo, stride, 12, 5, 10, lt);
    let ghost s15 = data@;
    proof { lemma_perm_trans(s0, s14, s15, lo as int, hi); lemma_kept_trans(s0, s14, s15, lo as int, stride as int); }
    cx_step(data, lo, stride, 12, 9, 11, lt);
    let ghost s16 = data@;
    proof { lemma_perm_trans(s0, s15, s16, lo as int, hi); lemma_kept_trans(s0, s15, s16, lo as int, stride as int); }
    cx_step(data, lo, stride, 12, 1, 2, lt);
    let ghost s17 = data@;
    proof { lemma_perm_trans(s0, s16, s17, lo as int, hi); lemma_kept_trans(s0, s16, s17, lo as int, stride as int); }
    cx_step(data, lo, stride, 12, 0, 3, lt);
    let ghost s18 = data@;
    proof { lemma_perm_trans(s0, s17, s18, lo as int, hi); lemma_kept_trans(s0, s17, s18, lo as int, stride as int); }
    cx_step(data, lo, stride, 12, 4, 6, lt);
    let ghost s19 = data@;
    proof { lemma_perm_trans(s0, s18, s19, lo as int, hi); lemma_kept_trans(s0, s18, s19, lo as int, stride as int); }
    cx_step(data, lo, stride, 12, 5, 7, lt);
    let ghost s20 = data@;
    proof { lemma_perm_trans(s0, s19, s20, lo as int, hi); lemma_kept_trans(s0, s19, s20, lo as int, stride as int); }
    cx_step(data, lo, stride, 12, 9, 10, lt);
    let ghost s21 = data@;
    proof { lemma_perm_trans(s0, s20, s21, lo as int, hi); lemma_kept_trans(s0, s20, s21, lo as int, stride as int); }
    cx_step(data, lo, stride, 12, 8, 11, lt);
    let ghost s22 = data@;
    proof { lemma_perm_trans(s0, s21, s22, lo as int, hi); lemma_kept_trans(s0, s21, s22, lo as int, stride as int); }
    cx_step(data, lo, stride, 12, 1, 4, lt);
    let ghost s23 = data@;
    proof { lemma_perm_trans(s0, s22, s23, lo as int, hi); lemma_kept_trans(s0, s22, s23, lo as int, stride as int); }
    cx_step(data, lo, stride, 12, 3, 5, lt);
    let ghost s24 = data@;
    proof { lemma_perm_trans(s0, s23, s24, lo as int, hi); lemma_kept_trans(s0, s23, s24, lo as int, stride as int); }
    cx_step(data, lo, stride, 12, 6, 8, lt);
    let ghost s25 = data@;
    proof { lemma_perm_trans(s0, s24, s25, lo as int, hi); lemma_kept_trans(s0, s24, s25, lo as int, stride as int); }
    cx_step(data, lo, stride, 12, 7, 10, lt);
    let ghost s26 = data@;
    proof { lemma_perm_trans(s0, s25, s26, lo as int, hi); lemma_kept_trans(s0, s25, s26, lo as int, stride as int); }
    cx_step(data, lo, stride, 12, 1, 3, lt);
    let ghost s27 = data@;
    proof { lemma_perm_trans(s0, s26, s27, lo as int, hi); lemma_kept_trans(s0, s26, s27, lo as int, stride as int); }
    cx_step(data, lo, stride, 12, 2, 5, lt);
    let ghost s28 = data@;
    proof { lemma_perm_trans(s0, s27, s28, lo as int, hi); lemma_kept_trans(s0, s27, s28, lo as int, stride as int); }
    cx_step(data, lo, stride, 12, 6, 9, lt);
    let ghost s29 = data@;
    proof { lemma_perm_trans(s0, s28, s29, lo as int, hi); lemma_kept_trans(s0, s28, s29, lo as int, stride as int); }
    cx_step(data, lo, stride, 12, 8, 10, lt);
    let ghost s30 = data@;
    proof { lemma_perm_trans(s0, s29, s30, lo as int, hi); lemma_kept_trans(s0, s29, s30, lo as int, stride as int); }
    cx_step(data, lo, stride, 12, 2, 3, lt);
    let ghost s31 = data@;
    proof { lemma_perm_trans(s0, s30, s31, lo as int, hi); lemma_kept_trans(s0, s30, s31, lo as int, stride as int); }
    cx_step(data, lo, stride, 12, 4, 5, lt);
    let ghost s32 = data@;
    proof { lemma_perm_trans(s0, s31, s32, lo as int, hi); lemma_kept_trans(s0, s31, s32, lo as int, stride as int); }
    cx_step(data, lo, stride, 12, 6, 7, lt);
    let ghost s33 = data@;
    proof { lemma_perm_trans(s0, s32, s33, lo as int, hi); lemma_kept_trans(s0, s32, s33, lo as int, stride as int); }
    cx_step(data, lo, stride, 12, 8, 9, lt);
    let ghost s34 = data@;
    proof { lemma_perm_trans(s0, s33, s34, lo as int, hi); lemma_kept_trans(s0, s33, s34, lo as int, stride as int); }
    cx_step(data, lo, stride, 12, 4, 6, lt);
    let ghost s35 = data@;
    proof { lemma_perm_trans(s0, s34, s35, lo as int, hi); lemma_kept_trans(s0, s34, s35, lo as int, stride as int); }
    cx_step(data, lo, stride, 12, 5, 7, lt);
    let ghost s36 = data@;
    proof { lemma_perm_trans(s0, s35, s36, lo as int, hi); lemma_kept_trans(s0, s35, s36, lo as int, stride as int); }
    cx_step(data, lo, stride, 12, 3, 4, lt);
    let ghost s37 = data@;
    proof { lemma_perm_trans(s0, s36, s37, lo as int, hi); lemma_kept_trans(s0, s36, s37, lo as int, stride as int); }
    cx_step(data, lo, stride, 12, 5, 6, lt);
    let ghost s38 = data@;
    proof { lemma_perm_trans(s0, s37, s38, lo as int, hi); lemma_kept_trans(s0, s37, s38, lo as int, stride as int); }
    cx_step(data, lo, stride, 12, 7, 8, lt);
    let ghost s39 = data@;
    proof { lemma_perm_trans(s0, s38, s39, lo as int, hi); lemma_kept_trans(s0, s38, s39, lo as int, stride as int); }
    proof {
        assert forall|less: spec_fn(T, T) -> bool, t: T|
            orders(*lt, less) implies sorted_bits(#[trigger] thr(s39, lo as int, stride as int, t, less, 12), 12u32) by {
            lemma_net12_sorts(thr(s0, lo as int, stride as int, t, less, 12), thr(s1, lo as int, stride as int, t, less, 12), thr(s2, lo as int, stride as int, t, less, 12), thr(s3, lo as int, stride as int, t, less, 12), thr(s4, lo as int, stride as int, t, less, 12), thr(s5, lo as int, stride as int, t, less, 12), thr(s6, lo as int, stride as int, t, less, 12), thr(s7, lo as int, stride as int, t, less, 12), thr(s8, lo as int, stride as int, t, less, 12), thr(s9, lo as int, stride as int, t, less, 12), thr(s10, lo as int, stride as int, t, less, 12), thr(s11, lo as int, stride as int, t, less, 12), thr(s12, lo as int, stride as int, t, less, 12), thr(s13, lo as int, stride as int, t, less, 12), thr(s14, lo as int, stride as int, t, less, 12), thr(s15, lo as int, stride as int, t, less, 12), thr(s16, lo as int, stride as int, t, less, 12), thr(s17, lo as int, stride as int, t, less, 12), thr(s18, lo as int, stride as int, t, less, 12), thr(s19, lo as int, stride as int, t, less, 12), thr(s20, lo as int, stride as int, t, less, 12), thr(s21, lo as int, stride as int, t, less, 12), thr(s22, lo as int, stride as int, t, less, 12), thr(s23, lo as int, stride as int, t, less, 12), thr(s24, lo as int, stride as int, t, less, 12), thr(s25, lo as int, stride as int, t, less, 12), thr(s26, lo as int, stride as int, t, less, 12), thr(s27, lo as int, stride as int, t, less, 12), thr(s28, lo as int, stride as int, t, less, 12), thr(s29, lo as int, stride as int, t, less, 12), thr(s30, lo as int, stride as int, t, less, 12), thr(s31, lo as int, stride as int, t, less, 12), thr(s32, lo as int, stride as int, t, less, 12), thr(s33, lo as int, stride as int, t, less, 12), thr(s34, lo as int, stride as int, t, less, 12), thr(s35, lo as int, stride as int, t, less, 12), thr(s36, lo as int, stride as int, t, less, 12), thr(s37, lo as int, stride as int, t, less, 12), thr(s38, lo as int, stride as int, t, less, 12), thr(s39, lo as int, stride as int, t, less, 12));
        }
        lemma_network_sorted(*lt, s39, lo as int, stride as int, 12);
    }
}

/// The bit network on 13 elements sorts every word: `x45` is the word `x0` after all steps.
proof fn lemma_net13_sorts(x0: u32, x1: u32, x2: u32, x3: u32, x4: u32, x5: u32, x6: u32, x7: u32, x8: u32, x9: u32, x10: u32, x11: u32, x12: u32, x13: u32, x14: u32, x15: u32, x16: u32, x17: u32, x18: u32, x19: u32, x20: u32, x21: u32, x22: u32, x23: u32, x24: u32, x25: u32, x26: u32, x27: u32, x28: u32, x29: u32, x30: u32, x31: u32, x32: u32, x33: u32, x34: u32, x35: u32, x36: u32, x37: u32, x38: u32, x39: u32, x40: u32, x41: u32, x42: u32, x43: u32, x44: u32, x45: u32)
    by (bit_vector)
    requires
        x1 == cx(x0, 3, 7),
        x2 == cx(x1, 6, 8),
        x3 == cx(x2, 2, 9),
        x4 == cx(x3, 1, 10),
        x5 == cx(x4, 5, 11),
        x6 == cx(x5, 0, 12),
        x7 == cx(x6, 2, 3),
        x8 == cx(x7, 1, 6),
        x9 == cx(x8, 7, 9),
        x10 == cx(x9, 8, 10),
        x11 == cx(x10, 4, 11),
        x12 == cx(x11, 1, 2),
        x13 == cx(x12, 0, 4),
        x14 == cx(x13, 3, 6),
        x15 == cx(x14, 7, 8),
        x16 == cx(x15, 9, 10),
        x17 == cx(x16, 11, 12),
        x18 == cx(x17, 4, 6),
        x19 == cx(x18, 5, 9),
        x20 == cx(x19, 8, 11),
        x21 == cx(x20, 10, 12),
        x22 == cx(x21, 0, 5),
        x23 == cx(x22, 4, 7),
        x24 == cx(x23, 3, 8),
        x25 == cx(x24, 9, 10),
        x26 == cx(x25, 6, 11),
        x27 == cx(x26, 0, 1),
        x28 == cx(x27, 2, 5),
        x29 == cx(x28, 7, 8),
        x30 == cx(x29, 6, 9),
        x31 == cx(x30, 10, 11),
        x32 == cx(x31, 1, 3),
        x33 == cx(x32, 2, 4),
        x34 == cx(x33, 5, 6),
        x35 == cx(x34, 9, 10),
        x36 == cx(x35, 1, 2),
        x37 == cx(x36, 3, 4),
        x38 == cx(x37, 5, 7),
        x39 == cx(x38, 6, 8),
        x40 == cx(x39, 2, 3),
        x41 == cx(x40, 4, 5),
        x42 == cx(x41, 6, 7),
        x43 == cx(x42, 8, 9),
        x44 == cx(x43, 3, 4),
        x45 == cx(x44, 5, 6),
    ensures
        sorted_bits(x45, 13u32),
{
}

/// Sorts the 13 elements at positions `lo + k * stride` with a network of 45 compare-exchanges.
pub fn sort13<T, F: Fn(&T, &T) -> bool>(data: &mut [T], lo: usize, stride: usize, lt: &F)
    requires
        total(*lt),
        stride > 0,
        last_at(lo as int, stride as int, 13) < old(data)@.len(),
    ensures
        perm_in(old(data)@, final(data)@, lo as int, last_at(lo as int, stride as int, 13) + 1),
        off_stride_kept(old(data)@, final(data)@, lo as int, stride as int),
        sorted_at(*lt, final(data)@, lo as int, stride as int, 13),
{
    let ghost s0 = data@;
    let ghost hi = last_at(lo as int, stride as int, 13) + 1;
    proof { lemma_perm_refl(s0, lo as int, hi); }
    cx_step(data, lo, stride, 13, 3, 7, lt);
    let ghost s1 = data@;
    proof { lemma_perm_trans(s0, s0, s1, lo as int, hi); lemma_kept_trans(s0, s0, s1, lo as int, stride as int); }
    cx_step(data, lo, stride, 13, 6, 8, lt);
    let ghost s2 = data@;
    proof { lemma_perm_trans(s0, s1, s2, lo as int, hi); lemma_kept_trans(s0, s1, s2, lo as int, stride as int); }
    cx_step(data, lo, stride, 13, 2, 9, lt);
    let ghost s3 = data@;
    proof { lemma_perm_trans(s0, s2, s3, lo as int, hi); lemma_kept_trans(s0, s2, s3, lo as int, stride as int); }
    cx_step(data, lo, stride, 13, 1, 10, lt);
    let ghost s4 = data@;
    proof { lemma_perm_trans(s0, s3, s4, lo as int, hi); lemma_kept_trans(s0, s3, s4, lo as int, stride as int); }
    cx_step(data, lo, stride, 13, 5, 11, lt);
    let ghost s5 = data@;
    proof { lemma_perm_trans(s0, s4, s5, lo as int, hi); lemma_kept_trans(s0, s4, s5, lo as int, stride as int); }
    cx_step(data, lo, stride, 13, 0, 12, lt);
    let ghost s6 = data@;
    proof { lemma_perm_trans(s0, s5, s6, lo as int, hi); lemma_kept_trans(s0, s5, s6, lo as int, stride as int); }
    cx_step(data, lo, stride, 13, 2, 3, lt);
    let ghost s7 = data@;
    proof { lemma_perm_trans(s0, s6, s7, lo as int, hi); lemma_kept_trans(s0, s6, s7, lo as int, stride as int); }
    cx_step(data, lo, stride, 13, 1, 6, lt);
    let ghost s8 = data@;
    proof { lemma_perm_trans(s0, s7, s8, lo as int, hi); lemma_kept_trans(s0, s7, s8, lo as int, stride as int); }
    cx_step(data, lo, stride, 13, 7, 9, lt);
    let ghost s9 = data@;
    proof { lemma_perm_trans(s0, s8, s9, lo as int, hi); lemma_kept_trans(s0, s8, s9, lo as int, stride as int); }
    cx_step(data, lo, stride, 13, 8, 10, lt);
    let ghost s10 = data@;
    proof { lemma_perm_trans(s0, s9, s10, lo as int, hi); lemma_kept_trans(s0, s9, s10, lo as int, stride as int); }
    cx_step(data, lo, stride, 13, 4, 11, lt);
    let ghost s11 = data@;
    proof { lemma_perm_trans(s0, s10, s11, lo as int, hi); lemma_kept_trans(s0, s10, s11, lo as int, stride as int); }
    cx_step(data, lo, stride, 13, 1, 2, lt);
    let ghost s12 = data@;
    proof { lemma_perm_trans(s0, s11, s12, lo as int, hi); lemma_kept_trans(s0, s11, s12, lo as int, stride as int); }
    cx_step(data, lo, stride, 13, 0, 4, lt);
    let ghost s13 = data@;
    proof { lemma_perm_trans(s0, s12, s13, lo as int, hi); lemma_kept_trans(s0, s12, s13, lo as int, stride as int); }
    cx_step(data, lo, stride, 13, 3, 6, lt);
    let ghost s14 = data@;
    proof { lemma_perm_trans(s0, s13, s14, lo as int, hi); lemma_kept_trans(s0, s13, s14, lo as int, stride as int); }
    cx_step(data, lo, stride, 13, 7, 8, lt);
    let ghost s15 = data@;
    proof { lemma_perm_trans(s0, s14, s15, lo as int, hi); lemma_kept_trans(s0, s14, s15, lo as int, stride as int); }
    cx_step(data, lo, stride, 13, 9, 10, lt);
    let ghost s16 = data@;
    proof { lemma_perm_trans(s0, s15, s16, lo as int, hi); lemma_kept_trans(s0, s15, s16, lo as int, stride as int); }
    cx_step(data, lo, stride, 13, 11, 12, lt);
    let ghost s17 = data@;
    proof { lemma_perm_trans(s0, s16, s17, lo as int, hi); lemma_kept_trans(s0, s16, s17, lo as int, stride as int); }
    cx_step(data, lo, stride, 13, 4, 6, lt);
    let ghost s18 = data@;
    proof { lemma_perm_trans(s0, s17, s18, lo as int, hi); lemma_kept_trans(s0, s17, s18, lo as int, stride as int); }
    cx_step(data, lo, stride, 13, 5, 9, lt);
    let ghost s19 = data@;
    proof { lemma_perm_trans(s0, s18, s19, lo as int, hi); lemma_kept_trans(s0, s18, s19, lo as int, stride as int); }
    cx_step(data, lo, stride, 13, 8, 11, lt);
    let ghost s20 = data@;
    proof { lemma_perm_trans(s0, s19, s20, lo as int, hi); lemma_kept_trans(s0, s19, s20, lo as int, stride as int); }
    cx_step(data, lo, stride, 13, 10, 12, lt);
    let ghost s21 = data@;
    proof { lemma_perm_trans(s0, s20, s21, lo as int, hi); lemma_kept_trans(s0, s20, s21, lo as int, stride as int); }
    cx_step(data, lo, stride, 13, 0, 5, lt);
    let ghost s22 = data@;
    proof { lemma_perm_trans(s0, s21, s22, lo as int, hi); lemma_kept_trans(s0, s21, s22, lo as int, stride as int); }
    cx_step(data, lo, stride, 13, 4, 7, lt);
    let ghost s23 = data@;
    proof { lemma_perm_trans(s0, s22, s23, lo as int, hi); lemma_kept_trans(s0, s22, s23, lo as int, stride as int); }
    cx_step(data, lo, stride, 13, 3, 8, lt);
    let ghost s24 = data@;
    proof { lemma_perm_trans(s0, s23, s24, lo as int, hi); lemma_kept_trans(s0, s23, s24, lo as int, stride as int); }
    cx_step(data, lo, stride, 13, 9, 10, lt);
    let ghost s25 = data@;
    proof { lemma_perm_trans(s0, s24, s25, lo as int, hi); lemma_kept_trans(s0, s24, s25, lo as int, stride as int); }
    cx_step(data, lo, stride, 13, 6, 11, lt);
    let ghost s26 = data@;
    proof { lemma_perm_trans(s0, s25, s26, lo as int, hi); lemma_kept_trans(s0, s25, s26, lo as int, stride as int); }
    cx_step(data, lo, stride, 13, 0, 1, lt);
    let ghost s27 = data@;
    proof { lemma_perm_trans(s0, s26, s27, lo as int, hi); lemma_kept_trans(s0, s26, s27, lo as int, stride as int); }
    cx_step(data, lo, stride, 13, 2, 5, lt);
    let ghost s28 = data@;
    proof { lemma_perm_trans(s0, s27, s28, lo as int, hi); lemma_kept_trans(s0, s27, s28, lo as int, stride as int); }
    cx_step(data, lo, stride, 13, 7, 8, lt);
    let ghost s29 = data@;
    proof { lemma_perm_trans(s0, s28, s29, lo as int, hi); lemma_kept_trans(s0, s28, s29, lo as int, stride as int); }
    cx_step(data, lo, stride, 13, 6, 9, lt);
    let ghost s30 = data@;
    proof { lemma_perm_trans(s0, s29, s30, lo as int, hi); lemma_kept_trans(s0, s29, s30, lo as int, stride as int); }
    cx_step(data, lo, stride, 13, 10, 11, lt);
    let ghost s31 = data@;
    proof { lemma_perm_trans(s0, s30, s31, lo as int, hi); lemma_kept_trans(s0, s30, s31, lo as int, stride as int); }
    cx_step(data, lo, stride, 13, 1, 3, lt);
    let ghost s32 = data@;
    proof { lemma_perm_trans(s0, s31, s32, lo as int, hi); lemma_kept_trans(s0, s31, s32, lo as int, stride as int); }
    cx_step(data, lo, stride, 13, 2, 4, lt);
    let ghost s33 = data@;
    proof { lemma_perm_trans(s0, s32, s33, lo as int, hi); lemma_kept_trans(s0, s32, s33, lo as int, stride as int); }
    cx_step(data, lo, stride, 13, 5, 6, lt);
    let ghost s34 = data@;
    proof { lemma_perm_trans(s0, s33, s34, lo as int, hi); lemma_kept_trans(s0, s33, s34, lo as int, stride as int); }
    cx_step(data, lo, stride, 13, 9, 10, lt);
    let ghost s35 = data@;
    proof { lemma_perm_trans(s0, s34, s35, lo as int, hi); lemma_kept_trans(s0, s34, s35, lo as int, stride as int); }
    cx_step(data, lo, stride, 13, 1, 2, lt);
    let ghost s36 = data@;
    proof { lemma_perm_trans(s0, s35, s36, lo as int, hi); lemma_kept_trans(s0, s35, s36, lo as int, stride as int); }
    cx_step(data, lo, stride, 13, 3, 4, lt);
    let ghost s37 = data@;
    proof { lemma_perm_trans(s0, s36, s37, lo as int, hi); lemma_kept_trans(s0, s36, s37, lo as int, stride as int); }
    cx_step(data, lo, stride, 13, 5, 7, lt);
    let ghost s38 = data@;
    proof { lemma_perm_trans(s0, s37, s38, lo as int, hi); lemma_kept_trans(s0, s37, s38, lo as int, stride as int); }
    cx_step(data, lo, stride, 13, 6, 8, lt);
    let ghost s39 = data@;
    proof { lemma_perm_trans(s0, s38, s39, lo as int, hi); lemma_kept_trans(s0, s38, s39, lo as int, stride as int); }
    cx_step(data, lo, stride, 13, 2, 3, lt);
    let ghost s40 = data@;
    proof { lemma_perm_trans(s0, s39, s40, lo as int, hi); lemma_kept_trans(s0, s39, s40, lo as int, stride as int); }
    cx_step(data, lo, stride, 13, 4, 5, lt);
    let ghost s41 = data@;
    proof { lemma_perm_trans(s0, s40, s41, lo as int, hi); lemma_kept_trans(s0, s40, s41, lo as int, stride as int); }
    cx_step(data, lo, stride, 13, 6, 7, lt);
    let ghost s42 = data@;
    proof { lemma_perm_trans(s0, s41, s42, lo as int, hi); lemma_kept_trans(s0, s41, s42, lo as int, stride as int); }
    cx_step(data, lo, stride, 13, 8, 9, lt);
    let ghost s43 = data@;
    proof { lemma_perm_trans(s0, s42, s43, lo as int, hi); lemma_kept_trans(s0, s42, s43, lo as int, stride as int); }
    cx_step(data, lo, stride, 13, 3, 4, lt);
    let ghost s44 = data@;
    proof { lemma_perm_trans(s0, s43, s44, lo as int, hi); lemma_kept_trans(s0, s43, s44, lo as int, stride as int); }
    cx_step(data, lo, stride, 13, 5, 6, lt);
    let ghost s45 = data@;
    proof { lemma_perm_trans(s0, s44, s45, lo as int, hi); lemma_kept_trans(s0, s44, s45, lo as int, stride as int); }
    proof {
        assert forall|less: spec_fn(T, T) -> bool, t: T|
            orders(*lt, less) implies sorted_bits(#[trigger] thr(s45, lo as int, stride as int, t, less, 13), 13u32) by {
            lemma_net13_sorts(thr(s0, lo as int, stride as int, t, less, 13), thr(s1, lo as int, stride as int, t, less, 13), thr(s2, lo as int, stride as int, t, less, 13), thr(s3, lo as int, stride as int, t, less, 13), thr(s4, lo as int, stride as int, t, less, 13), thr(s5, lo as int, stride as int, t, less, 13), thr(s6, lo as int, stride as int, t, less, 13), thr(s7, lo as int, stride as int, t, less, 13), thr(s8, lo as int, stride as int, t, less, 13), thr(s9, lo as int, stride as int, t, less, 13), thr(s10, lo as int, stride as int, t, less, 13), thr(s11, lo as int, stride as int, t, less, 13), thr(s12, lo as int, stride as int, t, less, 13), thr(s13, lo as int, stride as int, t, less, 13), thr(s14, lo as int, stride as int, t, less, 13), thr(s15, lo as int, stride as int, t, less, 13), thr(s16, lo as int, stride as int, t, less, 13), thr(s17, lo as int, stride as int, t, less, 13), thr(s18, lo as int, stride as int, t, less, 13), thr(s19, lo as int, stride as int, t, less, 13), thr(s20, lo as int, stride as int, t, less, 13), thr(s21, lo as int, stride as int, t, less, 13), thr(s22, lo as int, stride as int, t, less, 13), thr(s23, lo as int, stride as int, t, less, 13), thr(s24, lo as int, stride as int, t, less, 13), thr(s25, lo as int, stride as int, t, less, 13), thr(s26, lo as int, stride as int, t, less, 13), thr(s27, lo as int, stride as int, t, less, 13), thr(s28, lo as int, stride as int, t, less, 13), thr(s29, lo as int, stride as int, t, less, 13), thr(s30, lo as int, stride as int, t, less, 13), thr(s31, lo as int, stride as int, t, less, 13), thr(s32, lo as int, stride as int, t, less, 13), thr(s33, lo as int, stride as int, t, less, 13), thr(s34, lo as int, stride as int, t, less, 13), thr(s35, lo as int, stride as int, t, less, 13), thr(s36, lo as int, stride as int, t, less, 13), thr(s37, lo as int, stride as int, t, less, 13), thr(s38, lo as int, stride as int, t, less, 13), thr(s39, lo as int, stride as int, t, less, 13), thr(s40, lo as int, stride as int, t, less, 13), thr(s41, lo as int, stride as int, t, less, 13), thr(s42, lo as int, stride as int, t, less, 13), thr(s43, lo as int, stride as int, t, less, 13), thr(s44, lo as int, stride as int, t, less, 13), thr(s45, lo as int, stride as int, t, less, 13));
        }
        lemma_network_sorted(*lt, s45, lo as int, stride as int, 13);
    }
}

/// The bit network on 14 elements sorts every word: `x51` is the word `x0` after all steps.
proof fn lemma_net14_sorts(x0: u32, x1: u32, x2: u32, x3: u32, x4: u32, x5: u32, x6: u32, x7: u32, x8: u32, x9: u32, x10: u32, x11: u32, x12: u32, x13: u32, x14: u32, x15: u32, x16: u32, x17: u32, x18: u32, x19: u32, x20: u32, x21: u32, x22: u32, x23: u32, x24: u32, x25: u32, x26: u32, x27: u32, x28: u32, x29: u32, x30: u32, x31: u32, x32: u32, x33: u32, x34: u32, x35: u32, x36: u32, x37: u32, x38: u32, x39: u32, x40: u32, x41: u32, x42: u32, x43: u32, x44: u32, x45: u32, x46: u32, x47: u32, x48: u32, x49: u32, x50: u32, x51: u32)
    by (bit_vector)
    requires
        x1 == cx(x0, 0, 1),
        x2 == cx(x1, 2, 3),
        x3 == cx(x2, 4, 5),
        x4 == cx(x3, 6, 7),
        x5 == cx(x4, 8, 9),
        x6 == cx(x5, 10, 11),
        x7 == cx(x6, 12, 13),
        x8 == cx(x7, 0, 2),
        x9 == cx(x8, 1, 3),
        x10 == cx(x9, 4, 8),
        x11 == cx(x10, 5, 9),
        x12 == cx(x11, 10, 12),
        x13 == cx(x12, 11, 13),
        x14 == cx(x13, 1, 2),
        x15 == cx(x14, 0, 4),
        x16 == cx(x15, 3, 7),
        x17 == cx(x16, 5, 8),
        x18 == cx(x17, 6, 10),
        x19 == cx(x18, 11, 12),
        x20 == cx(x19, 9, 13),
        x21 == cx(x20, 1, 5),
        x22 == cx(x21, 0, 6),
        x23 == cx(x22, 3, 9),
        x24 == cx(x23, 4, 10),
        x25 == cx(x24, 8, 12),
        x26 == cx(x25, 7, 13),
        x27 == cx(x26, 4, 6),
        x28 == cx(x27, 7, 9),
        x29 == cx(x28, 2, 10),
        x30 == cx(x29, 3, 11),
        x31 == cx(x30, 1, 3),
        x32 == cx(x31, 6, 7),
        x33 == cx(x32, 2, 8),
        x34 == cx(x33, 5, 11),
        x35 == cx(x34, 10, 12),
        x36 == cx(x35, 1, 4),
        x37 == cx(x36, 3, 5),
        x38 == cx(x37, 2, 6),
        x39 == cx(x38, 8, 10),
        x40 == cx(x39, 7, 11),
        x41 == cx(x40, 9, 12),
        x42 == cx(x41, 2, 4),
        x43 == cx(x42, 3, 6),
        x44 == cx(x43, 5, 8),
        x45 == cx(x44, 7, 10),
        x46 == cx(x45, 9, 11),
        x47 == cx(x46, 3, 4),
        x48 == cx(x47, 5, 6),
        x49 == cx(x48, 7, 8),
        x50 == cx(x49, 9, 10),
        x51 == cx(x50, 6, 7),
    ensures
        sorted_bits(x51, 14u32),
{
}

/// Sorts the 14 elements at positions `lo + k * stride` with a network of 51 compare-exchanges.
pub fn sort14<T, F: Fn(&T, &T) -> bool>(data: &mut [T], lo: usize, stride: usize, lt: &F)
    requires
        total(*lt),
        stride > 0,
        last_at(lo as int, stride as int, 14) < old(data)@.len(),
    ensures
        perm_in(old(data)@, final(data)@, lo as int, last_at(lo as int, stride as int, 14) + 1),
        off_stride_kept(old(data)@, final(data)@, lo as int, stride as int),
        sorted_at(*lt, final(data)@, lo as int, stride as int, 14),
{
    let ghost s0 = data@;
    let ghost hi = last_at(lo as int, stride as int, 14) + 1;
    proof { lemma_perm_refl(s0, lo as int, hi); }
    cx_step(data, lo, stride, 14, 0, 1, lt);
    let ghost s1 = data@;
    proof { lemma_perm_trans(s0, s0, s1, lo as int, hi); lemma_kept_trans(s0, s0, s1, lo as int, stride as int); }
    cx_step(data, lo, stride, 14, 2, 3, lt);
    let ghost s2 = data@;
    proof { lemma_perm_trans(s0, s1, s2, lo as int, hi); lemma_kept_trans(s0, s1, s2, lo as int, stride as int); }
    cx_step(data, lo, stride, 14, 4, 5, lt);
    let ghost s3 = data@;
    proof { lemma_perm_trans(s0, s2, s3, lo as int, hi); lemma_kept_trans(s0, s2, s3, lo as int, stride as int); }
    cx_step(data, lo, stride, 14, 6, 7, lt);
    let ghost s4 = data@;
    proof { lemma_perm_trans(s0, s3, s4, lo as int, hi); lemma_kept_trans(s0, s3, s4, lo as int, stride as int); }
    cx_step(data, lo, stride, 14, 8, 9, lt);
    let ghost s5 = data@;
    proof { lemma_perm_trans(s0, s4, s5, lo as int, hi); lemma_kept_trans(s0, s4, s5, lo as int, stride as int); }
    cx_step(data, lo, stride, 14, 10, 11, lt);
    let ghost s6 = data@;
    proof { lemma_perm_trans(s0, s5, s6, lo as int, hi); lemma_kept_trans(s0, s5, s6, lo as int, stride as int); }
    cx_step(data, lo, stride, 14, 12, 13, lt);
    let ghost s7 = data@;
    proof { lemma_perm_trans(s0, s6, s7, lo as int, hi); lemma_kept_trans(s0, s6, s7, lo as int, stride as int); }
    cx_step(data, lo, stride, 14, 0, 2, lt);
    let ghost s8 = data@;
    proof { lemma_perm_trans(s0, s7, s8, lo as int, hi); lemma_kept_trans(s0, s7, s8, lo as int, stride as int); }
    cx_step(data, lo, stride, 14, 1, 3, lt);
    let ghost s9 = data@;
    proof { lemma_perm_trans(s0, s8, s9, lo as int, hi); lemma_kept_trans(s0, s8, s9, lo as int, stride as int); }
    cx_step(data, lo, stride, 14, 4, 8, lt);
    let ghost s10 = data@;
    proof { lemma_perm_trans(s0, s9, s10, lo as int, hi); lemma_kept_trans(s0, s9, s10, lo as int, stride as int); }
    cx_step(data, lo, stride, 14, 5, 9, lt);
    let ghost s11 = data@;
    proof { lemma_perm_trans(s0, s10, s11, lo as int, hi); lemma_kept_trans(s0, s10, s11, lo as int, stride as int); }
    cx_step(data, lo, stride, 14, 10, 12, lt);
    let ghost s12 = data@;
    proof { lemma_perm_trans(s0, s11, s12, lo as int, hi); lemma_kept_trans(s0, s11, s12, lo as int, stride as int); }
    cx_step(data, lo, stride, 14, 11, 13, lt);
    let ghost s13 = data@;
    proof { lemma_perm_trans(s0, s12, s13, lo as int, hi); lemma_kept_trans(s0, s12, s13, lo as int, stride as int); }
    cx_step(data, lo, stride, 14, 1, 2, lt);
    let ghost s14 = data@;
    proof { lemma_perm_trans(s0, s13, s14, lo as int, hi); lemma_kept_trans(s0, s13, s14, lo as int, stride as int); }
    cx_step(data, lo, stride, 14, 0, 4, lt);
    let ghost s15 = data@;
    proof { lemma_perm_trans(s0, s14, s15, lo as int, hi); lemma_kept_trans(s0, s14, s15, lo as int, stride as int); }
    cx_step(data, lo, stride, 14, 3, 7, lt);
    let ghost s16 = data@;
    proof { lemma_perm_trans(s0, s15, s16, lo as int, hi); lemma_kept_trans(s0, s15, s16, lo as int, stride as int); }
    cx_step(data, lo, stride, 14, 5, 8, lt);
    let ghost s17 = data@;
    proof { lemma_perm_trans(s0, s16, s17, lo as int, hi); lemma_kept_trans(s0, s16, s17, lo as int, stride as int); }
    cx_step(data, lo, stride, 14, 6, 10, lt);
    let ghost s18 = data@;
    proof { lemma_perm_trans(s0, s17, s18, lo as int, hi); lemma_kept_trans(s0, s17, s18, lo as int, stride as int); }
    cx_step(data, lo, stride, 14, 11, 12, lt);
    let ghost s19 = data@;
    proof { lemma_perm_trans(s0, s18, s19, lo as int, hi); lemma_kept_trans(s0, s18, s19, lo as int, stride as int); }
    cx_step(data, lo, stride, 14, 9, 13, lt);
    let ghost s20 = data@;
    proof { lemma_perm_trans(s0, s19, s20, lo as int, hi); lemma_kept_trans(s0, s19, s20, lo as int, stride as int); }
    cx_step(data, lo, stride, 14, 1, 5, lt);
    let ghost s21 = data@;
    proof { lemma_perm_trans(s0, s20, s21, lo as int, hi); lemma_kept_trans(s0, s20, s21, lo as int, stride as int); }
    cx_step(data, lo, stride, 14, 0, 6, lt);
    let ghost s22 = data@;
    proof { lemma_perm_trans(s0, s21, s22, lo as int, hi); lemma_kept_trans(s0, s21, s22, lo as int, stride as int); }
    cx_step(data, lo, stride, 14, 3, 9, lt);
    let ghost s23 = data@;
    proof { lemma_perm_trans(s0, s22, s23, lo as int, hi); lemma_kept_trans(s0, s22, s23, lo as int, stride as int); }
    cx_step(data, lo, stride, 14, 4, 10, lt);
    let ghost s24 = data@;
    proof { lemma_perm_trans(s0, s23, s24, lo as int, hi); lemma_kept_trans(s0, s23, s24, lo as int, stride as int); }
    cx_step(data, lo, stride, 14, 8, 12, lt);
    let ghost s25 = data@;
    proof { lemma_perm_trans(s0, s24, s25, lo as int, hi); lemma_kept_trans(s0, s24, s25, lo as int, stride as int); }
    cx_step(data, lo, stride, 14, 7, 13, lt);
    let ghost s26 = data@;
    proof { lemma_perm_trans(s0, s25, s26, lo as int, hi); lemma_kept_trans(s0, s25, s26, lo as int, stride as int); }
    cx_step(data, lo, stride, 14, 4, 6, lt);
    let ghost s27 = data@;
    proof { lemma_perm_trans(s0, s26, s27, lo as int, hi); lemma_kept_trans(s0, s26, s27, lo as int, stride as int); }
    cx_step(data, lo, stride, 14, 7, 9, lt);
    let ghost s28 = data@;
    proof { lemma_perm_trans(s0, s27, s28, lo as int, hi); lemma_kept_trans(s0, s27, s28, lo as int, stride as int); }
    cx_step(data, lo, stride, 14, 2, 10, lt);
    let ghost s29 = data@;
    proof { lemma_perm_trans(s0, s28, s29, lo as int, hi); lemma_kept_trans(s0, s28, s29, lo as int, stride as int); }
    cx_step(data, lo, stride, 14, 3, 11, lt);
    let ghost s30 = data@;
    proof { lemma_perm_trans(s0, s29, s30, lo as int, hi); lemma_kept_trans(s0, s29, s30, lo as int, stride as int); }
    cx_step(data, lo, stride, 14, 1, 3, lt);
    let ghost s31 = data@;
    proof { lemma_perm_trans(s0, s30, s31, lo as int, hi); lemma_kept_trans(s0, s30, s31, lo as int, stride as int); }
    cx_step(data, lo, stride, 14, 6, 7, lt);
    let ghost s32 = data@;
    proof { lemma_perm_trans(s0, s31, s32, lo as int, hi); lemma_kept_trans(s0, s31, s32, lo as int, stride as int); }
    cx_step(data, lo, stride, 14, 2, 8, lt);
    let ghost s33 = data@;
    proof { lemma_perm_trans(s0, s32, s33, lo as int, hi); lemma_kept_trans(s0, s32, s33, lo as int, stride as int); }
    cx_step(data, lo, stride, 14, 5, 11, lt);
    let ghost s34 = data@;
    proof { lemma_perm_trans(s0, s33, s34, lo as int, hi); lemma_kept_trans(s0, s33, s34, lo as int, stride as int); }
    cx_step(data, lo, stride, 14, 10, 12, lt);
    let ghost s35 = data@;
    proof { lemma_perm_trans(s0, s34, s35, lo as int, hi); lemma_kept_trans(s0, s34, s35, lo as int, stride as int); }
    cx_step(data, lo, stride, 14, 1, 4, lt);
    let ghost s36 = data@;
    proof { lemma_perm_trans(s0, s35, s36, lo as int, hi); lemma_kept_trans(s0, s35, s36, lo as int, stride as int); }
    cx_step(data, lo, stride, 14, 3, 5, lt);
    let ghost s37 = data@;
    proof { lemma_perm_trans(s0, s36, s37, lo as int, hi); lemma_kept_trans(s0, s36, s37, lo as int, stride as int); }
    cx_step(data, lo, stride, 14, 2, 6, lt);
    let ghost s38 = data@;
    proof { lemma_perm_trans(s0, s37, s38, lo as int, hi); lemma_kept_trans(s0, s37, s38, lo as int, stride as int); }
    cx_step(data, lo, stride, 14, 8, 10, lt);
    let ghost s39 = data@;
    proof { lemma_perm_trans(s0, s38, s39, lo as int, hi); lemma_kept_trans(s0, s38, s39, lo as int, stride as int); }
    cx_step(data, lo, stride, 14, 7, 11, lt);
    let ghost s40 = data@;
    proof { lemma_perm_trans(s0, s39, s40, lo as int, hi); lemma_kept_trans(s0, s39, s40, lo as int, stride as int); }
    cx_step(data, lo, stride, 14, 9, 12, lt);
    let ghost s41 = data@;
    proof { lemma_perm_trans(s0, s40, s41, lo as int, hi); lemma_kept_trans(s0, s40, s41, lo as int, stride as int); }
    cx_step(data, lo, stride, 14, 2, 4, lt);
    let ghost s42 = data@;
    proof { lemma_perm_trans(s0, s41, s42, lo as int, hi); lemma_kept_trans(s0, s41, s42, lo as int, stride as int); }
    cx_step(data, lo, stride, 14, 3, 6, lt);
    let ghost s43 = data@;
    proof { lemma_perm_trans(s0, s42, s43, lo as int, hi); lemma_kept_trans(s0, s42, s43, lo as int, stride as int); }
    cx_step(data, lo, stride, 14, 5, 8, lt);
    let ghost s44 = data@;
    proof { lemma_perm_trans(s0, s43, s44, lo as int, hi); lemma_kept_trans(s0, s43, s44, lo as int, stride as int); }
    cx_step(data, lo, stride, 14, 7, 10, lt);
    let ghost s45 = data@;
    proof { lemma_perm_trans(s0, s44, s45, lo as int, hi); lemma_kept_trans(s0, s44, s45, lo as int, stride as int); }
    cx_step(data, lo, stride, 14, 9, 11, lt);
    let ghost s46 = data@;
    proof { lemma_perm_trans(s0, s45, s46, lo as int, hi); lemma_kept_trans(s0, s45, s46, lo as int, stride as int); }
    cx_step(data, lo, stride, 14, 3, 4, lt);
    let ghost s47 = data@;
    proof { lemma_perm_trans(s0, s46, s47, lo as int, hi); lemma_kept_trans(s0, s46, s47, lo as int, stride as int); }
    cx_step(data, lo, stride, 14, 5, 6, lt);
    let ghost s48 = data@;
    proof { lemma_perm_trans(s0, s47, s48, lo as int, hi); lemma_kept_trans(s0, s47, s48, lo as int, stride as int); }
    cx_step(data, lo, stride, 14, 7, 8, lt);
    let ghost s49 = data@;
    proof { lemma_perm_trans(s0, s48, s49, lo as int, hi); lemma_kept_trans(s0, s48, s49, lo as int, stride as int); }
    cx_step(data, lo, stride, 14, 9, 10, lt);
    let ghost s50 = data@;
    proof { lemma_perm_trans(s0, s49, s50, lo as int, hi); lemma_kept_trans(s0, s49, s50, lo as int, stride as int); }
    cx_step(data, lo, stride, 14, 6, 7, lt);
    let ghost s51 = data@;
    proof { lemma_perm_trans(s0, s50, s51, lo as int, hi); lemma_kept_trans(s0, s50, s51, lo as int, stride as int); }
    proof {
        assert forall|less: spec_fn(T, T) -> bool, t: T|
            orders(*lt, less) implies sorted_bits(#[trigger] thr(s51, lo as int, stride as int, t, less, 14), 14u32) by {
            lemma_net14_sorts(thr(s0, lo as int, stride as int, t, less, 14), thr(s1, lo as int, stride as int, t, less, 14), thr(s2, lo as int, stride as int, t, less, 14), thr(s3, lo as int, stride as int, t, less, 14), thr(s4, lo as int, stride as int, t, less, 14), thr(s5, lo as int, stride as int, t, less, 14), thr(s6, lo as int, stride as int, t, less, 14), thr(s7, lo as int, stride as int, t, less, 14), thr(s8, lo as int, stride as int, t, less, 14), thr(s9, lo as int, stride as int, t, less, 14), thr(s10, lo as int, stride as int, t, less, 14), thr(s11, lo as int, stride as int, t, less, 14), thr(s12, lo as int, stride as int, t, less, 14), thr(s13, lo as int, stride as int, t, less, 14), thr(s14, lo as int, stride as int, t, less, 14), thr(s15, lo as int, stride as int, t, less, 14), thr(s16, lo as int, stride as int, t, less, 14), thr(s17, lo as int, stride as int, t, less, 14), thr(s18, lo as int, stride as int, t, less, 14), thr(s19, lo as int, stride as int, t, less, 14), thr(s20, lo as int, stride as int, t, less, 14), thr(s21, lo as int, stride as int, t, less, 14), thr(s22, lo as int, stride as int, t, less, 14), thr(s23, lo as int, stride as int, t, less, 14), thr(s24, lo as int, stride as int, t, less, 14), thr(s25, lo as int, stride as int, t, less, 14), thr(s26, lo as int, stride as int, t, less, 14), thr(s27, lo as int, stride as int, t, less, 14), thr(s28, lo as int, stride as int, t, less, 14), thr(s29, lo as int, stride as int, t, less, 14), thr(s30, lo as int, stride as int, t, less, 14), thr(s31, lo as int, stride as int, t, less, 14), thr(s32, lo as int, stride as int, t, less, 14), thr(s33, lo as int, stride as int, t, less, 14), thr(s34, lo as int, stride as int, t, less, 14), thr(s35, lo as int, stride as int, t, less, 14), thr(s36, lo as int, stride as int, t, less, 14), thr(s37, lo as int, stride as int, t, less, 14), thr(s38, lo as int, stride as int, t, less, 14), thr(s39, lo as int, stride as int, t, less, 14), thr(s40, lo as int, stride as int, t, less, 14), thr(s41, lo as int, stride as int, t, less, 14), thr(s42, lo as int, stride as int, t, less, 14), thr(s43, lo as int, stride as int, t, less, 14), thr(s44, lo as int, stride as int, t, less, 14), thr(s45, lo as int, stride as int, t, less, 14), thr(s46, lo as int, stride as int, t, less, 14), thr(s47, lo as int, stride as int, t, less, 14), thr(s48, lo as int, stride as int, t, less, 14), thr(s49, lo as int, stride as int, t, less, 14), thr(s50, lo as int, stride as int, t, less, 14), thr(s51, lo as int, stride as int, t, less, 14));
        }
        lemma_network_sorted(*lt, s51, lo as int, stride as int, 14);
    }
}

/// The bit network on 15 elements sorts every word: `x56` is the word `x0` after all steps.
proof fn lemma_net15_sorts(x0: u32, x1: u32, x2: u32, x3: u32, x4: u32, x5: u32, x6: u32, x7: u32, x8: u32, x9: u32, x10: u32, x11: u32, x12: u32, x13: u32, x14: u32, x15: u32, x16: u32, x17: u32, x18: u32, x19: u32, x20: u32, x21: u32, x22: u32, x23: u32, x24: u32, x25: u32, x26: u32, x27: u32, x28: u32, x29: u32, x30: u32, x31: u32, x32: u32, x33: u32, x34: u32, x35: u32, x36: u32, x37: u32, x38: u32, x39: u32, x40: u32, x41: u32, x42: u32, x43: u32, x44: u32, x45: u32, x46: u32, x47: u32, x48: u32, x49: u32, x50: u32, x51: u32, x52: u32, x53: u32, x54: u32, x55: u32, x56: u32)
    by (bit_vector)
    requires
        x1 == cx(x0, 1, 2),
        x2 == cx(x1, 5, 8),
        x3 == cx(x2, 3, 10),
        x4 == cx(x3, 9, 11),
        x5 == cx(x4, 7, 12),
        x6 == cx(x5, 6, 13),
        x7 == cx(x6, 4, 14),
        x8 == cx(x7, 1, 5),
        x9 == cx(x8, 3, 7),
        x10 == cx(x9, 2, 8),
        x11 == cx(x10, 6, 9),
        x12 == cx(x11, 10, 12),
        x13 == cx(x12, 11, 13),
        x14 == cx(x13, 0, 14),
        x15 == cx(x14, 1, 6),
        x16 == cx(x15, 0, 7),
        x17 == cx(x16, 2, 9),
        x18 == cx(x17, 4, 10),
        x19 == cx(x18, 5, 11),
        x20 == cx(x19, 8, 13),
        x21 == cx(x20, 12, 14),
        x22 == cx(x21, 2, 4),
        x23 == cx(x22, 3, 5),
        x24 == cx(x23, 0, 6),
        x25 == cx(x24, 8, 10),
        x26 == cx(x25, 7, 11),
        x27 == cx(x26, 9, 12),
        x28 == cx(x27, 13, 14),
        x29 == cx(x28, 1, 2),
        x30 == cx(x29, 0, 3),
        x31 == cx(x30, 4, 7),
        x32 == cx(x31, 6, 8),
        x33 == cx(x32, 5, 9),
        x34 == cx(x33, 10, 11),
        x35 == cx(x34, 12, 13),
        x36 == cx(x35, 0, 1),
        x37 == cx(x36, 2, 3),
        x38 == cx(x37, 4, 6),
        x39 == cx(x38, 7, 9),
        x40 == cx(x39, 10, 12),
        x41 == cx(x40, 11, 13),
        x42 == cx(x41, 1, 2),
        x43 == cx(x42, 3, 5),
        x44 == cx(x43, 8, 10),
        x45 == cx(x44, 11, 12),
        x46 == cx(x45, 3, 4),
        x47 == cx(x46, 5, 6),
        x48 == cx(x47, 7, 8),
        x49 == cx(x48, 9, 10),
        x50 == cx(x49, 2, 3),
        x51 == cx(x50, 4, 5),
        x52 == cx(x51, 6, 7),
        x53 == cx(x52, 8, 9),
        x54 == cx(x53, 10, 11),
        x55 == cx(x54, 5, 6),
        x56 == cx(x55, 7, 8),
    ensures
        sorted_bits(x56, 15u32),
{
}

/// Sorts the 15 elements at positions `lo + k * stride` with a network of 56 compare-exchanges.
pub fn sort15<T, F: Fn(&T, &T) -> bool>(data: &mut [T], lo: usize, stride: usize, lt: &F)
    requires
        total(*lt),
        stride > 0,
        last_at(lo as int, stride as int, 15) < old(data)@.len(),
    ensures
        perm_in(old(data)@, final(data)@, lo as int, last_at(lo as int, stride as int, 15) + 1),
        off_stride_kept(old(data)@, final(data)@, lo as int, stride as int),
        sorted_at(*lt, final(data)@, lo as int, stride as int, 15),
{
    let ghost s0 = data@;
    let ghost hi = last_at(lo as int, stride as int, 15) + 1;
    proof { lemma_perm_refl(s0, lo as int, hi); }
    cx_step(data, lo, stride, 15, 1, 2, lt);
    let ghost s1 = data@;
    proof { lemma_perm_trans(s0, s0, s1, lo as int, hi); lemma_kept_trans(s0, s0, s1, lo as int, stride as int); }
    cx_step(data, lo, stride, 15, 5, 8, lt);
    let ghost s2 = data@;
    proof { lemma_perm_trans(s0, s1, s2, lo as int, hi); lemma_kept_trans(s0, s1, s2, lo as int, stride as int); }
    cx_step(data, lo, stride, 15, 3, 10, lt);
    let ghost s3 = data@;
    proof { lemma_perm_trans(s0, s2, s3, lo as int, hi); lemma_kept_trans(s0, s2, s3, lo as int, stride as int); }
    cx_step(data, lo, stride, 15, 9, 11, lt);
    let ghost s4 = data@;
    proof { lemma_perm_trans(s0, s3, s4, lo as int, hi); lemma_kept_trans(s0, s3, s4, lo as int, stride as int); }
    cx_step(data, lo, stride, 15, 7, 12, lt);
    let ghost s5 = data@;
    proof { lemma_perm_trans(s0, s4, s5, lo as int, hi); lemma_kept_trans(s0, s4, s5, lo as int, stride as int); }
    cx_step(data, lo, stride, 15, 6, 13, lt);
    let ghost s6 = data@;
    proof { lemma_perm_trans(s0, s5, s6, lo as int, hi); lemma_kept_trans(s0, s5, s6, lo as int, stride as int); }
    cx_step(data, lo, stride, 15, 4, 14, lt);
    let ghost s7 = data@;
    proof { lemma_perm_trans(s0, s6, s7, lo as int, hi); lemma_kept_trans(s0, s6, s7, lo as int, stride as int); }
    cx_step(data, lo, stride, 15, 1, 5, lt);
    let ghost s8 = data@;
    proof { lemma_perm_trans(s0, s7, s8, lo as int, hi); lemma_kept_trans(s0, s7, s8, lo as int, stride as int); }
    cx_step(data, lo, stride, 15, 3, 7, lt);
    let ghost s9 = data@;
    proof { lemma_perm_trans(s0, s8, s9, lo as int, hi); lemma_kept_trans(s0, s8, s9, lo as int, stride as int); }
    cx_step(data, lo, stride, 15, 2, 8, lt);
    let ghost s10 = data@;
    proof { lemma_perm_trans(s0, s9, s10, lo as int, hi); lemma_kept_trans(s0, s9, s10, lo as int, stride as int); }
    cx_step(data, lo, stride, 15, 6, 9, lt);
    let ghost s11 = data@;
    proof { lemma_perm_trans(s0, s10, s11, lo as int, hi); lemma_kept_trans(s0, s10, s11, lo as int, stride as int); }
    cx_step(data, lo, stride, 15, 10, 12, lt);
    let ghost s12 = data@;
    proof { lemma_perm_trans(s0, s11, s12, lo as int, hi); lemma_kept_trans(s0, s11, s12, lo as int, stride as int); }
    cx_step(data, lo, stride, 15, 11, 13, lt);
    let ghost s13 = data@;
    proof { lemma_perm_trans(s0, s12, s13, lo as int, hi); lemma_kept_trans(s0, s12, s13, lo as int, stride as int); }
    cx_step(data, lo, stride, 15, 0, 14, lt);
    let ghost s14 = data@;
    proof { lemma_perm_trans(s0, s13, s14, lo as int, hi); lemma_kept_trans(s0, s13, s14, lo as int, stride as int); }
    cx_step(data, lo, stride, 15, 1, 6, lt);
    let ghost s15 = data@;
    proof { lemma_perm_trans(s0, s14, s15, lo as int, hi); lemma_kept_trans(s0, s14, s15, lo as int, stride as int); }
    cx_step(data, lo, stride, 15, 0, 7, lt);
    let ghost s16 = data@;
    proof { lemma_perm_trans(s0, s15, s16, lo as int, hi); lemma_kept_trans(s0, s15, s16, lo as int, stride as int); }
    cx_step(data, lo, stride, 15, 2, 9, lt);
    let ghost s17 = data@;
    proof { lemma_perm_trans(s0, s16, s17, lo as int, hi); lemma_kept_trans(s0, s16, s17, lo as int, stride as int); }
    cx_step(data, lo, stride, 15, 4, 10, lt);
    let ghost s18 = data@;
    proof { lemma_perm_trans(s0, s17, s18, lo as int, hi); lemma_kept_trans(s0, s17, s18, lo as int, stride as int); }
    cx_step(data, lo, stride, 15, 5, 11, lt);
    let ghost s19 = data@;
    proof { lemma_perm_trans(s0, s18, s19, lo as int, hi); lemma_kept_trans(s0, s18, s19, lo as int, stride as int); }
    cx_step(data, lo, stride, 15, 8, 13, lt);
    let ghost s20 = data@;
    proof { lemma_perm_trans(s0, s19, s20, lo as int, hi); lemma_kept_trans(s0, s19, s20, lo as int, stride as int); }
    cx_step(data, lo, stride, 15, 12, 14, lt);
    let ghost s21 = data@;
    proof { lemma_perm_trans(s0, s20, s21, lo as int, hi); lemma_kept_trans(s0, s20, s21, lo as int, stride as int); }
    cx_step(data, lo, stride, 15, 2, 4, lt);
    let ghost s22 = data@;
    proof { lemma_perm_trans(s0, s21, s22, lo as int, hi); lemma_kept_trans(s0, s21, s22, lo as int, stride as int); }
    cx_step(data, lo, stride, 15, 3, 5, lt);
    let ghost s23 = data@;
    proof { lemma_perm_trans(s0, s22, s23, lo as int, hi); lemma_kept_trans(s0, s22, s23, lo as int, stride as int); }
    cx_step(data, lo, stride, 15, 0, 6, lt);
    let ghost s24 = data@;
    proof { lemma_perm_trans(s0, s23, s24, lo as int, hi); lemma_kept_trans(s0, s23, s24, lo as int, stride as int); }
    cx_step(data, lo, stride, 15, 8, 10, lt);
    let ghost s25 = data@;
    proof { lemma_perm_trans(s0, s24, s25, lo as int, hi); lemma_kept_trans(s0, s24, s25, lo as int, stride as int); }
    cx_step(data, lo, stride, 15, 7, 11, lt);
    let ghost s26 = data@;
    proof { lemma_perm_trans(s0, s25, s26, lo as int, hi); lemma_kept_trans(s0, s25, s26, lo as int, stride as int); }
    cx_step(data, lo, stride, 15, 9, 12, lt);
    let ghost s27 = data@;
    proof { lemma_perm_trans(s0, s26, s27, lo as int, hi); lemma_kept_trans(s0, s26, s27, lo as int, stride as int); }
    cx_step(data, lo, stride, 15, 13, 14, lt);
    let ghost s28 = data@;
    proof { lemma_perm_trans(s0, s27, s28, lo as int, hi); lemma_kept_trans(s0, s27, s28, lo as int, stride as int); }
    cx_step(data, lo, stride, 15, 1, 2, lt);
    let ghost s29 = data@;
    proof { lemma_perm_trans(s0, s28, s29, lo as int, hi); lemma_kept_trans(s0, s28, s29, lo as int, stride as int); }
    cx_step(data, lo, stride, 15, 0, 3, lt);
    let ghost s30 = data@;
    proof { lemma_perm_trans(s0, s29, s30, lo as int, hi); lemma_kept_trans(s0, s29, s30, lo as int, stride as int); }
    cx_step(data, lo, stride, 15, 4, 7, lt);
    let ghost s31 = data@;
    proof { lemma_perm_trans(s0, s30, s31, lo as int, hi); lemma_kept_trans(s0, s30, s31, lo as int, stride as int); }
    cx_step(data, lo, stride, 15, 6, 8, lt);
    let ghost s32 = data@;
    proof { lemma_perm_trans(s0, s31, s32, lo as int, hi); lemma_kept_trans(s0, s31, s32, lo as int, stride as int); }
    cx_step(data, lo, stride, 15, 5, 9, lt);
    let ghost s33 = data@;
    proof { lemma_perm_trans(s0, s32, s33, lo as int, hi); lemma_kept_trans(s0, s32, s33, lo as int, stride as int); }
    cx_step(data, lo, stride, 15, 10, 11, lt);
    let ghost s34 = data@;
    proof { lemma_perm_trans(s0, s33, s34, lo as int, hi); lemma_kept_trans(s0, s33, s34, lo as int, stride as int); }
    cx_step(data, lo, stride, 15, 12, 13, lt);
    let ghost s35 = data@;
    proof { lemma_perm_trans(s0, s34, s35, lo as int, hi); lemma_kept_trans(s0, s34, s35, lo as int, stride as int); }
    cx_step(data, lo, stride, 15, 0, 1, lt);
    let ghost s36 = data@;
    proof { lemma_perm_trans(s0, s35, s36, lo as int, hi); lemma_kept_trans(s0, s35, s36, lo as int, stride as int); }
    cx_step(data, lo, stride, 15, 2, 3, lt);
    let ghost s37 = data@;
    proof { lemma_perm_trans(s0, s36, s37, lo as int, hi); lemma_kept_trans(s0, s36, s37, lo as int, stride as int); }
    cx_step(data, lo, stride, 15, 4, 6, lt);
    let ghost s38 = data@;
    proof { lemma_perm_trans(s0, s37, s38, lo as int, hi); lemma_kept_trans(s0, s37, s38, lo as int, stride as int); }
    cx_step(data, lo, stride, 15, 7, 9, lt);
    let ghost s39 = data@;
    proof { lemma_perm_trans(s0, s38, s39, lo as int, hi); lemma_kept_trans(s0, s38, s39, lo as int, stride as int); }
    cx_step(data, lo, stride, 15, 10, 12, lt);
    let ghost s40 = data@;
    proof { lemma_perm_trans(s0, s39, s40, lo as int, hi); lemma_kept_trans(s0, s39, s40, lo as int, stride as int); }
    cx_step(data, lo, stride, 15, 11, 13, lt);
    let ghost s41 = data@;
    proof { lemma_perm_trans(s0, s40, s41, lo as int, hi); lemma_kept_trans(s0, s40, s41, lo as int, stride as int); }
    cx_step(data, lo, stride, 15, 1, 2, lt);
    let ghost s42 = data@;
    proof { lemma_perm_trans(s0, s41, s42, lo as int, hi); lemma_kept_trans(s0, s41, s42, lo as int, stride as int); }
    cx_step(data, lo, stride, 15, 3, 5, lt);
    let ghost s43 = data@;
    proof { lemma_perm_trans(s0, s42, s43, lo as int, hi); lemma_kept_trans(s0, s42, s43, lo as int, stride as int); }
    cx_step(data, lo, stride, 15, 8, 10, lt);
    let ghost s44 = data@;
    proof { lemma_perm_trans(s0, s43, s44, lo as int, hi); lemma_kept_trans(s0, s43, s44, lo as int, stride as int); }
    cx_step(data, lo, stride, 15, 11, 12, lt);
    let ghost s45 = data@;
    proof { lemma_perm_trans(s0, s44, s45, lo as int, hi); lemma_kept_trans(s0, s44, s45, lo as int, stride as int); }
    cx_step(data, lo, stride, 15, 3, 4, lt);
    let ghost s46 = data@;
    proof { lemma_perm_trans(s0, s45, s46, lo as int, hi); lemma_kept_trans(s0, s45, s46, lo as int, stride as int); }
    cx_step(data, lo, stride, 15, 5, 6, lt);
    let ghost s47 = data@;
    proof { lemma_perm_trans(s0, s46, s47, lo as int, hi); lemma_kept_trans(s0, s46, s47, lo as int, stride as int); }
    cx_step(data, lo, stride, 15, 7, 8, lt);
    let ghost s48 = data@;
    proof { lemma_perm_trans(s0, s47, s48, lo as int, hi); lemma_kept_trans(s0, s47, s48, lo as int, stride as int); }
    cx_step(data, lo, stride, 15, 9, 10, lt);
    let ghost s49 = data@;
    proof { lemma_perm_trans(s0, s48, s49, lo as int, hi); lemma_kept_trans(s0, s48, s49, lo as int, stride as int); }
    cx_step(data, lo, stride, 15, 2, 3, lt);
    let ghost s50 = data@;
    proof { lemma_perm_trans(s0, s49, s50, lo as int, hi); lemma_kept_trans(s0, s49, s50, lo as int, stride as int); }
    cx_step(data, lo, stride, 15, 4, 5, lt);
    let ghost s51 = data@;
    proof { lemma_perm_trans(s0, s50, s51, lo as int, hi); lemma_kept_trans(s0, s50, s51, lo as int, stride as int); }
    cx_step(data, lo, stride, 15, 6, 7, lt);
    let ghost s52 = data@;
    proof { lemma_perm_trans(s0, s51, s52, lo as int, hi); lemma_kept_trans(s0, s51, s52, lo as int, stride as int); }
    cx_step(data, lo, stride, 15, 8, 9, lt);
    let ghost s53 = data@;
    proof { lemma_perm_trans(s0, s52, s53, lo as int, hi); lemma_kept_trans(s0, s52, s53, lo as int, stride as int); }
    cx_step(data, lo, stride, 15, 10, 11, lt);
    let ghost s54 = data@;
    proof { lemma_perm_trans(s0, s53, s54, lo as int, hi); lemma_kept_trans(s0, s53, s54, lo as int, stride as int); }
    cx_step(data, lo, stride, 15, 5, 6, lt);
    let ghost s55 = data@;
    proof { lemma_perm_trans(s0, s54, s55, lo as int, hi); lemma_kept_trans(s0, s54, s55, lo as int, stride as int); }
    cx_step(data, lo, stride, 15, 7, 8, lt);
    let ghost s56 = data@;
    proof { lemma_perm_trans(s0, s55, s56, lo as int, hi); lemma_kept_trans(s0, s55, s56, lo as int, stride as int); }
    proof {
        assert forall|less: spec_fn(T, T) -> bool, t: T|
            orders(*lt, less) implies sorted_bits(#[trigger] thr(s56, lo as int, stride as int, t, less, 15), 15u32) by {
            lemma_net15_sorts(thr(s0, lo as int, stride as int, t, less, 15), thr(s1, lo as int, stride as int, t, less, 15), thr(s2, lo as int, stride as int, t, less, 15), thr(s3, lo as int, stride as int, t, less, 15), thr(s4, lo as int, stride as int, t, less, 15), thr(s5, lo as int, stride as int, t, less, 15), thr(s6, lo as int, stride as int, t, less, 15), thr(s7, lo as int, stride as int, t, less, 15), thr(s8, lo as int, stride as int, t, less, 15), thr(s9, lo as int, stride as int, t, less, 15), thr(s10, lo as int, stride as int, t, less, 15), thr(s11, lo as int, stride as int, t, less, 15), thr(s12, lo as int, stride as int, t, less, 15), thr(s13, lo as int, stride as int, t, less, 15), thr(s14, lo as int, stride as int, t, less, 15), thr(s15, lo as int, stride as int, t, less, 15), thr(s16, lo as int, stride as int, t, less, 15), thr(s17, lo as int, stride as int, t, less, 15), thr(s18, lo as int, stride as int, t, less, 15), thr(s19, lo as int, stride as int, t, less, 15), thr(s20, lo as int, stride as int, t, less, 15), thr(s21, lo as int, stride as int, t, less, 15), thr(s22, lo as int, stride as int, t, less, 15), thr(s23, lo as int, stride as int, t, less, 15), thr(s24, lo as int, stride as int, t, less, 15), thr(s25, lo as int, stride as int, t, less, 15), thr(s26, lo as int, stride as int, t, less, 15), thr(s27, lo as int, stride as int, t, less, 15), thr(s28, lo as int, stride as int, t, less, 15), thr(s29, lo as int, stride as int, t, less, 15), thr(s30, lo as int, stride as int, t, less, 15), thr(s31, lo as int, stride as int, t, less, 15), thr(s32, lo as int, stride as int, t, less, 15), thr(s33, lo as int, stride as int, t, less, 15), thr(s34, lo as int, stride as int, t, less, 15), thr(s35, lo as int, stride as int, t, less, 15), thr(s36, lo as int, stride as int, t, less, 15), thr(s37, lo as int, stride as int, t, less, 15), thr(s38, lo as int, stride as int, t, less, 15), thr(s39, lo as int, stride as int, t, less, 15), thr(s40, lo as int, stride as int, t, less, 15), thr(s41, lo as int, stride as int, t, less, 15), thr(s42, lo as int, stride as int, t, less, 15), thr(s43, lo as int, stride as int, t, less, 15), thr(s44, lo as int, stride as int, t, less, 15), thr(s45, lo as int, stride as int, t, less, 15), thr(s46, lo as int, stride as int, t, less, 15), thr(s47, lo as int, stride as int, t, less, 15), thr(s48, lo as int, stride as int, t, less, 15), thr(s49, lo as int, stride as int, t, less, 15), thr(s50, lo as int, stride as int, t, less, 15), thr(s51, lo as int, stride as int, t, less, 15), thr(s52, lo as int, stride as int, t, less, 15), thr(s53, lo as int, stride as int, t, less, 15), thr(s54, lo as int, stride as int, t, less, 15), thr(s55, lo as int, stride as int, t, less, 15), thr(s56, lo as int, stride as int, t, less, 15));
        }
        lemma_network_sorted(*lt, s56, lo as int, stride as int, 15);
    }
}

/// The bit network on 16 elements sorts every word: `x60` is the word `x0` after all steps.
proof fn lemma_net16_sorts(x0: u32, x1: u32, x2: u32, x3: u32, x4: u32, x5: u32, x6: u32, x7: u32, x8: u32, x9: u32, x10: u32, x11: u32, x12: u32, x13: u32, x14: u32, x15: u32, x16: u32, x17: u32, x18: u32, x19: u32, x20: u32, x21: u32, x22: u32, x23: u32, x24: u32, x25: u32, x26: u32, x27: u32, x28: u32, x29: u32, x30: u32, x31: u32, x32: u32, x33: u32, x34: u32, x35: u32, x36: u32, x37: u32, x38: u32, x39: u32, x40: u32, x41: u32, x42: u32, x43: u32, x44: u32, x45: u32, x46: u32, x47: u32, x48: u32, x49: u32, x50: u32, x51: u32, x52: u32, x53: u32, x54: u32, x55: u32, x56: u32, x57: u32, x58: u32, x59: u32, x60: u32)
    by (bit_vector)
    requires
        x1 == cx(x0, 5, 6),
        x2 == cx(x1, 4, 8),
        x3 == cx(x2, 9, 10),
        x4 == cx(x3, 7, 11),
        x5 == cx(x4, 1, 12),
        x6 == cx(x5, 0, 13),
        x7 == cx(x6, 3, 14),
        x8 == cx(x7, 2, 15),
        x9 == cx(x8, 3, 4),
        x10 == cx(x9, 0, 5),
        x11 == cx(x10, 1, 7),
        x12 == cx(x11, 2, 9),
        x13 == cx(x12, 11, 12),
        x14 == cx(x13, 6, 13),
        x15 == cx(x14, 8, 14),
        x16 == cx(x15, 10, 15),
        x17 == cx(x16, 0, 1),
        x18 == cx(x17, 2, 3),
        x19 == cx(x18, 4, 5),
        x20 == cx(x19, 6, 8),
        x21 == cx(x20, 7, 9),
        x22 == cx(x21, 10, 11),
        x23 == cx(x22, 12, 13),
        x24 == cx(x23, 14, 15),
        x25 == cx(x24, 0, 2),
        x26 == cx(x25, 1, 3),
        x27 == cx(x26, 6, 7),
        x28 == cx(x27, 8, 9),
        x29 == cx(x28, 4, 10),
        x30 == cx(x29, 5, 11),
        x31 == cx(x30, 12, 14),
        x32 == cx(x31, 13, 15),
        x33 == cx(x32, 1, 2),
        x34 == cx(x33, 4, 6),
        x35 == cx(x34, 5, 7),
        x36 == cx(x35, 8, 10),
        x37 == cx(x36, 9, 11),
        x38 == cx(x37, 3, 12),
        x39 == cx(x38, 13, 14),
        x40 == cx(x39, 1, 4),
        x41 == cx(x40, 2, 6),
        x42 == cx(x41, 5, 8),
        x43 == cx(x42, 7, 10),
        x44 == cx(x43, 9, 13),
        x45 == cx(x44, 11, 14),
        x46 == cx(x45, 2, 4),
        x47 == cx(x46, 3, 6),
        x48 == cx(x47, 9, 12),
        x49 == cx(x48, 11, 13),
        x50 == cx(x49, 3, 5),
        x51 == cx(x50, 6, 8),
        x52 == cx(x51, 7, 9),
        x53 == cx(x52, 10, 12),
        x54 == cx(x53, 3, 4),
        x55 == cx(x54, 5, 6),
        x56 == cx(x55, 7, 8),
        x57 == cx(x56, 9, 10),
        x58 == cx(x57, 11, 12),
        x59 == cx(x58, 6, 7),
        x60 == cx(x59, 8, 9),
    ensures
        sorted_bits(x60, 16u32),
{
}

/// Sorts the 16 elements at positions `lo + k * stride` with a network of 60 compare-exchanges.
pub fn sort16<T, F: Fn(&T, &T) -> bool>(data: &mut [T], lo: usize, stride: usize, lt: &F)
    requires
        total(*lt),
        stride > 0,
        last_at(lo as int, stride as int, 16) < old(data)@.len(),
    ensures
        perm_in(old(data)@, final(data)@, lo as int, last_at(lo as int, stride as int, 16) + 1),
        off_stride_kept(old(data)@, final(data)@, lo as int, stride as int),
        sorted_at(*lt, final(data)@, lo as int, stride as int, 16),
{
    let ghost s0 = data@;
    let ghost hi = last_at(lo as int, stride as int, 16) + 1;
    proof { lemma_perm_refl(s0, lo as int, hi); }
    cx_step(data, lo, stride, 16, 5, 6, lt);
    let ghost s1 = data@;
    proof { lemma_perm_trans(s0, s0, s1, lo as int, hi); lemma_kept_trans(s0, s0, s1, lo as int, stride as int); }
    cx_step(data, lo, stride, 16, 4, 8, lt);
    let ghost s2 = data@;
    proof { lemma_perm_trans(s0, s1, s2, lo as int, hi); lemma_kept_trans(s0, s1, s2, lo as int, stride as int); }
    cx_step(data, lo, stride, 16, 9, 10, lt);
    let ghost s3 = data@;
    proof { lemma_perm_trans(s0, s2, s3, lo as int, hi); lemma_kept_trans(s0, s2, s3, lo as int, stride as int); }
    cx_step(data, lo, stride, 16, 7, 11, lt);
    let ghost s4 = data@;
    proof { lemma_perm_trans(s0, s3, s4, lo as int, hi); lemma_kept_trans(s0, s3, s4, lo as int, stride as int); }
    cx_step(data, lo, stride, 16, 1, 12, lt);
    let ghost s5 = data@;
    proof { lemma_perm_trans(s0, s4, s5, lo as int, hi); lemma_kept_trans(s0, s4, s5, lo as int, stride as int); }
    cx_step(data, lo, stride, 16, 0, 13, lt);
    let ghost s6 = data@;
    proof { lemma_perm_trans(s0, s5, s6, lo as int, hi); lemma_kept_trans(s0, s5, s6, lo as int, stride as int); }
    cx_step(data, lo, stride, 16, 3, 14, lt);
    let ghost s7 = data@;
    proof { lemma_perm_trans(s0, s6, s7, lo as int, hi); lemma_kept_trans(s0, s6, s7, lo as int, stride as int); }
    cx_step(data, lo, stride, 16, 2, 15, lt);
    let ghost s8 = data@;
    proof { lemma_perm_trans(s0, s7, s8, lo as int, hi); lemma_kept_trans(s0, s7, s8, lo as int, stride as int); }
    cx_step(data, lo, stride, 16, 3, 4, lt);
    let ghost s9 = data@;
    proof { lemma_perm_trans(s0, s8, s9, lo as int, hi); lemma_kept_trans(s0, s8, s9, lo as int, stride as int); }
    cx_step(data, lo, stride, 16, 0, 5, lt);
    let ghost s10 = data@;
    proof { lemma_perm_trans(s0, s9, s10, lo as int, hi); lemma_kept_trans(s0, s9, s10, lo as int, stride as int); }
    cx_step(data, lo, stride, 16, 1, 7, lt);
    let ghost s11 = data@;
    proof { lemma_perm_trans(s0, s10, s11, lo as int, hi); lemma_kept_trans(s0, s10, s11, lo as int, stride as int); }
    cx_step(data, lo, stride, 16, 2, 9, lt);
    let ghost s12 = data@;
    proof { lemma_perm_trans(s0, s11, s12, lo as int, hi); lemma_kept_trans(s0, s11, s12, lo as int, stride as int); }
    cx_step(data, lo, stride, 16, 11, 12, lt);
    let ghost s13 = data@;
    proof { lemma_perm_trans(s0, s12, s13, lo as int, hi); lemma_kept_trans(s0, s12, s13, lo as int, stride as int); }
    cx_step(data, lo, stride, 16, 6, 13, lt);
    let ghost s14 = data@;
    proof { lemma_perm_trans(s0, s13, s14, lo as int, hi); lemma_kept_trans(s0, s13, s14, lo as int, stride as int); }
    cx_step(data, lo, stride, 16, 8, 14, lt);
    let ghost s15 = data@;
    proof { lemma_perm_trans(s0, s14, s15, lo as int, hi); lemma_kept_trans(s0, s14, s15, lo as int, stride as int); }
    cx_step(data, lo, stride, 16, 10, 15, lt);
    let ghost s16 = data@;
    proof { lemma_perm_trans(s0, s15, s16, lo as int, hi); lemma_kept_trans(s0, s15, s16, lo as int, stride as int); }
    cx_step(data, lo, stride, 16, 0, 1, lt);
    let ghost s17 = data@;
    proof { lemma_perm_trans(s0, s16, s17, lo as int, hi); lemma_kept_trans(s0, s16, s17, lo as int, stride as int); }
    cx_step(data, lo, stride, 16, 2, 3, lt);
    let ghost s18 = data@;
    proof { lemma_perm_trans(s0, s17, s18, lo as int, hi); lemma_kept_trans(s0, s17, s18, lo as int, stride as int); }
    cx_step(data, lo, stride, 16, 4, 5, lt);
    let ghost s19 = data@;
    proof { lemma_perm_trans(s0, s18, s19, lo as int, hi); lemma_kept_trans(s0, s18, s19, lo as int, stride as int); }
    cx_step(data, lo, stride, 16, 6, 8, lt);
    let ghost s20 = data@;
    proof { lemma_perm_trans(s0, s19, s20, lo as int, hi); lemma_kept_trans(s0, s19, s20, lo as int, stride as int); }
    cx_step(data, lo, stride, 16, 7, 9, lt);
    let ghost s21 = data@;
    proof { lemma_perm_trans(s0, s20, s21, lo as int, hi); lemma_kept_trans(s0, s20, s21, lo as int, stride as int); }
    cx_step(data, lo, stride, 16, 10, 11, lt);
    let ghost s22 = data@;
    proof { lemma_perm_trans(s0, s21, s22, lo as int, hi); lemma_kept_trans(s0, s21, s22, lo as int, stride as int); }
    cx_step(data, lo, stride, 16, 12, 13, lt);
    let ghost s23 = data@;
    proof { lemma_perm_trans(s0, s22, s23, lo as int, hi); lemma_kept_trans(s0, s22, s23, lo as int, stride as int); }
    cx_step(data, lo, stride, 16, 14, 15, lt);
    let ghost s24 = data@;
    proof { lemma_perm_trans(s0, s23, s24, lo as int, hi); lemma_kept_trans(s0, s23, s24, lo as int, stride as int); }
    cx_step(data, lo, stride, 16, 0, 2, lt);
    let ghost s25 = data@;
    proof { lemma_perm_trans(s0, s24, s25, lo as int, hi); lemma_kept_trans(s0, s24, s25, lo as int, stride as int); }
    cx_step(data, lo, stride, 16, 1, 3, lt);
    let ghost s26 = data@;
    proof { lemma_perm_trans(s0, s25, s26, lo as int, hi); lemma_kept_trans(s0, s25, s26, lo as int, stride as int); }
    cx_step(data, lo, stride, 16, 6, 7, lt);
    let ghost s27 = data@;
    proof { lemma_perm_trans(s0, s26, s27, lo as int, hi); lemma_kept_trans(s0, s26, s27, lo as int, stride as int); }
    cx_step(data, lo, stride, 16, 8, 9, lt);
    let ghost s28 = data@;
    proof { lemma_perm_trans(s0, s27, s28, lo as int, hi); lemma_kept_trans(s0, s27, s28, lo as int, stride as int); }
    cx_step(data, lo, stride, 16, 4, 10, lt);
    let ghost s29 = data@;
    proof { lemma_perm_trans(s0, s28, s29, lo as int, hi); lemma_kept_trans(s0, s28, s29, lo as int, stride as int); }
    cx_step(data, lo, stride, 16, 5, 11, lt);
    let ghost s30 = data@;
    proof { lemma_perm_trans(s0, s29, s30, lo as int, hi); lemma_kept_trans(s0, s29, s30, lo as int, stride as int); }
    cx_step(data, lo, stride, 16, 12, 14, lt);
    let ghost s31 = data@;
    proof { lemma_perm_trans(s0, s30, s31, lo as int, hi); lemma_kept_trans(s0, s30, s31, lo as int, stride as int); }
    cx_step(data, lo, stride, 16, 13, 15, lt);
    let ghost s32 = data@;
    proof { lemma_perm_trans(s0, s31, s32, lo as int, hi); lemma_kept_trans(s0, s31, s32, lo as int, stride as int); }
    cx_step(data, lo, stride, 16, 1, 2, lt);
    let ghost s33 = data@;
    proof { lemma_perm_trans(s0, s32, s33, lo as int, hi); lemma_kept_trans(s0, s32, s33, lo as int, stride as int); }
    cx_step(data, lo, stride, 16, 4, 6, lt);
    let ghost s34 = data@;
    proof { lemma_perm_trans(s0, s33, s34, lo as int, hi); lemma_kept_trans(s0, s33, s34, lo as int, stride as int); }
    cx_step(data, lo, stride, 16, 5, 7, lt);
    let ghost s35 = data@;
    proof { lemma_perm_trans(s0, s34, s35, lo as int, hi); lemma_kept_trans(s0, s34, s35, lo as int, stride as int); }
    cx_step(data, lo, stride, 16, 8, 10, lt);
    let ghost s36 = data@;
    proof { lemma_perm_trans(s0, s35, s36, lo as int, hi); lemma_kept_trans(s0, s35, s36, lo as int, stride as int); }
    cx_step(data, lo, stride, 16, 9, 11, lt);
    let ghost s37 = data@;
    proof { lemma_perm_trans(s0, s36, s37, lo as int, hi); lemma_kept_trans(s0, s36, s37, lo as int, stride as int); }
    cx_step(data, lo, stride, 16, 3, 12, lt);
    let ghost s38 = data@;
    proof { lemma_perm_trans(s0, s37, s38, lo as int, hi); lemma_kept_trans(s0, s37, s38, lo as int, stride as int); }
    cx_step(data, lo, stride, 16, 13, 14, lt);
    let ghost s39 = data@;
    proof { lemma_perm_trans(s0, s38, s39, lo as int, hi); lemma_kept_trans(s0, s38, s39, lo as int, stride as int); }
    cx_step(data, lo, stride, 16, 1, 4, lt);
    let ghost s40 = data@;
    proof { lemma_perm_trans(s0, s39, s40, lo as int, hi); lemma_kept_trans(s0, s39, s40, lo as int, stride as int); }
    cx_step(data, lo, stride, 16, 2, 6, lt);
    let ghost s41 = data@;
    proof { lemma_perm_trans(s0, s40, s41, lo as int, hi); lemma_kept_trans(s0, s40, s41, lo as int, stride as int); }
    cx_step(data, lo, stride, 16, 5, 8, lt);
    let ghost s42 = data@;
    proof { lemma_perm_trans(s0, s41, s42, lo as int, hi); lemma_kept_trans(s0, s41, s42, lo as int, stride as int); }
    cx_step(data, lo, stride, 16, 7, 10, lt);
    let ghost s43 = data@;
    proof { lemma_perm_trans(s0, s42, s43, lo as int, hi); lemma_kept_trans(s0, s42, s43, lo as int, stride as int); }
    cx_step(data, lo, stride, 16, 9, 13, lt);
    let ghost s44 = data@;
    proof { lemma_perm_trans(s0, s43, s44, lo as int, hi); lemma_kept_trans(s0, s43, s44, lo as int, stride as int); }
    cx_step(data, lo, stride, 16, 11, 14, lt);
    let ghost s45 = data@;
    proof { lemma_perm_trans(s0, s44, s45, lo as int, hi); lemma_kept_trans(s0, s44, s45, lo as int, stride as int); }
    cx_step(data, lo, stride, 16, 2, 4, lt);
    let ghost s46 = data@;
    proof { lemma_perm_trans(s0, s45, s46, lo as int, hi); lemma_kept_trans(s0, s45, s46, lo as int, stride as int); }
    cx_step(data, lo, stride, 16, 3, 6, lt);
    let ghost s47 = data@;
    proof { lemma_perm_trans(s0, s46, s47, lo as int, hi); lemma_kept_trans(s0, s46, s47, lo as int, stride as int); }
    cx_step(data, lo, stride, 16, 9, 12, lt);
    let ghost s48 = data@;
    proof { lemma_perm_trans(s0, s47, s48, lo as int, hi); lemma_kept_trans(s0, s47, s48, lo as int, stride as int); }
    cx_step(data, lo, stride, 16, 11, 13, lt);
    let ghost s49 = data@;
    proof { lemma_perm_trans(s0, s48, s49, lo as int, hi); lemma_kept_trans(s0, s48, s49, lo as int, stride as int); }
    cx_step(data, lo, stride, 16, 3, 5, lt);
    let ghost s50 = data@;
    proof { lemma_perm_trans(s0, s49, s50, lo as int, hi); lemma_kept_trans(s0, s49, s50, lo as int, stride as int); }
    cx_step(data, lo, stride, 16, 6, 8, lt);
    let ghost s51 = data@;
    proof { lemma_perm_trans(s0, s50, s51, lo as int, hi); lemma_kept_trans(s0, s50, s51, lo as int, stride as int); }
    cx_step(data, lo, stride, 16, 7, 9, lt);
    let ghost s52 = data@;
    proof { lemma_perm_trans(s0, s51, s52, lo as int, hi); lemma_kept_trans(s0, s51, s52, lo as int, stride as int); }
    cx_step(data, lo, stride, 16, 10, 12, lt);
    let ghost s53 = data@;
    proof { lemma_perm_trans(s0, s52, s53, lo as int, hi); lemma_kept_trans(s0, s52, s53, lo as int, stride as int); }
    cx_step(data, lo, stride, 16, 3, 4, lt);
    let ghost s54 = data@;
    proof { lemma_perm_trans(s0, s53, s54, lo as int, hi); lemma_kept_trans(s0, s53, s54, lo as int, stride as int); }
    cx_step(data, lo, stride, 16, 5, 6, lt);
    let ghost s55 = data@;
    proof { lemma_perm_trans(s0, s54, s55, lo as int, hi); lemma_kept_trans(s0, s54, s55, lo as int, stride as int); }
    cx_step(data, lo, stride, 16, 7, 8, lt);
    let ghost s56 = data@;
    proof { lemma_perm_trans(s0, s55, s56, lo as int, hi); lemma_kept_trans(s0, s55, s56, lo as int, stride as int); }
    cx_step(data, lo, stride, 16, 9, 10, lt);
    let ghost s57 = data@;
    proof { lemma_perm_trans(s0, s56, s57, lo as int, hi); lemma_kept_trans(s0, s56, s57, lo as int, stride as int); }
    cx_step(data, lo, stride, 16, 11, 12, lt);
    let ghost s58 = data@;
    proof { lemma_perm_trans(s0, s57, s58, lo as int, hi); lemma_kept_trans(s0, s57, s58, lo as int, stride as int); }
    cx_step(data, lo, stride, 16, 6, 7, lt);
    let ghost s59 = data@;
    proof { lemma_perm_trans(s0, s58, s59, lo as int, hi); lemma_kept_trans(s0, s58, s59, lo as int, stride as int); }
    cx_step(data, lo, stride, 16, 8, 9, lt);
    let ghost s60 = data@;
    proof { lemma_perm_trans(s0, s59, s60, lo as int, hi); lemma_kept_trans(s0, s59, s60, lo as int, stride as int); }
    proof {
        assert forall|less: spec_fn(T, T) -> bool, t: T|
            orders(*lt, less) implies sorted_bits(#[trigger] thr(s60, lo as int, stride as int, t, less, 16), 16u32) by {
            lemma_net16_sorts(thr(s0, lo as int, stride as int, t, less, 16), thr(s1, lo as int, stride as int, t, less, 16), thr(s2, lo as int, stride as int, t, less, 16), thr(s3, lo as int, stride as int, t, less, 16), thr(s4, lo as int, stride as int, t, less, 16), thr(s5, lo as int, stride as int, t, less, 16), thr(s6, lo as int, stride as int, t, less, 16), thr(s7, lo as int, stride as int, t, less, 16), thr(s8, lo as int, stride as int, t, less, 16), thr(s9, lo as int, stride as int, t, less, 16), thr(s10, lo as int, stride as int, t, less, 16), thr(s11, lo as int, stride as int, t, less, 16), thr(s12, lo as int, stride as int, t, less, 16), thr(s13, lo as int, stride as int, t, less, 16), thr(s14, lo as int, stride as int, t, less, 16), thr(s15, lo as int, stride as int, t, less, 16), thr(s16, lo as int, stride as int, t, less, 16), thr(s17, lo as int, stride as int, t, less, 16), thr(s18, lo as int, stride as int, t, less, 16), thr(s19, lo as int, stride as int, t, less, 16), thr(s20, lo as int, stride as int, t, less, 16), thr(s21, lo as int, stride as int, t, less, 16), thr(s22, lo as int, stride as int, t, less, 16), thr(s23, lo as int, stride as int, t, less, 16), thr(s24, lo as int, stride as int, t, less, 16), thr(s25, lo as int, stride as int, t, less, 16), thr(s26, lo as int, stride as int, t, less, 16), thr(s27, lo as int, stride as int, t, less, 16), thr(s28, lo as int, stride as int, t, less, 16), thr(s29, lo as int, stride as int, t, less, 16), thr(s30, lo as int, stride as int, t, less, 16), thr(s31, lo as int, stride as int, t, less, 16), thr(s32, lo as int, stride as int, t, less, 16), thr(s33, lo as int, stride as int, t, less, 16), thr(s34, lo as int, stride as int, t, less, 16), thr(s35, lo as int, stride as int, t, less, 16), thr(s36, lo as int, stride as int, t, less, 16), thr(s37, lo as int, stride as int, t, less, 16), thr(s38, lo as int, stride as int, t, less, 16), thr(s39, lo as int, stride as int, t, less, 16), thr(s40, lo as int, stride as int, t, less, 16), thr(s41, lo as int, stride as int, t, less, 16), thr(s42, lo as int, stride as int, t, less, 16), thr(s43, lo as int, stride as int, t, less, 16), thr(s44, lo as int, stride as int, t, less, 16), thr(s45, lo as int, stride as int, t, less, 16), thr(s46, lo as int, stride as int, t, less, 16), thr(s47, lo as int, stride as int, t, less, 16), thr(s48, lo as int, stride as int, t, less, 16), thr(s49, lo as int, stride as int, t, less, 16), thr(s50, lo as int, stride as int, t, less, 16), thr(s51, lo as int, stride as int, t, less, 16), thr(s52, lo as int, stride as int, t, less, 16), thr(s53, lo as int, stride as int, t, less, 16), thr(s54, lo as int, stride as int, t, less, 16), thr(s55, lo as int, stride as int, t, less, 16), thr(s56, lo as int, stride as int, t, less, 16), thr(s57, lo as int, stride as int, t, less, 16), thr(s58, lo as int, stride as int, t, less, 16), thr(s59, lo as int, stride as int, t, less, 16), thr(s60, lo as int, stride as int, t, less, 16));
        }
        lemma_network_sorted(*lt, s60, lo as int, stride as int, 16);
    }
}

} // verus!
