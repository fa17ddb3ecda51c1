//! Compare-exchange operations and small sorting routines.
use vstd::prelude::*;
use crate::order::{total, orders, known_lt, known_le, lemma_answer, lemma_lt_le};
use crate::perm::{swapped, slice_swap, perm_in, lemma_perm_refl, lemma_perm_swap, lemma_perm_trans, lemma_perm_widen};
use crate::network::{sorted_at, last_at, off_stride_kept, sort3, sort4, sort5, sort6, sort7, sort8, sort9, sort10, sort11, sort12, sort13, sort14, sort15, sort16};
use crate::zero_one::at;
use crate::bitonic::{
    bits, half_clean, half_clean_upto, flip, flip_upto, lemma_bits_cx, chunk_at, lemma_chunk_next,
    lemma_chunk_order, level, below, shape, bitonic, sorted_word, lemma_level_half, lemma_locate,
    lemma_level_far, lemma_half_clean_id, lemma_level_agree, lemma_level_split, lemma_level_extend,
    lemma_level_sub, lemma_sorted_shape, lemma_flip, lemma_bitonic_agree,
};
use crate::perm::lemma_perm_source;

verus! {

/// Compares the elements at `a` and `b` and exchanges them if `data[b] < data[a]`, when `a < b`
/// (nothing is done when `a > b`). Returns whether they were exchanged. Both positions must be in
/// bounds and distinct.
pub fn sort2<T, F: Fn(&T, &T) -> bool>(data: &mut [T], a: usize, b: usize, lt: &F) -> (exchanged: bool)
    requires
        total(*lt),
        a < old(data)@.len(),
        b < old(data)@.len(),
        a != b,
    ensures
        exchanged ==> a < b && final(data)@ == swapped(old(data)@, a as int, b as int),
        !exchanged ==> final(data)@ == old(data)@,
        exchanged ==> known_lt(*lt, old(data)@[b as int], old(data)@[a as int]),
        a < b ==> known_le(*lt, final(data)@[a as int], final(data)@[b as int]),
        forall|less: spec_fn(T, T) -> bool|
            #[trigger] orders(*lt, less) ==> exchanged == (a < b && less(
                old(data)@[b as int],
                old(data)@[a as int],
            )),
{
    if b < data.len() && a < b {
        let r = lt(&data[b], &data[a]);
        proof {
            lemma_answer(*lt, data@[b as int], data@[a as int], r);
        }
        if r {
            proof {
                lemma_lt_le(*lt, data@[b as int], data@[a as int]);
            }
            slice_swap(data, a, b);
        }
        r
    } else {
        false
    }
}

/// The range `s[lo..hi)` is sorted under every order that explains `lt`.
pub open spec fn sorted_range<T, F: Fn(&T, &T) -> bool>(lt: F, s: Seq<T>, lo: int, hi: int) -> bool {
    forall|i: int, j: int| lo <= i < j < hi ==> known_le(lt, #[trigger] s[i], #[trigger] s[j])
}

/// Sorts the `n` elements at positions `lo + k * stride` with a sorting network.
pub fn sort_at<T, F: Fn(&T, &T) -> bool>(data: &mut [T], lo: usize, stride: usize, n: usize, lt: &F)
    requires
        total(*lt),
        stride > 0,
        1 <= n <= 16,
        last_at(lo as int, stride as int, n as int) < old(data)@.len(),
    ensures
        perm_in(old(data)@, final(data)@, lo as int, last_at(lo as int, stride as int, n as int) + 1),
        off_stride_kept(old(data)@, final(data)@, lo as int, stride as int),
        sorted_at(*lt, final(data)@, lo as int, stride as int, n as int),
{
    let ghost s0 = data@;
    match n {
        1 => {
            proof {
                lemma_perm_refl(s0, lo as int, lo + 1);
            }
        },
        2 => {
            proof {
                crate::network::lemma_position(lo as int, stride as int, 2, 1);
                assert(1 * stride == stride);
            }
            let len = data.len();
            assert(lo + stride < len);
            sort2(data, lo, lo + stride, lt);
            proof {
                let hi = lo + stride + 1;
                if data@ != s0 {
                    lemma_perm_swap(s0, lo as int, hi, lo as int, lo + stride);
                } else {
                    lemma_perm_refl(s0, lo as int, hi);
                }
                assert(at(data@, lo as int, stride as int, 0) == data@[lo as int]);
                assert(at(data@, lo as int, stride as int, 1) == data@[lo + stride]);
                vstd::arithmetic::div_mod::lemma_mod_self_0(stride as int);
                vstd::arithmetic::div_mod::lemma_small_mod(0, stride as nat);
                assert forall|k: int| lo <= k < s0.len() && (k - lo) % (stride as int) != 0
                    implies #[trigger] data@[k] == s0[k] by {
                    assert(k != lo && k != lo + stride);
                }
            }
        },
        3 => sort3(data, lo, stride, lt),
        4 => sort4(data, lo, stride, lt),
        5 => sort5(data, lo, stride, lt),
        6 => sort6(data, lo, stride, lt),
        7 => sort7(data, lo, stride, lt),
        8 => sort8(data, lo, stride, lt),
        9 => sort9(data, lo, stride, lt),
        10 => sort10(data, lo, stride, lt),
        11 => sort11(data, lo, stride, lt),
        12 => sort12(data, lo, stride, lt),
        13 => sort13(data, lo, stride, lt),
        14 => sort14(data, lo, stride, lt),
        15 => sort15(data, lo, stride, lt),
        _ => sort16(data, lo, stride, lt),
    }
}

proof fn lemma_sorted_contiguous<T, F: Fn(&T, &T) -> bool>(lt: F, s: Seq<T>, lo: int, n: int)
    requires
        sorted_at(lt, s, lo, 1, n),
    ensures
        sorted_range(lt, s, lo, lo + n),
{
    assert forall|i: int, j: int| lo <= i < j < lo + n implies known_le(lt, #[trigger] s[i], #[trigger] s[j]) by {
        assert(at(s, lo, 1, i - lo) == s[i]);
        assert(at(s, lo, 1, j - lo) == s[j]);
    }
}

/// Compare-exchange of the elements `lo + a` and `lo + b` of the range `[lo, hi)`; does nothing if
/// `lo + b` is outside the range.
fn sort2_in<T, F: Fn(&T, &T) -> bool>(data: &mut [T], lo: usize, hi: usize, a: usize, b: usize, lt: &F)
    requires
        total(*lt),
        lo <= hi <= old(data)@.len(),
        a < b,
    ensures
        perm_in(old(data)@, final(data)@, lo as int, hi as int),
        forall|less: spec_fn(T, T) -> bool|
            #[trigger] orders(*lt, less) ==> final(data)@ == if lo + b < hi && less(
                old(data)@[lo + b],
                old(data)@[lo + a],
            ) {
                swapped(old(data)@, lo + a, lo + b)
            } else {
                old(data)@
            },
{
    let ghost s0 = data@;
    if b < hi - lo {
        sort2(data, lo + a, lo + b, lt);
        proof {
            if data@ != s0 {
                lemma_perm_swap(s0, lo as int, hi as int, lo + a, lo + b);
            }
        }
    }
    proof {
        if data@ == s0 {
            lemma_perm_refl(s0, lo as int, hi as int);
        }
    }
}

/// `n` is a power of two.
pub open spec fn is_pow2(n: int) -> bool
    decreases n,
{
    if n <= 0 {
        false
    } else if n == 1 {
        true
    } else {
        n % 2 == 0 && is_pow2(n / 2)
    }
}

/// The first of `p`, `2p`, `4p`, ... that is at least `n`.
pub open spec fn pow2_from(n: int, p: int) -> int
    decreases (if p < n { n - p } else { 0 }) when p >= 1
{
    if p >= n {
        p
    } else {
        pow2_from(n, 2 * p)
    }
}

/// The powers of two up to 16.
proof fn lemma_small_pow2(n: int)
    requires
        is_pow2(n),
        n <= 16,
    ensures
        n == 1 || n == 2 || n == 4 || n == 8 || n == 16,
    decreases n,
{
    if n > 1 {
        lemma_small_pow2(n / 2);
    }
}

/// Of two different powers of two, the larger is at least twice the smaller.
proof fn lemma_pow2_order(p: int, q: int)
    requires
        is_pow2(p),
        is_pow2(q),
        p < q,
    ensures
        2 * p <= q,
    decreases q,
{
    if p > 1 {
        lemma_pow2_order(p / 2, q / 2);
    }
}

/// The first power of two from `p` on that is at least `n` is `q`, when `n` lies in `(q/2, q]`.
proof fn lemma_pow2_from_exact(n: int, p: int, q: int)
    requires
        is_pow2(p),
        is_pow2(q),
        p <= q,
        q / 2 < n <= q,
    ensures
        pow2_from(n, p) == q,
    decreases q - p,
{
    if p >= n {
        if p < q {
            lemma_pow2_order(p, q);
        }
    } else {
        lemma_pow2_order(p, q);
        assert(is_pow2(2 * p));
        lemma_pow2_from_exact(n, 2 * p, q);
    }
}

/// The first power of two from `p` on that is at least `n` is less than `2n`.
proof fn lemma_pow2_from_bounds(n: int, p: int)
    requires
        is_pow2(p),
        1 <= n,
        p < 2 * n,
    ensures
        n <= pow2_from(n, p) < 2 * n,
    decreases (if p < n { n - p } else { 0 }),
{
    if p < n {
        assert(is_pow2(2 * p));
        lemma_pow2_from_bounds(n, 2 * p);
    }
}

/// Sortedness of a range depends only on its elements.
proof fn lemma_sorted_same<T, F: Fn(&T, &T) -> bool>(lt: F, s: Seq<T>, s2: Seq<T>, a: int, b: int)
    requires
        sorted_range(lt, s, a, b),
        forall|x: int| a <= x < b ==> #[trigger] s2[x] == s[x],
    ensures
        sorted_range(lt, s2, a, b),
{
    assert forall|i: int, j: int| a <= i < j < b implies known_le(lt, #[trigger] s2[i], #[trigger] s2[j]) by {
        assert(s2[i] == s[i] && s2[j] == s[j]);
    }
}

/// A part of a sorted range is sorted.
proof fn lemma_sorted_sub<T, F: Fn(&T, &T) -> bool>(lt: F, s: Seq<T>, a: int, b: int, a2: int, b2: int)
    requires
        sorted_range(lt, s, a, b),
        a <= a2,
        b2 <= b,
    ensures
        sorted_range(lt, s, a2, b2),
{
}

/// The words of a sorted range are sorted, when the range is everything of the region that lies
/// before `hi`.
proof fn lemma_sorted_bits<T, F: Fn(&T, &T) -> bool>(
    lt: F,
    s: Seq<T>,
    a: int,
    e: int,
    m: int,
    hi: int,
    less: spec_fn(T, T) -> bool,
    t: T,
)
    requires
        orders(lt, less),
        sorted_range(lt, s, a, e),
        e == a + m || (e == hi && hi <= a + m),
        e <= hi,
    ensures
        sorted_word(bits(s, hi, less, t), a, m),
{
    let w = bits(s, hi, less, t);
    assert forall|i: int, j: int| a <= i < j < a + m && #[trigger] w(i) implies #[trigger] w(j) by {
        if j < hi {
            assert(known_le(lt, s[i], s[j]));
            assert(!less(s[j], s[i]));
        }
    }
}

/// If every word of a range is sorted, so is the range (the 0-1 principle).
proof fn lemma_bits_sorted<T, F: Fn(&T, &T) -> bool>(lt: F, s: Seq<T>, lo: int, hi: int)
    requires
        forall|less: spec_fn(T, T) -> bool, t: T|
            orders(lt, less) ==> #[trigger] sorted_word(bits(s, hi, less, t), lo, hi - lo),
    ensures
        sorted_range(lt, s, lo, hi),
{
    assert forall|i: int, j: int| lo <= i < j < hi implies known_le(lt, #[trigger] s[i], #[trigger] s[j]) by {
        assert forall|less: spec_fn(T, T) -> bool| #[trigger] orders(lt, less) implies !less(s[j], s[i]) by {
            let w = bits(s, hi, less, s[i]);
            assert(sorted_word(w, lo, hi - lo));
            assert(w(i));
            assert(w(j));
        }
    }
}

/// Compare-exchanges the elements `lo + i` and `lo + i + h` of the range `[lo, hi)` for every
/// `i < h`: the half-cleaner of the chunk `[lo, lo + 2h)`, of which the positions from `hi` on
/// are not there (`hi` is the end of the words, `top`, or the chunk is whole).
fn clean_half<T, F: Fn(&T, &T) -> bool>(data: &mut [T], lo: usize, hi: usize, h: usize, top: Ghost<int>, lt: &F)
    requires
        total(*lt),
        lo < hi <= top@ <= old(data)@.len(),
        0 < h <= isize::MAX,
        hi - lo <= 2 * h,
        hi == top@ || hi == lo + 2 * h,
    ensures
        perm_in(old(data)@, final(data)@, lo as int, hi as int),
        forall|less: spec_fn(T, T) -> bool, t: T, x: int|
            orders(*lt, less) && lo <= x ==> #[trigger] bits(final(data)@, top@, less, t)(x) == half_clean(
                bits(old(data)@, top@, less, t),
                lo as int,
                h as int,
            )(x),
{
    let ghost s0 = data@;
    proof {
        lemma_perm_refl(s0, lo as int, hi as int);
    }
    let mut i: usize = 0;
    while i < h
        invariant
            total(*lt),
            lo < hi <= top@ <= data@.len(),
            0 < h <= isize::MAX,
            hi - lo <= 2 * h,
            hi == top@ || hi == lo + 2 * h,
            i <= h,
            perm_in(s0, data@, lo as int, hi as int),
            forall|less: spec_fn(T, T) -> bool, t: T, x: int|
                orders(*lt, less) && lo <= x ==> #[trigger] bits(data@, top@, less, t)(x) == half_clean_upto(
                    bits(s0, top@, less, t),
                    lo as int,
                    h as int,
                    i as int,
                )(x),
        decreases h - i,
    {
        let ghost s1 = data@;
        sort2_in(data, lo, hi, i, i + h, lt);
        proof {
            lemma_perm_trans(s0, s1, data@, lo as int, hi as int);
            let x0 = lo + i;
            let y0 = lo + i + h;
            assert(y0 < hi <==> y0 < top@);
            assert forall|less: spec_fn(T, T) -> bool, t: T, x: int|
                orders(*lt, less) && lo <= x implies #[trigger] bits(data@, top@, less, t)(x) == half_clean_upto(
                bits(s0, top@, less, t), lo as int, h as int, i + 1)(x) by {
                lemma_bits_cx(s1, data@, top@, less, t, x0, y0);
                let w0 = bits(s0, top@, less, t);
                assert(bits(s1, top@, less, t)(x) == half_clean_upto(w0, lo as int, h as int, i as int)(x));
                assert(bits(s1, top@, less, t)(x0) == half_clean_upto(w0, lo as int, h as int, i as int)(x0));
                assert(bits(s1, top@, less, t)(y0) == half_clean_upto(w0, lo as int, h as int, i as int)(y0));
            }
        }
        i = i + 1;
    }
}

/// Applies the half-cleaner of `h` to each chunk of `2h` positions of the range `[lo, hi)`,
/// chunk after chunk. The `k` chunks reach to `hi` at least; the positions from `hi` on are not
/// there (`hi` is the end of the words, `top`, or the chunks end exactly at `hi`).
fn clean_chunks<T, F: Fn(&T, &T) -> bool>(
    data: &mut [T],
    lo: usize,
    hi: usize,
    h: usize,
    k: Ghost<int>,
    top: Ghost<int>,
    lt: &F,
)
    requires
        total(*lt),
        lo < hi <= top@ <= old(data)@.len(),
        0 < h <= isize::MAX,
        0 <= k@,
        hi <= chunk_at(lo as int, k@, 2 * h),
        hi == top@ || hi == chunk_at(lo as int, k@, 2 * h),
    ensures
        perm_in(old(data)@, final(data)@, lo as int, hi as int),
        forall|less: spec_fn(T, T) -> bool, t: T, c: int, x: int|
            orders(*lt, less) && 0 <= c < k@ && chunk_at(lo as int, c, 2 * h) <= x < chunk_at(lo as int, c, 2 * h) + 2 * h
                ==> bits(final(data)@, top@, less, t)(x) == #[trigger] half_clean(
                bits(old(data)@, top@, less, t),
                chunk_at(lo as int, c, 2 * h),
                h as int,
            )(x),
{
    let ghost s0 = data@;
    let ghost hh = h as int;
    let part = 2 * h;
    let mut start = lo;
    let ghost mut c: int = 0;
    proof {
        lemma_perm_refl(s0, lo as int, lo as int);
        lemma_chunk_next(lo as int, 0, 2 * hh);
    }
    while start < hi
        invariant
            total(*lt),
            lo <= start <= hi <= top@ <= data@.len(),
            part == 2 * h,
            hh == h,
            0 < h <= isize::MAX,
            0 <= c <= k@,
            start <= chunk_at(lo as int, c, 2 * hh),
            start < hi ==> start == chunk_at(lo as int, c, 2 * hh),
            hi <= chunk_at(lo as int, k@, 2 * hh),
            hi == top@ || hi == chunk_at(lo as int, k@, 2 * hh),
            perm_in(s0, data@, lo as int, start as int),
            forall|less: spec_fn(T, T) -> bool, t: T, c2: int, x: int|
                orders(*lt, less) && 0 <= c2 < c && chunk_at(lo as int, c2, 2 * hh) <= x < chunk_at(lo as int, c2, 2 * hh) + 2 * hh
                    ==> bits(data@, top@, less, t)(x) == #[trigger] half_clean(
                    bits(s0, top@, less, t),
                    chunk_at(lo as int, c2, 2 * hh),
                    hh,
                )(x),
        decreases hi - start,
    {
        proof {
            lemma_chunk_order(lo as int, c, k@, 2 * hh);
            if k@ <= c {
                lemma_chunk_order(lo as int, k@, c, 2 * hh);
            }
        }
        let end = if hi - start < part { hi } else { start + part };
        let ghost s1 = data@;
        clean_half(data, start, end, h, top, lt);
        proof {
            lemma_perm_widen(s0, s1, lo as int, start as int, lo as int, end as int);
            lemma_perm_widen(s1, data@, start as int, end as int, lo as int, end as int);
            lemma_perm_trans(s0, s1, data@, lo as int, end as int);
            lemma_chunk_next(lo as int, c, 2 * hh);
            assert forall|less: spec_fn(T, T) -> bool, t: T, c2: int, x: int|
                orders(*lt, less) && 0 <= c2 < c + 1 && chunk_at(lo as int, c2, 2 * hh) <= x < chunk_at(lo as int, c2, 2 * hh) + 2 * hh
                    implies bits(data@, top@, less, t)(x) == #[trigger] half_clean(
                    bits(s0, top@, less, t),
                    chunk_at(lo as int, c2, 2 * hh),
                    hh,
                )(x) by {
                let a = chunk_at(lo as int, c2, 2 * hh);
                if c2 < c {
                    lemma_chunk_order(lo as int, c2, c, 2 * hh);
                    assert(data@[x] == s1[x]);
                    assert(bits(s1, top@, less, t)(x) == half_clean(bits(s0, top@, less, t), a, hh)(x));
                } else {
                    assert(a == start);
                    let w0 = bits(s0, top@, less, t);
                    let w1 = bits(s1, top@, less, t);
                    assert(bits(data@, top@, less, t)(x) == half_clean(w1, start as int, hh)(x));
                    if x < a + hh {
                        assert(w1(x) == w0(x));
                        assert(w1(x + hh) == w0(x + hh));
                    } else {
                        assert(w1(x) == w0(x));
                        assert(w1(x - hh) == w0(x - hh));
                    }
                }
            }
            c = c + 1;
        }
        start = end;
    }
    proof {
        assert forall|less: spec_fn(T, T) -> bool, t: T, c2: int, x: int|
            orders(*lt, less) && 0 <= c2 < k@ && chunk_at(lo as int, c2, 2 * hh) <= x < chunk_at(lo as int, c2, 2 * hh) + 2 * hh
                implies bits(data@, top@, less, t)(x) == #[trigger] half_clean(
                bits(s0, top@, less, t),
                chunk_at(lo as int, c2, 2 * hh),
                hh,
            )(x) by {
            if c2 >= c {
                lemma_chunk_order(lo as int, c, c2, 2 * hh);
                if hi != top@ {
                    lemma_chunk_order(lo as int, c2, k@, 2 * hh);
                }
            }
        }
    }
}

/// Every element of `s[a..b)` is one of `s0[a..b)`.
pub open spec fn sourced<T>(s: Seq<T>, s0: Seq<T>, a: int, b: int) -> bool {
    forall|x: int| a <= x < b ==> #[trigger] occurs_in(s0, a, b, s[x])
}

/// `v` is one of `s[a..b)`.
pub open spec fn occurs_in<T>(s: Seq<T>, a: int, b: int, v: T) -> bool {
    exists|x: int| a <= x < b && s[x] == v
}

/// The end of chunk `c` of `size` positions from `lo`, cut at `hi`.
pub open spec fn chunk_end(lo: int, c: int, size: int, hi: int) -> int {
    if chunk_at(lo, c, size) + size < hi {
        chunk_at(lo, c, size) + size
    } else {
        hi
    }
}

/// Flipping two sorted halves puts their words at the level of the two halves.
proof fn lemma_merge_flip<T, F: Fn(&T, &T) -> bool>(lt: F, s0: Seq<T>, s1: Seq<T>, lo: int, hi: int, half: int)
    requires
        1 <= half,
        0 <= lo,
        lo + half < hi <= lo + 2 * half,
        hi <= s0.len(),
        sorted_range(lt, s0, lo, lo + half),
        sorted_range(lt, s0, lo + half, hi),
        forall|less: spec_fn(T, T) -> bool, t: T, x: int|
            orders(lt, less) && lo <= x ==> #[trigger] bits(s1, hi, less, t)(x) == flip_upto(
                bits(s0, hi, less, t),
                lo,
                half,
                half,
            )(x),
    ensures
        forall|less: spec_fn(T, T) -> bool, t: T| orders(lt, less) ==> #[trigger] level(bits(s1, hi, less, t), lo, 2, half),
{
    lemma_chunk_next(lo, 0, half);
    lemma_chunk_next(lo, 1, half);
    assert forall|less: spec_fn(T, T) -> bool, t: T| orders(lt, less) implies #[trigger] level(bits(s1, hi, less, t), lo, 2, half) by {
        let w0 = bits(s0, hi, less, t);
        let w1 = bits(s1, hi, less, t);
        let f = flip(w0, lo, half);
        lemma_sorted_bits(lt, s0, lo, lo + half, half, hi, less, t);
        lemma_sorted_bits(lt, s0, lo + half, hi, half, hi, less, t);
        let p1 = lemma_sorted_shape(w0, lo, half);
        let p2 = lemma_sorted_shape(w0, lo + half, half);
        lemma_flip(w0, lo, half, p1, p2);
        assert forall|x: int| lo <= x < lo + 2 * half implies #[trigger] f(x) == w1(x) by {
            assert(w1(x) == flip_upto(w0, lo, half, half)(x));
        }
        lemma_bitonic_agree(f, w1, lo, half);
        lemma_bitonic_agree(f, w1, lo + half, half);
        assert forall|c: int| 0 <= c < 2 implies bitonic(w1, #[trigger] chunk_at(lo, c, half), half) by {
        }
        assert forall|c1: int, c2: int| 0 <= c1 < c2 < 2 implies below(w1, #[trigger] chunk_at(lo, c1, half), half,
            #[trigger] chunk_at(lo, c2, half), half) by {
            assert forall|i: int, j: int| lo <= i < lo + half && lo + half <= j < lo + 2 * half && #[trigger] w1(i)
                implies #[trigger] w1(j) by {
                assert(f(i) == w1(i));
                assert(f(j) == w1(j));
            }
        }
    }
}

/// Chunks of 16 that are each sorted, and that hold the elements of the corresponding chunks of a
/// level, make a sorted range.
proof fn lemma_merge_finish<T, F: Fn(&T, &T) -> bool>(
    lt: F,
    s_lv: Seq<T>,
    s: Seq<T>,
    lo: int,
    hi: int,
    k: int,
    p: int,
    m: int,
    n16: int,
)
    requires
        p > 0,
        m > 0,
        m * p == 16,
        k == n16 * m,
        0 <= lo < hi <= chunk_at(lo, n16, 16),
        hi <= s_lv.len(),
        hi <= s.len(),
        forall|less: spec_fn(T, T) -> bool, t: T| orders(lt, less) ==> #[trigger] level(bits(s_lv, hi, less, t), lo, k, p),
        forall|less: spec_fn(T, T) -> bool, t: T, j: int|
            orders(lt, less) && 0 <= j < n16 ==> #[trigger] sorted_word(bits(s, hi, less, t), chunk_at(lo, j, 16), 16),
        forall|j: int| 0 <= j < n16 ==> #[trigger] sourced(s, s_lv, chunk_at(lo, j, 16), chunk_end(lo, j, 16, hi)),
    ensures
        sorted_range(lt, s, lo, hi),
{
    assert(chunk_at(lo, k, p) == chunk_at(lo, n16, 16)) by {
        assert(k * p == n16 * 16) by (nonlinear_arith)
            requires
                k == n16 * m,
                m * p == 16,
        ;
    }
    assert forall|less: spec_fn(T, T) -> bool, t: T|
        orders(lt, less) implies #[trigger] sorted_word(bits(s, hi, less, t), lo, hi - lo) by {
        let w = bits(s, hi, less, t);
        let wl = bits(s_lv, hi, less, t);
        assert(level(wl, lo, k, p));
        assert forall|x: int, y: int| lo <= x < y < lo + (hi - lo) && #[trigger] w(x) implies #[trigger] w(y) by {
            let jx = lemma_locate(lo, n16, 16, x);
            let jy = lemma_locate(lo, n16, 16, y);
            if jx == jy {
                assert(sorted_word(w, chunk_at(lo, jx, 16), 16));
            } else {
                lemma_chunk_order(lo, jx, jy, 16);
                if jy < jx {
                    lemma_chunk_order(lo, jy, jx, 16);
                }
                assert(jx < jy);
                assert(sourced(s, s_lv, chunk_at(lo, jx, 16), chunk_end(lo, jx, 16, hi)));
                assert(sourced(s, s_lv, chunk_at(lo, jy, 16), chunk_end(lo, jy, 16, hi)));
                assert(occurs_in(s_lv, chunk_at(lo, jx, 16), chunk_end(lo, jx, 16, hi), s[x]));
                assert(occurs_in(s_lv, chunk_at(lo, jy, 16), chunk_end(lo, jy, 16, hi), s[y]));
                let x2 = choose|x2: int| chunk_at(lo, jx, 16) <= x2 < chunk_end(lo, jx, 16, hi) && s_lv[x2] == s[x];
                let y2 = choose|y2: int| chunk_at(lo, jy, 16) <= y2 < chunk_end(lo, jy, 16, hi) && s_lv[y2] == s[y];
                assert(wl(x2) == w(x));
                assert(wl(y2) == w(y));
                let cb = jy * m;
                assert(chunk_at(lo, cb, p) == chunk_at(lo, jy, 16)) by {
                    assert(jy * m * p == jy * 16) by (nonlinear_arith)
                        requires
                            m * p == 16,
                    ;
                }
                assert(0 <= cb <= k) by (nonlinear_arith)
                    requires
                        0 <= jy < n16,
                        m > 0,
                        k == n16 * m,
                        cb == jy * m,
                ;
                lemma_level_split(wl, lo, k, p, cb, x2, y2);
            }
        }
    }
    lemma_bits_sorted(lt, s, lo, hi);
}

/// Merges the range `data[lo..hi)`, whose first `half` elements (half the smallest power of two
/// that is at least its length) and the rest are each sorted, with a bitonic merging network: the
/// two halves are flipped against each other, then levels of half-cleaners follow, the last four
/// of them chunk by chunk of 16 positions.
fn merge<T, F: Fn(&T, &T) -> bool>(data: &mut [T], lo: usize, hi: usize, lt: &F)
    requires
        total(*lt),
        lo < hi <= old(data)@.len(),
        hi - lo <= isize::MAX,
        sorted_range(*lt, old(data)@, lo as int, lo + pow2_from(hi - lo, 1) / 2),
        sorted_range(*lt, old(data)@, lo + pow2_from(hi - lo, 1) / 2, hi as int),
    ensures
        perm_in(old(data)@, final(data)@, lo as int, hi as int),
        sorted_range(*lt, final(data)@, lo as int, hi as int),
{
    let ghost s0 = data@;
    let ghost top = hi as int;
    let len = hi - lo;
    let mut size: usize = 1;
    while size < len
        invariant
            1 <= size,
            size < 2 * len,
            len <= isize::MAX,
            is_pow2(size as int),
            pow2_from(len as int, size as int) == pow2_from(len as int, 1),
        decreases 2 * len - size,
    {
        assert(is_pow2(2 * size as int));
        size = size * 2;
    }
    let half = size / 2;
    proof {
        lemma_perm_refl(s0, lo as int, hi as int);
        if size > 1 {
            assert(size == 2 * half);
        }
    }
    // Flip: compare-exchange each element of the first half with its mirror image.
    let mut delta: usize = 0;
    while delta < half
        invariant
            total(*lt),
            lo < hi <= data@.len(),
            top == hi,
            half == size / 2,
            size >= len,
            size < 2 * len,
            len == hi - lo,
            hi - lo <= isize::MAX,
            size > 1 ==> size == 2 * half,
            delta <= half,
            perm_in(s0, data@, lo as int, hi as int),
            forall|less: spec_fn(T, T) -> bool, t: T, x: int|
                orders(*lt, less) && lo <= x ==> #[trigger] bits(data@, top, less, t)(x) == flip_upto(
                    bits(s0, top, less, t),
                    lo as int,
                    half as int,
                    delta as int,
                )(x),
        decreases half - delta,
    {
        let ghost s1 = data@;
        sort2_in(data, lo, hi, delta, size - delta - 1, lt);
        proof {
            lemma_perm_trans(s0, s1, data@, lo as int, hi as int);
            let x0 = lo + delta;
            let y0 = lo + (size - delta - 1);
            assert forall|less: spec_fn(T, T) -> bool, t: T, x: int|
                orders(*lt, less) && lo <= x implies #[trigger] bits(data@, top, less, t)(x) == flip_upto(
                bits(s0, top, less, t), lo as int, half as int, delta + 1)(x) by {
                lemma_bits_cx(s1, data@, top, less, t, x0, y0);
                let w0 = bits(s0, top, less, t);
                assert(bits(s1, top, less, t)(x) == flip_upto(w0, lo as int, half as int, delta as int)(x));
                assert(bits(s1, top, less, t)(x0) == flip_upto(w0, lo as int, half as int, delta as int)(x0));
                assert(bits(s1, top, less, t)(y0) == flip_upto(w0, lo as int, half as int, delta as int)(y0));
            }
        }
        delta = delta + 1;
    }
    proof {
        if half >= 1 {
            lemma_merge_flip(*lt, s0, data@, lo as int, hi as int, half as int);
        }
    }
    // Levels of half-cleaners, down to chunks of 16 positions.
    let mut part = half;
    let ghost mut k: int = 2;
    while part > 16
        invariant
            total(*lt),
            lo < hi <= data@.len(),
            top == hi,
            hi - lo <= isize::MAX,
            len == hi - lo,
            size >= len,
            half == size / 2,
            half >= 1 ==> size == 2 * half,
            perm_in(s0, data@, lo as int, hi as int),
            part <= half,
            half >= 1 ==> is_pow2(part as int),
            half >= 1 ==> k * part == size,
            k >= 2,
            half >= 16 ==> part >= 16,
            half < 16 ==> part == half && k == 2,
            half >= 1 ==> forall|less: spec_fn(T, T) -> bool, t: T|
                orders(*lt, less) ==> #[trigger] level(bits(data@, top, less, t), lo as int, k, part as int),
        decreases part,
    {
        let ghost s1 = data@;
        let ghost h = (part / 2) as int;
        proof {
            assert(part == 2 * h);
            assert(chunk_at(lo as int, k, 2 * h) == lo + size);
        }
        clean_chunks(data, lo, hi, part / 2, Ghost(k), Ghost(top), lt);
        proof {
            lemma_perm_trans(s0, s1, data@, lo as int, hi as int);
            assert((2 * k) * h == k * part) by (nonlinear_arith)
                requires
                    part == 2 * h,
            ;
            assert forall|less: spec_fn(T, T) -> bool, t: T|
                orders(*lt, less) implies #[trigger] level(bits(data@, top, less, t), lo as int, 2 * k, h) by {
                let w = bits(s1, top, less, t);
                let w2 = bits(data@, top, less, t);
                assert(level(w, lo as int, k, 2 * h));
                lemma_level_half(w, w2, lo as int, k, h);
            }
            if h < 16 {
                lemma_small_pow2(h);
            }
            k = 2 * k;
        }
        part = part / 2;
    }
    // The level of the words on which the last four levels work, chunk by chunk of 16.
    let ghost mut lp: int = part as int;
    let ghost mut lk: int = k;
    let ghost mut n16: int = 1;
    let ghost mut m: int = 1;
    proof {
        if half >= 16 {
            lemma_small_pow2(part as int);
            n16 = k;
            lp = 16;
            lk = k;
            m = 1;
        } else {
            n16 = 1;
            if half >= 1 {
                lemma_small_pow2(half as int);
                assert forall|less: spec_fn(T, T) -> bool, t: T|
                    orders(*lt, less) implies #[trigger] level(bits(data@, top, less, t), lo as int, 16int / (half as int), half as int) by {
                    let w = bits(data@, top, less, t);
                    assert(level(w, lo as int, 2, half as int));
                    assert(chunk_at(lo as int, 2, half as int) == lo + size);
                    assert(chunk_at(lo as int, 16int / (half as int), half as int) == lo + 16);
                    lemma_level_extend(w, lo as int, 2, 16int / (half as int), half as int);
                }
                lp = half as int;
                lk = 16int / (half as int);
                m = lk;
            } else {
                assert forall|less: spec_fn(T, T) -> bool, t: T|
                    orders(*lt, less) implies #[trigger] level(bits(data@, top, less, t), lo as int, 16, 1) by {
                    let w = bits(data@, top, less, t);
                    lemma_chunk_next(lo as int, 0, 1);
                    if w(lo as int) {
                        assert(shape(w, lo as int, 1, lo as int, lo + 1, false));
                    } else {
                        assert(shape(w, lo as int, 1, lo as int, lo as int, false));
                    }
                    assert(level(w, lo as int, 1, 1));
                    assert(chunk_at(lo as int, 16, 1) == lo + 16);
                    lemma_level_extend(w, lo as int, 1, 16, 1);
                }
                lp = 1;
                lk = 16;
                m = 16;
            }
        }
        assert(m * lp == 16);
        assert(lk == n16 * m);
        assert(hi <= chunk_at(lo as int, n16, 16));
    }
    let ghost s_lv = data@;
    let mut start = lo;
    let ghost mut j: int = 0;
    proof {
        lemma_chunk_next(lo as int, 0, 16);
        lemma_perm_refl(s_lv, lo as int, lo as int);
    }
    while start < hi
        invariant
            total(*lt),
            lo <= start <= hi <= data@.len(),
            top == hi,
            hi - lo <= isize::MAX,
            lp == 1 || lp == 2 || lp == 4 || lp == 8 || lp == 16,
            m * lp == 16,
            lk == n16 * m,
            0 <= j <= n16,
            hi <= chunk_at(lo as int, n16, 16),
            start <= chunk_at(lo as int, j, 16),
            start < hi ==> start == chunk_at(lo as int, j, 16),
            perm_in(s_lv, data@, lo as int, start as int),
            forall|less: spec_fn(T, T) -> bool, t: T|
                orders(*lt, less) ==> #[trigger] level(bits(s_lv, top, less, t), lo as int, lk, lp),
            forall|less: spec_fn(T, T) -> bool, t: T, j2: int|
                orders(*lt, less) && 0 <= j2 < j ==> #[trigger] sorted_word(bits(data@, top, less, t), chunk_at(lo as int, j2, 16), 16),
            forall|j2: int| 0 <= j2 < j ==> #[trigger] sourced(data@, s_lv, chunk_at(lo as int, j2, 16), chunk_end(lo as int, j2, 16, hi as int)),
        decreases hi - start,
    {
        proof {
            lemma_chunk_order(lo as int, j, n16, 16);
            if n16 <= j {
                lemma_chunk_order(lo as int, n16, j, 16);
            }
            lemma_chunk_next(lo as int, j, 16);
        }
        let end = if hi - start < 16 { hi } else { start + 16 };
        let ghost s1 = data@;
        proof {
            assert forall|less: spec_fn(T, T) -> bool, t: T|
                orders(*lt, less) implies #[trigger] level(bits(s1, top, less, t), start as int, m, lp) by {
                let wl = bits(s_lv, top, less, t);
                let w1 = bits(s1, top, less, t);
                assert((j + 1) * m <= lk) by (nonlinear_arith)
                    requires
                        0 <= j < n16,
                        lk == n16 * m,
                        m > 0,
                ;
                lemma_level_sub(wl, lo as int, lk, lp, j, m);
                assert(chunk_at(lo as int, j, m * lp) == start);
                assert(chunk_at(start as int, m, lp) == start + 16);
                assert forall|x: int| start <= x < chunk_at(start as int, m, lp) implies #[trigger] wl(x) == w1(x) by {
                    if x < hi {
                        assert(s1[x] == s_lv[x]);
                    }
                }
                lemma_level_agree(wl, w1, start as int, m, lp);
            }
        }
        merge16(data, start, end, Ghost(lp), Ghost(m), Ghost(top), lt);
        proof {
            lemma_perm_widen(s_lv, s1, lo as int, start as int, lo as int, end as int);
            lemma_perm_widen(s1, data@, start as int, end as int, lo as int, end as int);
            lemma_perm_trans(s_lv, s1, data@, lo as int, end as int);
            assert(chunk_end(lo as int, j, 16, hi as int) == end);
            assert forall|less: spec_fn(T, T) -> bool, t: T, j2: int|
                orders(*lt, less) && 0 <= j2 < j + 1 implies #[trigger] sorted_word(bits(data@, top, less, t), chunk_at(lo as int, j2, 16), 16) by {
                if j2 < j {
                    lemma_chunk_order(lo as int, j2, j, 16);
                    let a = chunk_at(lo as int, j2, 16);
                    let w = bits(data@, top, less, t);
                    let w1 = bits(s1, top, less, t);
                    assert(sorted_word(w1, a, 16));
                    assert forall|x: int, y: int| a <= x < y < a + 16 && #[trigger] w(x) implies #[trigger] w(y) by {
                        assert(w1(x) == w(x));
                        assert(w1(y) == w(y));
                    }
                }
            }
            assert forall|j2: int| 0 <= j2 < j + 1 implies #[trigger] sourced(data@, s_lv, chunk_at(lo as int, j2, 16), chunk_end(lo as int, j2, 16, hi as int)) by {
                let a = chunk_at(lo as int, j2, 16);
                let b = chunk_end(lo as int, j2, 16, hi as int);
                if j2 < j {
                    lemma_chunk_order(lo as int, j2, j, 16);
                    assert(sourced(s1, s_lv, a, b));
                    assert forall|x: int| a <= x < b implies #[trigger] occurs_in(s_lv, a, b, data@[x]) by {
                        assert(data@[x] == s1[x]);
                        assert(occurs_in(s_lv, a, b, s1[x]));
                    }
                    assert(sourced(data@, s_lv, a, b));
                } else {
                    assert forall|x: int| a <= x < b implies #[trigger] occurs_in(s_lv, a, b, data@[x]) by {
                        let x2 = lemma_perm_source(s1, data@, start as int, end as int, x);
                        assert(s1[x2] == s_lv[x2]);
                    }
                    assert(a == start);
                    assert(b == end);
                    assert(sourced(data@, s_lv, a, b));
                }
            }
            j = j + 1;
        }
        start = end;
    }
    proof {
        assert forall|less: spec_fn(T, T) -> bool, t: T, j2: int|
            orders(*lt, less) && 0 <= j2 < n16 implies #[trigger] sorted_word(bits(data@, top, less, t), chunk_at(lo as int, j2, 16), 16) by {
            if j2 >= j {
                lemma_chunk_order(lo as int, j, j2, 16);
                let a = chunk_at(lo as int, j2, 16);
                let w = bits(data@, top, less, t);
                assert forall|x: int, y: int| a <= x < y < a + 16 && #[trigger] w(x) implies #[trigger] w(y) by {
                }
            }
        }
        assert forall|j2: int| 0 <= j2 < n16 implies #[trigger] sourced(data@, s_lv, chunk_at(lo as int, j2, 16), chunk_end(lo as int, j2, 16, hi as int)) by {
            if j2 >= j {
                lemma_chunk_order(lo as int, j, j2, 16);
                assert(chunk_at(lo as int, j2, 16) >= hi);
                assert(chunk_end(lo as int, j2, 16, hi as int) == hi);
            }
        }
        lemma_merge_finish(*lt, s_lv, data@, lo as int, hi as int, lk, lp, m, n16);
        lemma_perm_trans(s0, s_lv, data@, lo as int, hi as int);
    }
}

/// One level of half-cleaners on the chunk `[lo, lo + 16)` of words at a level of chunks of `q`
/// positions: a half-cleaner at least as wide as those chunks changes nothing, and one half as wide
/// splits each of them into two.
proof fn lemma_clean_step<T, F: Fn(&T, &T) -> bool>(
    lt: F,
    s: Seq<T>,
    s2: Seq<T>,
    top: int,
    lo: int,
    h: int,
    k: int,
    q: int,
    kq: int,
)
    requires
        h > 0,
        q > 0,
        kq * q == 16,
        k * (2 * h) == 16,
        h >= q || 2 * h == q,
        forall|less: spec_fn(T, T) -> bool, t: T| orders(lt, less) ==> #[trigger] level(bits(s, top, less, t), lo, kq, q),
        forall|less: spec_fn(T, T) -> bool, t: T, c: int, x: int|
            orders(lt, less) && 0 <= c < k && chunk_at(lo, c, 2 * h) <= x < chunk_at(lo, c, 2 * h) + 2 * h
                ==> bits(s2, top, less, t)(x) == #[trigger] half_clean(bits(s, top, less, t), chunk_at(lo, c, 2 * h), h)(x),
    ensures
        h >= q ==> forall|less: spec_fn(T, T) -> bool, t: T|
            orders(lt, less) ==> #[trigger] level(bits(s2, top, less, t), lo, kq, q),
        2 * h == q ==> forall|less: spec_fn(T, T) -> bool, t: T|
            orders(lt, less) ==> #[trigger] level(bits(s2, top, less, t), lo, 2 * kq, h),
{
    assert(chunk_at(lo, kq, q) == lo + 16);
    assert(chunk_at(lo, k, 2 * h) == lo + 16);
    assert(kq > 0) by (nonlinear_arith)
        requires
            kq * q == 16,
            q > 0,
    ;
    assert(k > 0) by (nonlinear_arith)
        requires
            k * (2 * h) == 16,
            h > 0,
    ;
    if 2 * h == q {
        assert(k == kq) by (nonlinear_arith)
            requires
                k * (2 * h) == 16,
                kq * q == 16,
                2 * h == q,
        ;
        assert forall|less: spec_fn(T, T) -> bool, t: T| orders(lt, less) implies #[trigger] level(bits(s2, top, less, t), lo, 2 * kq, h) by {
            let w = bits(s, top, less, t);
            let w2 = bits(s2, top, less, t);
            assert(level(w, lo, kq, q));
            assert forall|c: int, x: int|
                0 <= c < kq && chunk_at(lo, c, 2 * h) <= x < chunk_at(lo, c, 2 * h) + 2 * h implies w2(x)
                    == #[trigger] half_clean(w, chunk_at(lo, c, 2 * h), h)(x) by {
            }
            lemma_level_half(w, w2, lo, kq, h);
        }
    } else {
        assert forall|less: spec_fn(T, T) -> bool, t: T| orders(lt, less) implies #[trigger] level(bits(s2, top, less, t), lo, kq, q) by {
            let w = bits(s, top, less, t);
            let w2 = bits(s2, top, less, t);
            assert(level(w, lo, kq, q));
            assert forall|x: int| lo <= x < chunk_at(lo, kq, q) implies #[trigger] w(x) == w2(x) by {
                assert(chunk_at(lo, k, 2 * h) == chunk_at(lo, kq, q));
                let c = lemma_locate(lo, k, 2 * h, x);
                let a = chunk_at(lo, c, 2 * h);
                lemma_chunk_order(lo, c, k, 2 * h);
                assert forall|y: int| a <= y < a + h && #[trigger] w(y) implies w(y + h) by {
                    if w(y) {
                        lemma_level_far(w, lo, kq, q, y, y + h);
                    }
                }
                lemma_half_clean_id(w, a, h);
                assert(w2(x) == half_clean(w, chunk_at(lo, c, 2 * h), h)(x));
            }
            lemma_level_agree(w, w2, lo, kq, q);
        }
    }
}

/// The last four levels of half-cleaners of the bitonic merge, on a chunk of 16 positions whose
/// words are at a level of chunks of `q` positions; the words of the chunk end sorted.
fn merge16<T, F: Fn(&T, &T) -> bool>(
    data: &mut [T],
    lo: usize,
    hi: usize,
    q: Ghost<int>,
    kq: Ghost<int>,
    top: Ghost<int>,
    lt: &F,
)
    requires
        total(*lt),
        lo < hi <= top@ <= old(data)@.len(),
        hi - lo <= 16,
        hi == top@ || hi == lo + 16,
        q@ == 1 || q@ == 2 || q@ == 4 || q@ == 8 || q@ == 16,
        kq@ * q@ == 16,
        forall|less: spec_fn(T, T) -> bool, t: T|
            orders(*lt, less) ==> #[trigger] level(bits(old(data)@, top@, less, t), lo as int, kq@, q@),
    ensures
        perm_in(old(data)@, final(data)@, lo as int, hi as int),
        forall|less: spec_fn(T, T) -> bool, t: T|
            orders(*lt, less) ==> #[trigger] sorted_word(bits(final(data)@, top@, less, t), lo as int, 16),
{
    let ghost s0 = data@;
    let ghost mut lq = q@;
    let ghost mut lk = kq@;
    proof {
        assert(chunk_at(lo as int, 1, 16) == lo + 16);
        assert(chunk_at(lo as int, 2, 8) == lo + 16);
        assert(chunk_at(lo as int, 4, 4) == lo + 16);
        assert(chunk_at(lo as int, 8, 2) == lo + 16);
    }
    let ghost s1 = data@;
    clean_chunks(data, lo, hi, 8, Ghost(1), top, lt);
    proof {
        lemma_clean_step(*lt, s1, data@, top@, lo as int, 8, 1, lq, lk);
        if lq == 16 {
            lq = 8;
            lk = 2 * lk;
        }
    }
    let ghost s2 = data@;
    clean_chunks(data, lo, hi, 4, Ghost(2), top, lt);
    proof {
        lemma_perm_trans(s0, s2, data@, lo as int, hi as int);
        lemma_clean_step(*lt, s2, data@, top@, lo as int, 4, 2, lq, lk);
        if lq == 8 {
            lq = 4;
            lk = 2 * lk;
        }
    }
    let ghost s3 = data@;
    clean_chunks(data, lo, hi, 2, Ghost(4), top, lt);
    proof {
        lemma_perm_trans(s0, s3, data@, lo as int, hi as int);
        lemma_clean_step(*lt, s3, data@, top@, lo as int, 2, 4, lq, lk);
        if lq == 4 {
            lq = 2;
            lk = 2 * lk;
        }
    }
    let ghost s4 = data@;
    clean_chunks(data, lo, hi, 1, Ghost(8), top, lt);
    proof {
        lemma_perm_trans(s0, s4, data@, lo as int, hi as int);
        lemma_clean_step(*lt, s4, data@, top@, lo as int, 1, 8, lq, lk);
        if lq == 2 {
            lq = 1;
            lk = 2 * lk;
        }
        assert(lq == 1 && lk == 16);
        assert forall|less: spec_fn(T, T) -> bool, t: T|
            orders(*lt, less) implies #[trigger] sorted_word(bits(data@, top@, less, t), lo as int, 16) by {
            let w = bits(data@, top@, less, t);
            assert(level(w, lo as int, 16, 1));
            assert forall|i: int, j: int| lo <= i < j < lo + 16 && #[trigger] w(i) implies #[trigger] w(j) by {
                assert(chunk_at(lo as int, i - lo, 1) == i);
                assert(chunk_at(lo as int, j - lo, 1) == j);
                assert(below(w, chunk_at(lo as int, i - lo, 1), 1, chunk_at(lo as int, j - lo, 1), 1));
            }
        }
    }
}

/// Sorts the range `data[lo..hi)`. For at most 16 elements a sorting network is used; longer
/// ranges are sorted in chunks of 16 that are then merged pairwise, level after level.
pub fn tinysort<T, F: Fn(&T, &T) -> bool>(data: &mut [T], lo: usize, hi: usize, lt: &F)
    requires
        total(*lt),
        lo <= hi <= old(data)@.len(),
        hi - lo <= isize::MAX,
    ensures
        perm_in(old(data)@, final(data)@, lo as int, hi as int),
        sorted_range(*lt, final(data)@, lo as int, hi as int),
    decreases hi - lo,
{
    let ghost s0 = data@;
    let len = hi - lo;
    if len <= 1 {
        proof {
            lemma_perm_refl(s0, lo as int, hi as int);
        }
    } else if len <= 16 {
        sort_at(data, lo, 1, len, lt);
        proof {
            lemma_sorted_contiguous(*lt, data@, lo as int, len as int);
        }
    } else {
        proof {
            lemma_perm_refl(s0, lo as int, hi as int);
            lemma_chunk_next(lo as int, 0, 16);
        }
        // Sort the chunks of 16 elements.
        let mut start = lo;
        let ghost mut c: int = 0;
        while start < hi
            invariant
                total(*lt),
                lo <= start <= hi <= data@.len(),
                hi - lo > 16,
                hi - lo <= isize::MAX,
                perm_in(s0, data@, lo as int, hi as int),
                0 <= c,
                start <= chunk_at(lo as int, c, 16),
                start < hi ==> start == chunk_at(lo as int, c, 16),
                forall|c2: int|
                    0 <= c2 < c ==> #[trigger] sorted_range(*lt, data@, chunk_at(lo as int, c2, 16), chunk_end(lo as int, c2, 16, hi as int)),
            decreases hi - start,
        {
            let end = if hi - start < 16 { hi } else { start + 16 };
            let ghost s1 = data@;
            tinysort(data, start, end, lt);
            proof {
                lemma_perm_widen(s1, data@, start as int, end as int, lo as int, hi as int);
                lemma_perm_trans(s0, s1, data@, lo as int, hi as int);
                lemma_chunk_next(lo as int, c, 16);
                assert forall|c2: int| 0 <= c2 < c + 1 implies #[trigger] sorted_range(*lt, data@, chunk_at(lo as int, c2, 16),
                    chunk_end(lo as int, c2, 16, hi as int)) by {
                    if c2 < c {
                        lemma_chunk_order(lo as int, c2, c, 16);
                        lemma_sorted_same(*lt, s1, data@, chunk_at(lo as int, c2, 16), chunk_end(lo as int, c2, 16, hi as int));
                    } else {
                        assert(chunk_end(lo as int, c2, 16, hi as int) == end);
                    }
                }
                c = c + 1;
            }
            start = end;
        }
        proof {
            assert forall|c2: int| 0 <= c2 && chunk_at(lo as int, c2, 16) < hi implies #[trigger] sorted_range(*lt, data@,
                chunk_at(lo as int, c2, 16), chunk_end(lo as int, c2, 16, hi as int)) by {
                if c2 >= c {
                    lemma_chunk_order(lo as int, c, c2, 16);
                }
            }
            assert(is_pow2(16)) by {
                reveal_with_fuel(is_pow2, 5);
            }
        }
        // Merge the sorted chunks pairwise, doubling their size each time.
        let mut size: usize = 16;
        while size < len
            invariant
                total(*lt),
                lo < hi <= data@.len(),
                len == hi - lo,
                hi - lo <= isize::MAX,
                16 <= size < 2 * len,
                is_pow2(size as int),
                perm_in(s0, data@, lo as int, hi as int),
                forall|c2: int|
                    0 <= c2 && chunk_at(lo as int, c2, size as int) < hi ==> #[trigger] sorted_range(*lt, data@,
                        chunk_at(lo as int, c2, size as int), chunk_end(lo as int, c2, size as int, hi as int)),
            decreases 2 * len - size,
        {
            let ghost hs = size as int;
            proof {
                assert(is_pow2(2 * hs));
            }
            size = size * 2;
            let ghost sb = data@;
            let mut start = lo;
            let ghost mut c: int = 0;
            proof {
                lemma_chunk_next(lo as int, 0, size as int);
                lemma_perm_refl(sb, lo as int, lo as int);
            }
            while start < hi
                invariant
                    total(*lt),
                    lo <= start <= hi <= data@.len(),
                    len == hi - lo,
                    hi - lo <= isize::MAX,
                    size == 2 * hs,
                    16 <= hs,
                    size < 4 * len,
                    is_pow2(size as int),
                    perm_in(s0, sb, lo as int, hi as int),
                    perm_in(sb, data@, lo as int, start as int),
                    0 <= c,
                    start <= chunk_at(lo as int, c, size as int),
                    start < hi ==> start == chunk_at(lo as int, c, size as int),
                    forall|c2: int|
                        0 <= c2 && chunk_at(lo as int, c2, hs) < hi ==> #[trigger] sorted_range(*lt, sb,
                            chunk_at(lo as int, c2, hs), chunk_end(lo as int, c2, hs, hi as int)),
                    forall|c2: int|
                        0 <= c2 < c ==> #[trigger] sorted_range(*lt, data@, chunk_at(lo as int, c2, size as int),
                            chunk_end(lo as int, c2, size as int, hi as int)),
                decreases hi - start,
            {
                let end = if hi - start < size { hi } else { start + size };
                let ghost s1 = data@;
                proof {
                    let n = end - start;
                    assert((2 * c) * hs == c * (2 * hs) && (2 * c + 1) * hs == c * (2 * hs) + hs) by (nonlinear_arith);
                    assert(chunk_at(lo as int, c, size as int) == chunk_at(lo as int, c, 2 * hs));
                    assert(chunk_at(lo as int, 2 * c, hs) == start);
                    assert(chunk_at(lo as int, 2 * c + 1, hs) == start + hs);
                    // The first half-size chunk is sorted, and the second one if it is there.
                    assert(sorted_range(*lt, sb, chunk_at(lo as int, 2 * c, hs), chunk_end(lo as int, 2 * c, hs, hi as int)));
                    lemma_sorted_same(*lt, sb, s1, start as int, chunk_end(lo as int, 2 * c, hs, hi as int));
                    if start + hs < hi {
                        assert(sorted_range(*lt, sb, chunk_at(lo as int, 2 * c + 1, hs), chunk_end(lo as int, 2 * c + 1, hs, hi as int)));
                        assert(chunk_end(lo as int, 2 * c + 1, hs, hi as int) == end);
                        lemma_sorted_same(*lt, sb, s1, start + hs, end as int);
                    }
                    if n > hs {
                        lemma_pow2_from_exact(n, 1, size as int);
                    } else {
                        lemma_pow2_from_bounds(n, 1);
                        let m = pow2_from(n, 1) / 2;
                        lemma_sorted_sub(*lt, s1, start as int, end as int, start as int, start + m);
                        lemma_sorted_sub(*lt, s1, start as int, end as int, start + m, end as int);
                    }
                }
                merge(data, start, end, lt);
                proof {
                    lemma_perm_widen(sb, s1, lo as int, start as int, lo as int, end as int);
                    lemma_perm_widen(s1, data@, start as int, end as int, lo as int, end as int);
                    lemma_perm_trans(sb, s1, data@, lo as int, end as int);
                    lemma_chunk_next(lo as int, c, size as int);
                    assert forall|c2: int| 0 <= c2 < c + 1 implies #[trigger] sorted_range(*lt, data@, chunk_at(lo as int, c2, size as int),
                        chunk_end(lo as int, c2, size as int, hi as int)) by {
                        if c2 < c {
                            lemma_chunk_order(lo as int, c2, c, size as int);
                            lemma_sorted_same(*lt, s1, data@, chunk_at(lo as int, c2, size as int), chunk_end(lo as int, c2, size as int, hi as int));
                        } else {
                            assert(chunk_end(lo as int, c2, size as int, hi as int) == end);
                        }
                    }
                    c = c + 1;
                }
                start = end;
            }
            proof {
                lemma_perm_trans(s0, sb, data@, lo as int, hi as int);
                assert forall|c2: int| 0 <= c2 && chunk_at(lo as int, c2, size as int) < hi implies #[trigger] sorted_range(*lt, data@,
                    chunk_at(lo as int, c2, size as int), chunk_end(lo as int, c2, size as int, hi as int)) by {
                    if c2 >= c {
                        lemma_chunk_order(lo as int, c, c2, size as int);
                    }
                }
            }
        }
        proof {
            lemma_chunk_next(lo as int, 0, size as int);
            assert(chunk_at(lo as int, 0, size as int) < hi);
            assert(chunk_end(lo as int, 0, size as int, hi as int) == hi);
        }
    }
}

} // verus!
