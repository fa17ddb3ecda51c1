//! Partitioning a range of a slice around a pivot.
//!
//! All functions work on a range `[lo, hi)` of the slice and leave everything outside it in
//! place; positions are absolute indices into the slice.
use vstd::prelude::*;
use crate::order::{
    total, consistent, lemma_lt_not_ge, known_lt, known_le, all_lt, all_le, all_ge, all_gt, all_eq, lemma_answer,
    lemma_lt_le, lemma_le_le, lemma_lt_le_lt, lemma_le_lt_lt, lemma_le_refl, lemma_reversed,
};
use crate::blocks::partition_in_blocks;
use crate::perm::{perm_in, swapped, slice_swap, lemma_perm_refl, lemma_perm_swap, lemma_perm_trans,
    lemma_perm_all, lemma_perm_widen};

verus! {

/// Partitions `data[lo..hi)` around the element at `index`. Returns `(u, v)` such that the pivot
/// ends at `u`, the elements before it are less than it, the elements in `(u, v]` are equivalent
/// to it, and those after `v` are not less than it:
///
/// ```text
/// ┌─────────────┬──────────────┬──────────────┐
/// │ x < data[u] │ x == data[u] │ x >= data[u] │
/// └─────────────┴──────────────┴──────────────┘
///  lo            u            v               hi
/// ```
pub fn partition_at<T, F: Fn(&T, &T) -> bool>(
    data: &mut [T],
    lo: usize,
    hi: usize,
    index: usize,
    lt: &F,
) -> (res: (usize, usize))
    requires
        total(*lt),
        lo <= index < hi <= old(data)@.len(),
    ensures
        perm_in(old(data)@, final(data)@, lo as int, hi as int),
        lo <= res.0 <= res.1 < hi,
        all_lt(*lt, final(data)@, lo as int, res.0 as int, final(data)@[res.0 as int]),
        all_eq(*lt, final(data)@, res.0 as int, res.1 + 1, final(data)@[res.0 as int]),
        all_ge(*lt, final(data)@, res.1 + 1, hi as int, final(data)@[res.0 as int]),
        final(data)@[res.0 as int] == old(data)@[index as int],
{
    let ghost s0 = data@;
    slice_swap(data, lo, index);
    proof {
        lemma_perm_swap(s0, lo as int, hi as int, lo as int, index as int);
    }
    let ghost s1 = data@;
    let ghost pivot = data@[lo as int];
    let tail = lo + 1;
    // Skip the elements that are already in place.
    let mut l = tail;
    let mut r = hi;
    while l < r
        invariant
            total(*lt),
            tail <= l <= r <= hi <= data@.len(),
            tail == lo + 1,
            data@ == s1,
            data@[lo as int] == pivot,
            all_lt(*lt, data@, tail as int, l as int, pivot),
        ensures
            tail <= l <= r,
            all_lt(*lt, data@, tail as int, l as int, pivot),
        decreases r - l,
    {
        let b = lt(&data[l], &data[lo]);
        proof {
            lemma_answer(*lt, data@[l as int], pivot, b);
        }
        if !b {
            break;
        }
        l = l + 1;
    }
    while l < r
        invariant
            total(*lt),
            tail <= l <= r <= hi <= data@.len(),
            tail == lo + 1,
            data@ == s1,
            data@[lo as int] == pivot,
            all_ge(*lt, data@, r as int, hi as int, pivot),
        ensures
            l <= r <= hi,
            all_ge(*lt, data@, r as int, hi as int, pivot),
        decreases r - l,
    {
        let b = lt(&data[r - 1], &data[lo]);
        proof {
            lemma_answer(*lt, data@[r - 1], pivot, b);
        }
        if b {
            break;
        }
        r = r - 1;
    }
    let m = partition_in_blocks(data, l, r, lo, lt);
    let ghost s2 = data@;
    proof {
        lemma_perm_widen(s1, s2, l as int, r as int, lo as int, hi as int);
        lemma_perm_trans(s0, s1, s2, lo as int, hi as int);
        assert(all_lt(*lt, s2, tail as int, l + m, pivot));
        assert(all_ge(*lt, s2, l + m, hi as int, pivot));
    }
    // `u` is the number of elements less than the pivot.
    let u = l + m - tail;
    let mut v = u;
    // Scan the elements after them while they are not greater than the pivot.
    while v < hi - tail
        invariant
            total(*lt),
            u <= v <= hi - tail,
            tail == lo + 1,
            u == l + m - tail,
            l + m <= hi,
            hi <= data@.len(),
            data@ == s2,
            data@[lo as int] == pivot,
            all_le(*lt, data@, (tail + u) as int, (tail + v) as int, pivot),
        ensures
            u <= v <= hi - tail,
            all_le(*lt, data@, (tail + u) as int, (tail + v) as int, pivot),
        decreases hi - tail - v,
    {
        let b = lt(&data[lo], &data[tail + v]);
        proof {
            lemma_answer(*lt, pivot, data@[tail + v], b);
        }
        if b {
            break;
        }
        v = v + 1;
    }
    slice_swap(data, lo, lo + u);
    proof {
        let s3 = data@;
        lemma_perm_swap(s2, lo as int, hi as int, lo as int, lo + u);
        lemma_perm_trans(s0, s2, s3, lo as int, hi as int);
        assert(s3[lo + u] == pivot);
        lemma_le_refl(*lt, pivot);
        assert forall|k: int| lo <= k < lo + u implies known_lt(*lt, #[trigger] s3[k], pivot) by {
            if k == lo {
                assert(s3[k] == s2[lo + u]);
            } else {
                assert(s3[k] == s2[k]);
            }
        }
        assert forall|k: int| lo + u <= k < lo + v + 1 implies known_le(*lt, #[trigger] s3[k], pivot)
            && known_le(*lt, pivot, s3[k]) by {
            if k == lo + u {
            } else {
                assert(s3[k] == s2[k]);
            }
        }
        assert forall|k: int| lo + v + 1 <= k < hi implies known_le(*lt, pivot, #[trigger] s3[k]) by {
            assert(s3[k] == s2[k]);
        }
    }
    (lo + u, lo + v)
}

/// Exchanging two elements of a range keeps every element of the range at least `x`.
proof fn lemma_all_ge_swap<T, F: Fn(&T, &T) -> bool>(lt: F, s: Seq<T>, lo: int, hi: int, i: int, j: int, x: T)
    requires
        0 <= lo <= i < hi <= s.len(),
        lo <= j < hi,
        all_ge(lt, s, lo, hi, x),
    ensures
        all_ge(lt, swapped(s, i, j), lo, hi, x),
{
    let t = swapped(s, i, j);
    assert forall|k: int| lo <= k < hi implies known_le(lt, x, #[trigger] t[k]) by {
        if k == j {
            assert(t[k] == s[i]);
        } else if k == i {
            assert(t[k] == s[j]);
        } else {
            assert(t[k] == s[k]);
        }
    }
}

/// Puts the minimum elements of `data[lo..hi)` at its beginning, starting from the element at
/// `init` as the first candidate. Returns `(u, v)`, where `u == lo` and `[u, v]` are the positions
/// of the elements equivalent to the minimum; the elements after `v` are greater than it:
///
/// ```text
/// ┌──────────┬─────────┐
/// │ x == min │ x > min │
/// └──────────┴─────────┘
///  u == lo   v
/// ```
pub fn partition_equal_min<T, F: Fn(&T, &T) -> bool>(
    data: &mut [T],
    lo: usize,
    hi: usize,
    init: usize,
    lt: &F,
) -> (res: (usize, usize))
    requires
        total(*lt),
        lo <= init < hi <= old(data)@.len(),
    ensures
        perm_in(old(data)@, final(data)@, lo as int, hi as int),
        res.0 == lo,
        lo <= res.1 < hi,
        all_eq(*lt, final(data)@, lo as int, res.1 + 1, final(data)@[lo as int]),
        all_gt(*lt, final(data)@, res.1 + 1, hi as int, final(data)@[lo as int]),
        consistent(*lt) && all_ge(*lt, old(data)@, lo as int, hi as int, old(data)@[init as int])
            ==> final(data)@[lo as int] == old(data)@[init as int],
{
    let ghost s0 = data@;
    let ghost first = s0[init as int];
    let ghost keeps = consistent(*lt) && all_ge(*lt, s0, lo as int, hi as int, first);
    proof {
        lemma_perm_refl(s0, lo as int, hi as int);
        lemma_le_refl(*lt, data@[lo as int]);
    }
    // With fewer than two elements, there is nothing to do.
    if hi - lo < 2 {
        return (lo, hi - 1);
    }
    slice_swap(data, lo, init);
    proof {
        lemma_perm_swap(s0, lo as int, hi as int, lo as int, init as int);
        lemma_le_refl(*lt, data@[lo as int]);
        if keeps {
            lemma_all_ge_swap(*lt, s0, lo as int, hi as int, lo as int, init as int, first);
        }
    }
    // The current minimum is at `lo`; the elements equal to it follow it up to `dup`, and the
    // scanned elements after `dup` are greater than it.
    let mut dup = lo + 1;
    let mut k = lo + 1;
    while k < hi
        invariant
            total(*lt),
            lo < dup <= k <= hi <= data@.len(),
            perm_in(s0, data@, lo as int, hi as int),
            all_eq(*lt, data@, lo as int, dup as int, data@[lo as int]),
            all_gt(*lt, data@, dup as int, k as int, data@[lo as int]),
            keeps == (consistent(*lt) && all_ge(*lt, s0, lo as int, hi as int, first)),
            keeps ==> data@[lo as int] == first && all_ge(*lt, data@, lo as int, hi as int, first),
        decreases hi - k,
    {
        let ghost s1 = data@;
        let ghost m = data@[lo as int];
        let is_less = lt(&data[k], &data[lo]);
        proof {
            lemma_answer(*lt, s1[k as int], m, is_less);
        }
        if is_less {
            proof {
                if keeps {
                    lemma_lt_not_ge(*lt, s1[k as int], first);
                }
            }
            // A new minimum: everything scanned so far is greater than it.
            slice_swap(data, k, lo);
            proof {
                lemma_perm_swap(s1, lo as int, hi as int, k as int, lo as int);
                lemma_perm_trans(s0, s1, data@, lo as int, hi as int);
                let m2 = s1[k as int];
                assert(data@[lo as int] == m2);
                lemma_le_refl(*lt, m2);
                assert forall|j: int| lo + 1 <= j < k + 1 implies known_lt(*lt, m2, #[trigger] data@[j]) by {
                    if j == k {
                        assert(data@[j] == m);
                    } else {
                        assert(data@[j] == s1[j]);
                        if j < dup {
                            assert(known_le(*lt, m, s1[j]));
                            lemma_lt_le_lt(*lt, m2, m, s1[j]);
                        } else {
                            assert(known_lt(*lt, m, s1[j]));
                            lemma_lt_le(*lt, m, s1[j]);
                            lemma_lt_le_lt(*lt, m2, m, s1[j]);
                        }
                    }
                }
            }
            dup = lo + 1;
        } else {
            let is_greater = lt(&data[lo], &data[k]);
            proof {
                lemma_answer(*lt, m, s1[k as int], is_greater);
            }
            if !is_greater {
                // An element equal to the minimum: move it next to the others.
                if dup < k {
                    slice_swap(data, k, dup);
                    proof {
                        if keeps {
                            lemma_all_ge_swap(*lt, s1, lo as int, hi as int, k as int, dup as int, first);
                        }
                        lemma_perm_swap(s1, lo as int, hi as int, k as int, dup as int);
                        lemma_perm_trans(s0, s1, data@, lo as int, hi as int);
                        assert(data@[dup as int] == s1[k as int]);
                        assert(data@[k as int] == s1[dup as int]);
                    }
                }
                dup = dup + 1;
            }
        }
        k = k + 1;
    }
    (lo, dup - 1)
}

/// Partitions `data[lo..hi)` into three parts using the element at `index` as the pivot.
/// Returns `(u, v)`: the elements before `u` are less than the pivot, those in `[u, v]` are
/// equivalent to it, and those after `v` are greater.
///
/// ```text
/// ┌─────────────┬──────────────┬─────────────┐
/// │ x < data[u] │ x == data[u] │ x > data[u] │
/// └─────────────┴──────────────┴─────────────┘
///                u            v
/// ```
pub fn partition_equal<T, F: Fn(&T, &T) -> bool>(
    data: &mut [T],
    lo: usize,
    hi: usize,
    index: usize,
    lt: &F,
) -> (res: (usize, usize))
    requires
        total(*lt),
        lo <= index < hi <= old(data)@.len(),
    ensures
        perm_in(old(data)@, final(data)@, lo as int, hi as int),
        lo <= res.0 <= res.1 < hi,
        all_lt(*lt, final(data)@, lo as int, res.0 as int, final(data)@[res.0 as int]),
        all_eq(*lt, final(data)@, res.0 as int, res.1 + 1, final(data)@[res.0 as int]),
        all_gt(*lt, final(data)@, res.1 + 1, hi as int, final(data)@[res.0 as int]),
        consistent(*lt) ==> final(data)@[res.0 as int] == old(data)@[index as int],
{
    let ghost s0 = data@;
    let (u, v) = partition_at(data, lo, hi, index, lt);
    let ghost s1 = data@;
    let ghost pivot = s1[u as int];
    proof {
        if u == v {
            lemma_le_refl(*lt, pivot);
            assert(all_ge(*lt, s1, v as int, hi as int, s1[v as int]));
        }
    }
    // The elements from `v` on are not less than the pivot, and `data[v]` is equal to it: the
    // minimum of that part is the pivot.
    let (_, w) = partition_equal_min(data, v, hi, v, lt);
    proof {
        let s2 = data@;
        lemma_perm_widen(s1, s2, v as int, hi as int, lo as int, hi as int);
        lemma_perm_trans(s0, s1, s2, lo as int, hi as int);
        let m = s2[v as int];
        // m is equivalent to the pivot
        let pge = |x: T| known_le(*lt, pivot, x);
        assert forall|k: int| v <= k < hi implies #[trigger] pge(s1[k]) by {
            if k == v {
                assert(known_le(*lt, pivot, s1[k]));
            }
        }
        lemma_perm_all(s1, s2, v as int, hi as int, pge);
        assert(pge(s2[v as int]));
        assert(known_le(*lt, s2[v as int], s2[v as int]));
        assert(known_le(*lt, s1[v as int], pivot));
        assert(known_le(*lt, m, s1[v as int])) by {
            // m is at most every element of s2[v..hi), and s1[v] is one of them
            let j = crate::perm::lemma_perm_source(s2, s1, v as int, hi as int, v as int);
            assert(s2[j] == s1[v as int]);
            if j > w {
                lemma_lt_le(*lt, m, s2[j]);
            }
        }
        lemma_le_le(*lt, m, s1[v as int], pivot);
        let p2 = s2[u as int];
        if u < v {
            assert(p2 == s1[u as int]);
            lemma_le_refl(*lt, pivot);
        } else {
            lemma_le_le(*lt, pivot, m, m);
        }
        assert(known_le(*lt, p2, pivot) && known_le(*lt, pivot, p2));
        assert forall|k: int| lo <= k < u implies known_lt(*lt, #[trigger] s2[k], p2) by {
            assert(s2[k] == s1[k]);
            lemma_lt_le_lt(*lt, s2[k], pivot, p2);
        }
        assert forall|k: int| u <= k < w + 1 implies known_le(*lt, #[trigger] s2[k], p2)
            && known_le(*lt, p2, s2[k]) by {
            if k < v {
                assert(s2[k] == s1[k]);
                lemma_le_le(*lt, s2[k], pivot, p2);
                lemma_le_le(*lt, p2, pivot, s2[k]);
            } else {
                lemma_le_le(*lt, s2[k], m, pivot);
                lemma_le_le(*lt, pivot, m, s2[k]);
                lemma_le_le(*lt, s2[k], pivot, p2);
                lemma_le_le(*lt, p2, pivot, s2[k]);
            }
        }
        assert forall|k: int| w + 1 <= k < hi implies known_lt(*lt, p2, #[trigger] s2[k]) by {
            lemma_le_lt_lt(*lt, pivot, m, s2[k]);
            lemma_le_lt_lt(*lt, p2, pivot, s2[k]);
        }
    }
    (u, w)
}

/// Puts the maximum elements of `data[lo..hi)` at its end, starting from the element at `init` as
/// the first candidate. Returns `(u, v)`, where the elements before `u` are less than the maximum,
/// `[u, v]` are the positions of the elements equivalent to it, and `v == hi - 1`:
///
/// ```text
/// ┌─────────┬──────────┐
/// │ x < max │ x == max │
/// └─────────┴──────────┘
///          u          v == hi - 1
/// ```
pub fn partition_equal_max<T, F: Fn(&T, &T) -> bool>(
    data: &mut [T],
    lo: usize,
    hi: usize,
    init: usize,
    lt: &F,
) -> (res: (usize, usize))
    requires
        total(*lt),
        lo <= init < hi <= old(data)@.len(),
    ensures
        perm_in(old(data)@, final(data)@, lo as int, hi as int),
        lo <= res.0 <= res.1,
        res.1 == hi - 1,
        all_lt(*lt, final(data)@, lo as int, res.0 as int, final(data)@[hi - 1]),
        all_eq(*lt, final(data)@, res.0 as int, hi as int, final(data)@[hi - 1]),
{
    let ghost s0 = data@;
    let rev = |x: &T, y: &T| -> (r: bool)
        requires
            call_requires(lt, (y, x)),
        ensures
            call_ensures(lt, (y, x), r),
        { lt(y, x) };
    proof {
        assert(total(rev));
        lemma_reversed(*lt, rev);
    }
    let (_, v) = partition_equal_min(data, lo, hi, init, &rev);
    let ghost s1 = data@;
    let ghost big = s1[lo as int];
    // `e` elements equal to the maximum are at the beginning, the `g` others follow.
    let e = v - lo + 1;
    let g = hi - v - 1;
    let count = if e < g { e } else { g };
    let mut i: usize = 0;
    proof {
        lemma_perm_refl(s1, lo as int, hi as int);
    }
    while i < count
        invariant
            total(*lt),
            lo <= v < hi <= data@.len(),
            e == v - lo + 1,
            g == hi - v - 1,
            count <= e,
            count <= g,
            i <= count,
            perm_in(s1, data@, lo as int, hi as int),
            forall|j: int| 0 <= j < i ==> #[trigger] data@[lo + j] == s1[hi - count + j],
            forall|j: int| 0 <= j < i ==> #[trigger] data@[hi - count + j] == s1[lo + j],
            forall|j: int| lo + i <= j < hi - count ==> #[trigger] data@[j] == s1[j],
            forall|j: int| hi - count + i <= j < hi ==> #[trigger] data@[j] == s1[j],
        decreases count - i,
    {
        let ghost s2 = data@;
        slice_swap(data, lo + i, hi - count + i);
        proof {
            lemma_perm_swap(s2, lo as int, hi as int, lo + i, hi - count + i);
            lemma_perm_trans(s1, s2, data@, lo as int, hi as int);
        }
        i = i + 1;
    }
    proof {
        let s3 = data@;
        lemma_perm_trans(s0, s1, s3, lo as int, hi as int);
        // Facts about `big` in terms of `lt`.
        assert forall|k: int| lo <= k < v + 1 implies known_le(*lt, #[trigger] s1[k], big)
            && known_le(*lt, big, s1[k]) by {
            assert(known_le(rev, s1[k], big) && known_le(rev, big, s1[k]));
        }
        assert forall|k: int| v + 1 <= k < hi implies known_lt(*lt, #[trigger] s1[k], big) by {
            assert(known_lt(rev, big, s1[k]));
        }
        let u = hi - e;
        assert forall|k: int| u <= k < hi implies known_le(*lt, #[trigger] s3[k], big)
            && known_le(*lt, big, s3[k]) by {
            if k >= hi - count {
                let j = k - (hi - count);
                assert(s3[hi - count + j] == s1[lo + j]);
            } else {
                assert(s3[k] == s1[k]);
            }
        }
        assert forall|k: int| lo <= k < u implies known_lt(*lt, #[trigger] s3[k], big) by {
            if k < lo + count {
                assert(s3[lo + (k - lo)] == s1[hi - count + (k - lo)]);
            } else {
                assert(s3[k] == s1[k]);
            }
        }
        let top = s3[hi - 1];
        assert(known_le(*lt, top, big) && known_le(*lt, big, top));
        assert forall|k: int| lo <= k < u implies known_lt(*lt, #[trigger] s3[k], top) by {
            lemma_lt_le_lt(*lt, s3[k], big, top);
        }
        assert forall|k: int| u <= k < hi implies known_le(*lt, #[trigger] s3[k], top)
            && known_le(*lt, top, s3[k]) by {
            lemma_le_le(*lt, s3[k], big, top);
            lemma_le_le(*lt, top, big, s3[k]);
        }
    }
    (hi - e, hi - 1)
}

/// Finds a minimum element of `data[lo..hi)` and puts it at position `lo`.
pub fn partition_min<T, F: Fn(&T, &T) -> bool>(data: &mut [T], lo: usize, hi: usize, lt: &F)
    requires
        total(*lt),
        lo < hi <= old(data)@.len(),
    ensures
        perm_in(old(data)@, final(data)@, lo as int, hi as int),
        all_ge(*lt, final(data)@, lo as int, hi as int, final(data)@[lo as int]),
        // The last of the minimal elements is the one moved to `lo`.
        exists|m: int|
            lo <= m < hi && final(data)@ == swapped(old(data)@, lo as int, m) && forall|k: int|
                m < k < hi ==> known_lt(*lt, old(data)@[m], #[trigger] old(data)@[k]),
{
    let ghost s0 = data@;
    let mut min = lo;
    let mut k = lo + 1;
    proof {
        lemma_le_refl(*lt, data@[lo as int]);
    }
    while k < hi
        invariant
            total(*lt),
            lo <= min < k <= hi <= data@.len(),
            data@ == s0,
            all_ge(*lt, data@, lo as int, k as int, data@[min as int]),
            forall|j: int| min < j < k ==> known_lt(*lt, s0[min as int], #[trigger] s0[j]),
        decreases hi - k,
    {
        let b = lt(&data[min], &data[k]);
        proof {
            lemma_answer(*lt, data@[min as int], data@[k as int], b);
        }
        if !b {
            // data[k] <= data[min]: it becomes the minimum.
            proof {
                let m = data@[min as int];
                let x = data@[k as int];
                lemma_le_refl(*lt, x);
                assert forall|j: int| lo <= j < k + 1 implies known_le(*lt, x, #[trigger] data@[j]) by {
                    if j < k {
                        lemma_le_le(*lt, x, m, data@[j]);
                    }
                }
            }
            min = k;
        } else {
            proof {
                lemma_lt_le(*lt, data@[min as int], data@[k as int]);
            }
        }
        k = k + 1;
    }
    slice_swap(data, lo, min);
    proof {
        assert(data@ == swapped(s0, lo as int, min as int));
        lemma_perm_swap(s0, lo as int, hi as int, lo as int, min as int);
        let m = s0[min as int];
        assert forall|j: int| lo <= j < hi implies known_le(*lt, m, #[trigger] data@[j]) by {
            if j == lo {
                assert(data@[j] == m);
            } else if j == min {
                assert(data@[j] == s0[lo as int]);
            } else {
                assert(data@[j] == s0[j]);
            }
        }
    }
}

/// Finds a maximum element of `data[lo..hi)` and puts it at position `hi - 1`.
pub fn partition_max<T, F: Fn(&T, &T) -> bool>(data: &mut [T], lo: usize, hi: usize, lt: &F)
    requires
        total(*lt),
        lo < hi <= old(data)@.len(),
    ensures
        perm_in(old(data)@, final(data)@, lo as int, hi as int),
        all_le(*lt, final(data)@, lo as int, hi as int, final(data)@[hi - 1]),
        // The last of the maximal elements is the one moved to `hi - 1`.
        exists|m: int| #![trigger old(data)@[m]]
            lo <= m < hi && final(data)@ == swapped(old(data)@, m, hi - 1) && forall|k: int|
                m < k < hi ==> known_lt(*lt, #[trigger] old(data)@[k], old(data)@[m]),
{
    let ghost s0 = data@;
    let mut max = lo;
    let mut k = lo + 1;
    proof {
        lemma_le_refl(*lt, data@[lo as int]);
    }
    while k < hi
        invariant
            total(*lt),
            lo <= max < k <= hi <= data@.len(),
            data@ == s0,
            all_le(*lt, data@, lo as int, k as int, data@[max as int]),
            forall|j: int| max < j < k ==> known_lt(*lt, #[trigger] s0[j], s0[max as int]),
        decreases hi - k,
    {
        let b = lt(&data[k], &data[max]);
        proof {
            lemma_answer(*lt, data@[k as int], data@[max as int], b);
        }
        if !b {
            // data[max] <= data[k]: it becomes the maximum.
            proof {
                let m = data@[max as int];
                let x = data@[k as int];
                lemma_le_refl(*lt, x);
                assert forall|j: int| lo <= j < k + 1 implies known_le(*lt, #[trigger] data@[j], x) by {
                    if j < k {
                        lemma_le_le(*lt, data@[j], m, x);
                    }
                }
            }
            max = k;
        } else {
            proof {
                lemma_lt_le(*lt, data@[k as int], data@[max as int]);
            }
        }
        k = k + 1;
    }
    slice_swap(data, max, hi - 1);
    proof {
        assert(data@ == swapped(s0, max as int, hi - 1));
        lemma_perm_swap(s0, lo as int, hi as int, max as int, hi - 1);
        let m = s0[max as int];
        assert forall|j: int| lo <= j < hi implies known_le(*lt, #[trigger] data@[j], m) by {
            if j == hi - 1 {
                assert(data@[j] == m);
            } else if j == max {
                assert(data@[j] == s0[hi - 1]);
            } else {
                assert(data@[j] == s0[j]);
            }
        }
    }
}

} // verus!
