//! Block partitioning: the elements of a range are compared with the pivot a block at a time,
//! the positions of the misplaced ones are written to small offset buffers, and misplaced
//! elements of a left and a right block are then exchanged.
use vstd::prelude::*;
use crate::order::{total, known_lt, known_le, all_lt, all_ge, lemma_answer};
use crate::perm::{perm_in, swapped, slice_swap, lemma_perm_refl, lemma_perm_swap, lemma_perm_trans, lemma_perm_widen};

verus! {

/// Number of elements in a full block.
pub const BLOCK: usize = 128;

/// No entry of `offs[start..end)` is `d`.
pub open spec fn unmarked(offs: Seq<u8>, start: int, end: int, d: int) -> bool {
    forall|m: int| start <= m < end ==> offs[m] != d
}

/// The entries of `offs[start..end)` increase strictly and lie below `width`.
pub open spec fn marks(offs: Seq<u8>, start: int, end: int, width: int) -> bool {
    &&& 0 <= start <= end <= offs.len()
    &&& forall|m: int| start <= m < end ==> #[trigger] offs[m] < width
    &&& forall|m1: int, m2: int| start <= m1 < m2 < end ==> #[trigger] offs[m1] < #[trigger] offs[m2]
}

/// The left block `[l, l + width)`: the marked positions `l + offs[m]` hold elements not less
/// than the pivot, the other positions elements less than it.
pub open spec fn left_block<T, F: Fn(&T, &T) -> bool>(
    lt: F,
    s: Seq<T>,
    l: int,
    width: int,
    offs: Seq<u8>,
    start: int,
    end: int,
    pivot: T,
) -> bool {
    &&& marks(offs, start, end, width)
    &&& forall|m: int| start <= m < end ==> known_le(lt, pivot, s[l + #[trigger] offs[m]])
    &&& forall|q: int|
        l <= q < l + width && unmarked(offs, start, end, q - l) ==> known_lt(lt, #[trigger] s[q], pivot)
}

/// The right block `[r - width, r)`: the marked positions `r - 1 - offs[m]` hold elements less
/// than the pivot, the other positions elements not less than it.
pub open spec fn right_block<T, F: Fn(&T, &T) -> bool>(
    lt: F,
    s: Seq<T>,
    r: int,
    width: int,
    offs: Seq<u8>,
    start: int,
    end: int,
    pivot: T,
) -> bool {
    &&& marks(offs, start, end, width)
    &&& forall|m: int| start <= m < end ==> known_lt(lt, s[r - 1 - #[trigger] offs[m]], pivot)
    &&& forall|q: int|
        r - width <= q < r && unmarked(offs, start, end, r - 1 - q) ==> known_le(lt, pivot, #[trigger] s[q])
}

/// A part of a window of marks is a window of marks.
proof fn lemma_marks_sub(offs: Seq<u8>, start: int, end: int, width: int, start2: int, end2: int)
    requires
        marks(offs, start, end, width),
        start <= start2 <= end2 <= end,
    ensures
        marks(offs, start2, end2, width),
{
}

/// A block that is entirely marked: the offsets are `0, 1, 2, ...`.
proof fn lemma_full_marks(offs: Seq<u8>, start: int, end: int, width: int)
    requires
        marks(offs, start, end, width),
        end - start == width,
    ensures
        forall|m: int| start <= m < end ==> #[trigger] offs[m] == m - start,
{
    assert forall|m: int| start <= m < end implies #[trigger] offs[m] >= m - start by {
        lemma_marks_below(offs, start, end, width, m);
    }
    assert forall|m: int| start <= m < end implies #[trigger] offs[m] <= m - start by {
        lemma_marks_above(offs, start, end, width, m);
    }
}

proof fn lemma_marks_below(offs: Seq<u8>, start: int, end: int, width: int, m: int)
    requires
        marks(offs, start, end, width),
        start <= m < end,
    ensures
        offs[m] >= m - start,
    decreases m - start,
{
    if m > start {
        lemma_marks_below(offs, start, end, width, m - 1);
        assert(offs[m - 1] < offs[m]);
    }
}

proof fn lemma_marks_above(offs: Seq<u8>, start: int, end: int, width: int, m: int)
    requires
        marks(offs, start, end, width),
        start <= m < end,
    ensures
        offs[m] <= width - (end - m),
    decreases end - m,
{
    if m < end - 1 {
        lemma_marks_above(offs, start, end, width, m + 1);
        assert(offs[m] < offs[m + 1]);
    }
}

/// Compares `block` elements starting at `l` with the pivot `data[p]` and records, in increasing
/// order, the offsets of those that are not less than it.
fn scan_left<T, F: Fn(&T, &T) -> bool>(
    data: &[T],
    l: usize,
    block: usize,
    p: usize,
    offsets: &mut [u8; 128],
    lt: &F,
) -> (end: usize)
    requires
        total(*lt),
        block <= BLOCK,
        l + block <= data@.len(),
        p < data@.len(),
    ensures
        end <= block,
        left_block(*lt, data@, l as int, block as int, final(offsets)@, 0, end as int, data@[p as int]),
{
    let ghost pivot = data@[p as int];
    let len = data.len();
    let mut end: usize = 0;
    let mut i: usize = 0;
    while i < block
        invariant
            len == data@.len(),
            total(*lt),
            block <= BLOCK,
            l + block <= data@.len(),
            p < data@.len(),
            pivot == data@[p as int],
            end <= i <= block,
            offsets@.len() == 128,
            left_block(*lt, data@, l as int, i as int, offsets@, 0, end as int, pivot),
        decreases block - i,
    {
        let ghost o0 = offsets@;
        offsets[end] = i as u8;
        let is_less = lt(&data[l + i], &data[p]);
        proof {
            lemma_answer(*lt, data@[l + i], pivot, is_less);
            assert forall|m: int| 0 <= m < end implies #[trigger] offsets@[m] == o0[m] by {}
        }
        if !is_less {
            end = end + 1;
        }
        proof {
            let o = offsets@;
            assert forall|q: int|
                l <= q < l + i + 1 && unmarked(o, 0, end as int, q - l) implies known_lt(
                *lt,
                #[trigger] data@[q],
                pivot,
            ) by {
                if q < l + i {
                    if !is_less {
                        assert forall|m: int| 0 <= m < end - 1 implies o0[m] != q - l by {
                            assert(o[m] == o0[m]);
                        }
                    } else {
                        assert forall|m: int| 0 <= m < end implies o0[m] != q - l by {
                            assert(o[m] == o0[m]);
                        }
                    }
                } else if !is_less {
                    assert(o[end - 1] == i);
                }
            }
        }
        i = i + 1;
    }
    end
}

/// Compares `block` elements ending just before `r` with the pivot `data[p]`, from right to
/// left, and records, in increasing order, the offsets from `r - 1` of those that are less than it.
fn scan_right<T, F: Fn(&T, &T) -> bool>(
    data: &[T],
    r: usize,
    block: usize,
    p: usize,
    offsets: &mut [u8; 128],
    lt: &F,
) -> (end: usize)
    requires
        total(*lt),
        block <= BLOCK,
        block <= r <= data@.len(),
        p < data@.len(),
    ensures
        end <= block,
        right_block(*lt, data@, r as int, block as int, final(offsets)@, 0, end as int, data@[p as int]),
{
    let ghost pivot = data@[p as int];
    let len = data.len();
    let mut end: usize = 0;
    let mut i: usize = 0;
    while i < block
        invariant
            len == data@.len(),
            total(*lt),
            block <= BLOCK,
            block <= r <= data@.len(),
            p < data@.len(),
            pivot == data@[p as int],
            end <= i <= block,
            offsets@.len() == 128,
            right_block(*lt, data@, r as int, i as int, offsets@, 0, end as int, pivot),
        decreases block - i,
    {
        let ghost o0 = offsets@;
        offsets[end] = i as u8;
        let is_less = lt(&data[r - 1 - i], &data[p]);
        proof {
            lemma_answer(*lt, data@[r - 1 - i], pivot, is_less);
            assert forall|m: int| 0 <= m < end implies #[trigger] offsets@[m] == o0[m] by {}
        }
        if is_less {
            end = end + 1;
        }
        proof {
            let o = offsets@;
            assert forall|q: int|
                r - (i + 1) <= q < r && unmarked(o, 0, end as int, r - 1 - q) implies known_le(
                *lt,
                pivot,
                #[trigger] data@[q],
            ) by {
                if q > r - 1 - i {
                    if is_less {
                        assert forall|m: int| 0 <= m < end - 1 implies o0[m] != r - 1 - q by {
                            assert(o[m] == o0[m]);
                        }
                    } else {
                        assert forall|m: int| 0 <= m < end implies o0[m] != r - 1 - q by {
                            assert(o[m] == o0[m]);
                        }
                    }
                } else if is_less {
                    assert(o[end - 1] == i);
                }
            }
        }
        i = i + 1;
    }
    end
}

/// Exchanging the first marked element of the left block with the first marked element of the
/// right block puts both in order, and both stop being marked.
proof fn lemma_exchange_first<T, F: Fn(&T, &T) -> bool>(
    lt: F,
    s: Seq<T>,
    l: int,
    bl: int,
    ol: Seq<u8>,
    sl: int,
    el: int,
    r: int,
    br: int,
    or: Seq<u8>,
    sr: int,
    er: int,
    pivot: T,
)
    requires
        0 <= l,
        l + bl <= r - br,
        r <= s.len(),
        sl < el,
        sr < er,
        left_block(lt, s, l, bl, ol, sl, el, pivot),
        right_block(lt, s, r, br, or, sr, er, pivot),
    ensures
        ({
            let s2 = swapped(s, l + ol[sl], r - 1 - or[sr]);
            &&& left_block(lt, s2, l, bl, ol, sl + 1, el, pivot)
            &&& right_block(lt, s2, r, br, or, sr + 1, er, pivot)
        }),
{
    let a = l + ol[sl];
    let b = r - 1 - or[sr];
    let s2 = swapped(s, a, b);
    assert(ol[sl] < bl && or[sr] < br);
    assert forall|m: int| sl + 1 <= m < el implies known_le(lt, pivot, s2[l + #[trigger] ol[m]]) by {
        assert(ol[sl] < ol[m]);
        assert(known_le(lt, pivot, s[l + ol[m]]));
    }
    assert forall|q: int|
        l <= q < l + bl && unmarked(ol, sl + 1, el, q - l) implies known_lt(lt, #[trigger] s2[q], pivot) by {
        if q != a {
            assert(unmarked(ol, sl, el, q - l));
            assert(known_lt(lt, s[q], pivot));
        } else {
            assert(known_lt(lt, s[r - 1 - or[sr]], pivot));
        }
    }
    assert forall|m: int| sr + 1 <= m < er implies known_lt(lt, s2[r - 1 - #[trigger] or[m]], pivot) by {
        assert(or[sr] < or[m]);
        assert(known_lt(lt, s[r - 1 - or[m]], pivot));
    }
    assert forall|q: int|
        r - br <= q < r && unmarked(or, sr + 1, er, r - 1 - q) implies known_le(lt, pivot, #[trigger] s2[q]) by {
        if q != b {
            assert(unmarked(or, sr, er, r - 1 - q));
            assert(known_le(lt, pivot, s[q]));
        } else {
            assert(known_le(lt, pivot, s[l + ol[sl]]));
        }
    }
}

/// Exchanging the first marked element of the left block with an element just unmarked in the
/// right block, which is not less than the pivot either, keeps both blocks as they are.
proof fn lemma_exchange_carry<T, F: Fn(&T, &T) -> bool>(
    lt: F,
    s: Seq<T>,
    l: int,
    bl: int,
    ol: Seq<u8>,
    sl: int,
    el: int,
    r: int,
    br: int,
    or: Seq<u8>,
    sr: int,
    er: int,
    pivot: T,
)
    requires
        0 <= l,
        l + bl <= r - br,
        r <= s.len(),
        sl < el,
        sr < er,
        marks(or, sr, er, br),
        left_block(lt, s, l, bl, ol, sl, el, pivot),
        right_block(lt, s, r, br, or, sr + 1, er, pivot),
    ensures
        ({
            let s2 = swapped(s, l + ol[sl], r - 1 - or[sr]);
            &&& left_block(lt, s2, l, bl, ol, sl, el, pivot)
            &&& right_block(lt, s2, r, br, or, sr + 1, er, pivot)
        }),
{
    let a = l + ol[sl];
    let b = r - 1 - or[sr];
    let s2 = swapped(s, a, b);
    assert(ol[sl] < bl && or[sr] < br);
    assert(unmarked(or, sr + 1, er, r - 1 - b)) by {
        assert forall|m: int| sr + 1 <= m < er implies or[m] != r - 1 - b by {
            assert(or[sr] < or[m]);
        }
    }
    assert(known_le(lt, pivot, s[b]));
    assert(known_le(lt, pivot, s[a]));
    assert forall|m: int| sl <= m < el implies known_le(lt, pivot, s2[l + #[trigger] ol[m]]) by {
        assert(known_le(lt, pivot, s[l + ol[m]]));
    }
    assert forall|q: int|
        l <= q < l + bl && unmarked(ol, sl, el, q - l) implies known_lt(lt, #[trigger] s2[q], pivot) by {
        assert(known_lt(lt, s[q], pivot));
    }
    assert forall|m: int| sr + 1 <= m < er implies known_lt(lt, s2[r - 1 - #[trigger] or[m]], pivot) by {
        assert(or[sr] < or[m]);
        assert(known_lt(lt, s[r - 1 - or[m]], pivot));
    }
    assert forall|q: int|
        r - br <= q < r && unmarked(or, sr + 1, er, r - 1 - q) implies known_le(lt, pivot, #[trigger] s2[q]) by {
        if q != b {
            assert(known_le(lt, pivot, s[q]));
        }
    }
}

/// Puts the first `count` marked elements of both blocks in order with a cyclic permutation:
/// the `k`-th marked element of the right block goes to the `k`-th marked position of the left
/// block, and the `k + 1`-th marked element of the left block (the first one, for the last `k`) to
/// the `k`-th marked position of the right block. Returns the new window starts.
fn exchange_marked<T, F: Fn(&T, &T) -> bool>(
    data: &mut [T],
    l: usize,
    bl: usize,
    offsets_l: &[u8; 128],
    start_l: usize,
    end_l: usize,
    r: usize,
    br: usize,
    offsets_r: &[u8; 128],
    start_r: usize,
    end_r: usize,
    count: usize,
    pivot: Ghost<T>,
    lt: &F,
) -> (res: (usize, usize))
    requires
        l + bl <= r - br,
        br <= r <= old(data)@.len(),
        0 < count,
        start_l + count <= end_l,
        start_r + count <= end_r,
        left_block(*lt, old(data)@, l as int, bl as int, offsets_l@, start_l as int, end_l as int, pivot@),
        right_block(*lt, old(data)@, r as int, br as int, offsets_r@, start_r as int, end_r as int, pivot@),
    ensures
        res.0 == start_l + count,
        res.1 == start_r + count,
        perm_in(old(data)@, final(data)@, l as int, r as int),
        left_block(*lt, final(data)@, l as int, bl as int, offsets_l@, res.0 as int, end_l as int, pivot@),
        right_block(*lt, final(data)@, r as int, br as int, offsets_r@, res.1 as int, end_r as int, pivot@),
{
    let ghost s0 = data@;
    proof {
        lemma_perm_refl(s0, l as int, r as int);
        assert(offsets_l@[start_l as int] < bl && offsets_r@[start_r as int] < br);
        assert(marks(offsets_r@, start_r as int, end_r as int, br as int));
    }
    let mut sl = start_l;
    let mut sr = start_r;
    let ghost s1 = data@;
    slice_swap(data, l + offsets_l[sl] as usize, r - 1 - offsets_r[sr] as usize);
    proof {
        lemma_perm_swap(s1, l as int, r as int, l + offsets_l@[sl as int], r - 1 - offsets_r@[sr as int]);
        lemma_exchange_first(*lt, s1, l as int, bl as int, offsets_l@, sl as int, end_l as int, r as int,
            br as int, offsets_r@, sr as int, end_r as int, pivot@);
    }
    let mut k: usize = 1;
    while k < count
        invariant
            l + bl <= r - br,
            br <= r <= data@.len(),
            1 <= k <= count,
            sl == start_l + k - 1,
            sr == start_r + k - 1,
            start_l + count <= end_l,
            start_r + count <= end_r,
            marks(offsets_r@, start_r as int, end_r as int, br as int),
            perm_in(s0, data@, l as int, r as int),
            left_block(*lt, data@, l as int, bl as int, offsets_l@, sl + 1, end_l as int, pivot@),
            right_block(*lt, data@, r as int, br as int, offsets_r@, sr + 1, end_r as int, pivot@),
        decreases count - k,
    {
        sl = sl + 1;
        proof {
            lemma_marks_sub(offsets_r@, start_r as int, end_r as int, br as int, sr as int, end_r as int);
            assert(offsets_l@[sl as int] < bl && offsets_r@[sr as int] < br);
        }
        let ghost s2 = data@;
        slice_swap(data, l + offsets_l[sl] as usize, r - 1 - offsets_r[sr] as usize);
        proof {
            lemma_perm_swap(s2, l as int, r as int, l + offsets_l@[sl as int], r - 1 - offsets_r@[sr as int]);
            lemma_perm_trans(s0, s2, data@, l as int, r as int);
            lemma_exchange_carry(*lt, s2, l as int, bl as int, offsets_l@, sl as int, end_l as int, r as int,
                br as int, offsets_r@, sr as int, end_r as int, pivot@);
        }
        sr = sr + 1;
        proof {
            assert(offsets_l@[sl as int] < bl && offsets_r@[sr as int] < br);
        }
        let ghost s3 = data@;
        slice_swap(data, l + offsets_l[sl] as usize, r - 1 - offsets_r[sr] as usize);
        proof {
            lemma_perm_swap(s3, l as int, r as int, l + offsets_l@[sl as int], r - 1 - offsets_r@[sr as int]);
            lemma_perm_trans(s0, s3, data@, l as int, r as int);
            lemma_exchange_first(*lt, s3, l as int, bl as int, offsets_l@, sl as int, end_l as int, r as int,
                br as int, offsets_r@, sr as int, end_r as int, pivot@);
        }
        k = k + 1;
    }
    (sl + 1, sr + 1)
}

/// Exchanges two full blocks whose elements are all marked, element by element.
fn exchange_blocks<T, F: Fn(&T, &T) -> bool>(
    data: &mut [T],
    l: usize,
    r: usize,
    offsets_l: &[u8; 128],
    start_l: usize,
    end_l: usize,
    offsets_r: &[u8; 128],
    start_r: usize,
    end_r: usize,
    pivot: Ghost<T>,
    lt: &F,
)
    requires
        l + BLOCK <= r - BLOCK,
        r <= old(data)@.len(),
        end_l - start_l == BLOCK,
        end_r - start_r == BLOCK,
        left_block(*lt, old(data)@, l as int, BLOCK as int, offsets_l@, start_l as int, end_l as int, pivot@),
        right_block(*lt, old(data)@, r as int, BLOCK as int, offsets_r@, start_r as int, end_r as int, pivot@),
    ensures
        perm_in(old(data)@, final(data)@, l as int, r as int),
        all_lt(*lt, final(data)@, l as int, l + BLOCK, pivot@),
        all_ge(*lt, final(data)@, r - BLOCK, r as int, pivot@),
{
    let ghost s0 = data@;
    proof {
        lemma_perm_refl(s0, l as int, r as int);
        lemma_full_marks(offsets_l@, start_l as int, end_l as int, BLOCK as int);
        lemma_full_marks(offsets_r@, start_r as int, end_r as int, BLOCK as int);
        assert forall|q: int| l <= q < l + BLOCK implies known_le(*lt, pivot@, #[trigger] s0[q]) by {
            let m = start_l + q - l;
            assert(offsets_l@[m] == q - l);
        }
        assert forall|q: int| r - BLOCK <= q < r implies known_lt(*lt, #[trigger] s0[q], pivot@) by {
            let m = start_r + r - 1 - q;
            assert(offsets_r@[m] == r - 1 - q);
        }
    }
    let base = r - BLOCK;
    let mut i: usize = 0;
    while i < BLOCK
        invariant
            l + BLOCK <= base,
            base + BLOCK == r,
            r <= data@.len(),
            i <= BLOCK,
            perm_in(s0, data@, l as int, r as int),
            all_lt(*lt, data@, l as int, l + i, pivot@),
            forall|q: int| l + i <= q < l + BLOCK ==> #[trigger] data@[q] == s0[q],
            forall|q: int| l + i <= q < l + BLOCK ==> known_le(*lt, pivot@, #[trigger] s0[q]),
            all_ge(*lt, data@, base as int, base + i, pivot@),
            forall|q: int| base + i <= q < r ==> #[trigger] data@[q] == s0[q],
            forall|q: int| base + i <= q < r ==> known_lt(*lt, #[trigger] s0[q], pivot@),
        decreases BLOCK - i,
    {
        let ghost s1 = data@;
        slice_swap(data, l + i, base + i);
        proof {
            lemma_perm_swap(s1, l as int, r as int, l + i, base + i);
            lemma_perm_trans(s0, s1, data@, l as int, r as int);
            assert(data@[l + i] == s0[base + i]);
            assert(data@[base + i] == s0[l + i]);
        }
        i = i + 1;
    }
}

/// Moving the last marked element of a left block that ends at `r` to position `r - 1` shortens
/// the block by one.
proof fn lemma_left_tail<T, F: Fn(&T, &T) -> bool>(
    lt: F,
    s: Seq<T>,
    l: int,
    r: int,
    ol: Seq<u8>,
    sl: int,
    el: int,
    pivot: T,
)
    requires
        0 <= l <= r <= s.len(),
        sl < el,
        left_block(lt, s, l, r - l, ol, sl, el, pivot),
    ensures
        l + ol[el - 1] < r,
        ({
            let s2 = swapped(s, l + ol[el - 1], r - 1);
            &&& left_block(lt, s2, l, r - 1 - l, ol, sl, el - 1, pivot)
            &&& known_le(lt, pivot, s2[r - 1])
        }),
{
    let off = ol[el - 1];
    let a = l + off;
    let b = r - 1;
    let s2 = swapped(s, a, b);
    assert(off < r - l);
    assert(known_le(lt, pivot, s[a]));
    if a < b {
        assert(unmarked(ol, sl, el, b - l)) by {
            assert forall|m: int| sl <= m < el implies ol[m] != b - l by {
                if m < el - 1 {
                    assert(ol[m] < ol[el - 1]);
                }
            }
        }
        assert(known_lt(lt, s[b], pivot));
    }
    assert forall|m: int| sl <= m < el - 1 implies #[trigger] ol[m] < r - 1 - l by {
        assert(ol[m] < ol[el - 1]);
    }
    assert forall|m: int| sl <= m < el - 1 implies known_le(lt, pivot, s2[l + #[trigger] ol[m]]) by {
        assert(ol[m] < ol[el - 1]);
        assert(known_le(lt, pivot, s[l + ol[m]]));
    }
    assert forall|q: int|
        l <= q < r - 1 && unmarked(ol, sl, el - 1, q - l) implies known_lt(lt, #[trigger] s2[q], pivot) by {
        if q != a {
            assert(unmarked(ol, sl, el, q - l));
            assert(known_lt(lt, s[q], pivot));
        }
    }
}

/// Moving the last marked element of a right block that starts at `l` to position `l` shortens
/// the block by one.
proof fn lemma_right_tail<T, F: Fn(&T, &T) -> bool>(
    lt: F,
    s: Seq<T>,
    l: int,
    r: int,
    or: Seq<u8>,
    sr: int,
    er: int,
    pivot: T,
)
    requires
        0 <= l <= r <= s.len(),
        sr < er,
        right_block(lt, s, r, r - l, or, sr, er, pivot),
    ensures
        l <= r - 1 - or[er - 1],
        ({
            let s2 = swapped(s, l, r - 1 - or[er - 1]);
            &&& right_block(lt, s2, r, r - (l + 1), or, sr, er - 1, pivot)
            &&& known_lt(lt, s2[l], pivot)
        }),
{
    let off = or[er - 1];
    let b = r - 1 - off;
    let s2 = swapped(s, l, b);
    assert(off < r - l);
    assert(known_lt(lt, s[b], pivot));
    if l < b {
        assert(unmarked(or, sr, er, r - 1 - l)) by {
            assert forall|m: int| sr <= m < er implies or[m] != r - 1 - l by {
                if m < er - 1 {
                    assert(or[m] < or[er - 1]);
                }
            }
        }
        assert(known_le(lt, pivot, s[l]));
    }
    assert forall|m: int| sr <= m < er - 1 implies #[trigger] or[m] < r - (l + 1) by {
        assert(or[m] < or[er - 1]);
    }
    assert forall|m: int| sr <= m < er - 1 implies known_lt(lt, s2[r - 1 - #[trigger] or[m]], pivot) by {
        assert(or[m] < or[er - 1]);
        assert(known_lt(lt, s[r - 1 - or[m]], pivot));
    }
    assert forall|q: int|
        l + 1 <= q < r && unmarked(or, sr, er - 1, r - 1 - q) implies known_le(lt, pivot, #[trigger] s2[q]) by {
        if q != b {
            assert(unmarked(or, sr, er, r - 1 - q));
            assert(known_le(lt, pivot, s[q]));
        }
    }
}

/// Partitions `data[lo..hi)` into elements less than the pivot `data[p]`, followed by elements
/// that are not less than it. The pivot lies outside the range. Returns the number of elements
/// less than the pivot.
///
/// The range is processed a block of `BLOCK` elements at a time from each end: the offsets of the
/// misplaced elements of a left block (not less than the pivot) and of a right block (less than
/// the pivot) are recorded, and as many of them as possible are exchanged. A block whose
/// misplaced elements have all been exchanged is done. When at most two blocks are left, the
/// block sizes are chosen to cover the rest exactly, and the misplaced elements of the one block
/// that may remain are moved to its far end.
pub fn partition_in_blocks<T, F: Fn(&T, &T) -> bool>(
    data: &mut [T],
    lo: usize,
    hi: usize,
    p: usize,
    lt: &F,
) -> (count: usize)
    requires
        total(*lt),
        lo <= hi <= old(data)@.len(),
        p < old(data)@.len(),
        p < lo || hi <= p,
    ensures
        perm_in(old(data)@, final(data)@, lo as int, hi as int),
        count <= hi - lo,
        all_lt(*lt, final(data)@, lo as int, lo + count, old(data)@[p as int]),
        all_ge(*lt, final(data)@, lo + count, hi as int, old(data)@[p as int]),
{
    let ghost s0 = data@;
    let ghost pivot = data@[p as int];
    let mut l = lo;
    let mut r = hi;
    // The current block on the left side, `[l, l + block_l)`, and the offsets of its misplaced
    // elements not handled yet, `offsets_l[start_l..end_l)`.
    let mut block_l = BLOCK;
    let mut start_l: usize = 0;
    let mut end_l: usize = 0;
    let mut offsets_l = [0u8; 128];
    // The current block on the right side, `[r - block_r, r)`.
    let mut block_r = BLOCK;
    let mut start_r: usize = 0;
    let mut end_r: usize = 0;
    let mut offsets_r = [0u8; 128];
    proof {
        lemma_perm_refl(s0, lo as int, hi as int);
    }
    loop
        invariant_except_break
            block_l == BLOCK,
            block_r == BLOCK,
            !(start_l < end_l && start_r < end_r),
            start_l < end_l ==> l + BLOCK <= r && left_block(*lt, data@, l as int, BLOCK as int,
                offsets_l@, start_l as int, end_l as int, pivot),
            start_r < end_r ==> l + BLOCK <= r && right_block(*lt, data@, r as int, BLOCK as int,
                offsets_r@, start_r as int, end_r as int, pivot),
        invariant
            total(*lt),
            lo <= l <= r <= hi <= data@.len(),
            p < lo || hi <= p,
            p < data@.len(),
            data@[p as int] == pivot,
            perm_in(s0, data@, lo as int, hi as int),
            all_lt(*lt, data@, lo as int, l as int, pivot),
            all_ge(*lt, data@, r as int, hi as int, pivot),
            start_l <= end_l <= 128,
            start_r <= end_r <= 128,
        ensures
            !(start_l < end_l && start_r < end_r),
            start_l < end_l ==> left_block(*lt, data@, l as int, r - l, offsets_l@, start_l as int,
                end_l as int, pivot),
            start_r < end_r ==> right_block(*lt, data@, r as int, r - l, offsets_r@, start_r as int,
                end_r as int, pivot),
            start_l == end_l && start_r == end_r ==> l == r,
        decreases r - l,
    {
        let is_done = r - l <= 2 * BLOCK;
        if is_done {
            // Number of elements not compared with the pivot yet.
            let mut rem = r - l;
            if start_l < end_l || start_r < end_r {
                rem = rem - BLOCK;
            }
            // Choose the block sizes so that the two blocks cover the rest exactly.
            if start_l < end_l {
                block_r = rem;
            } else if start_r < end_r {
                block_l = rem;
            } else {
                block_l = rem / 2;
                block_r = rem - block_l;
            }
        }
        if start_l == end_l {
            end_l = scan_left(data, l, block_l, p, &mut offsets_l, lt);
            start_l = 0;
        }
        if start_r == end_r {
            end_r = scan_right(data, r, block_r, p, &mut offsets_r, lt);
            start_r = 0;
        }
        // Number of misplaced elements to exchange between the two blocks.
        let count = if end_l - start_l < end_r - start_r {
            end_l - start_l
        } else {
            end_r - start_r
        };
        if count > 0 {
            let ghost s1 = data@;
            if count < BLOCK {
                let (a, b) = exchange_marked(data, l, block_l, &offsets_l, start_l, end_l, r, block_r,
                    &offsets_r, start_r, end_r, count, Ghost(pivot), lt);
                start_l = a;
                start_r = b;
            } else {
                // Both blocks are full and entirely misplaced: exchange them as a whole.
                exchange_blocks(data, l, r, &offsets_l, start_l, end_l, &offsets_r, start_r, end_r,
                    Ghost(pivot), lt);
                start_l = end_l;
                start_r = end_r;
            }
            proof {
                lemma_perm_widen(s1, data@, l as int, r as int, lo as int, hi as int);
                lemma_perm_trans(s0, s1, data@, lo as int, hi as int);
            }
        }
        if start_l == end_l {
            // The left block is done.
            l = l + block_l;
        }
        if start_r == end_r {
            // The right block is done.
            r = r - block_r;
        }
        if is_done {
            break;
        }
    }
    if start_l < end_l {
        // The left block remains: move its misplaced elements to its far right.
        while start_l < end_l
            invariant
                total(*lt),
                lo <= l <= r <= hi <= data@.len(),
                start_l <= end_l <= 128,
                perm_in(s0, data@, lo as int, hi as int),
                all_lt(*lt, data@, lo as int, l as int, pivot),
                all_ge(*lt, data@, r as int, hi as int, pivot),
                left_block(*lt, data@, l as int, r - l, offsets_l@, start_l as int, end_l as int, pivot),
            decreases end_l - start_l,
        {
            let ghost s1 = data@;
            proof {
                lemma_left_tail(*lt, s1, l as int, r as int, offsets_l@, start_l as int, end_l as int, pivot);
            }
            end_l = end_l - 1;
            slice_swap(data, l + offsets_l[end_l] as usize, r - 1);
            proof {
                lemma_perm_swap(s1, lo as int, hi as int, l + offsets_l@[end_l as int], r - 1);
                lemma_perm_trans(s0, s1, data@, lo as int, hi as int);
            }
            r = r - 1;
        }
        r - lo
    } else if start_r < end_r {
        // The right block remains: move its misplaced elements to its far left.
        while start_r < end_r
            invariant
                total(*lt),
                lo <= l <= r <= hi <= data@.len(),
                start_r <= end_r <= 128,
                perm_in(s0, data@, lo as int, hi as int),
                all_lt(*lt, data@, lo as int, l as int, pivot),
                all_ge(*lt, data@, r as int, hi as int, pivot),
                right_block(*lt, data@, r as int, r - l, offsets_r@, start_r as int, end_r as int, pivot),
            decreases end_r - start_r,
        {
            let ghost s1 = data@;
            proof {
                lemma_right_tail(*lt, s1, l as int, r as int, offsets_r@, start_r as int, end_r as int, pivot);
            }
            end_r = end_r - 1;
            slice_swap(data, l, r - 1 - offsets_r[end_r] as usize);
            proof {
                lemma_perm_swap(s1, lo as int, hi as int, l as int, r - 1 - offsets_r@[end_r as int]);
                lemma_perm_trans(s0, s1, data@, lo as int, hi as int);
            }
            l = l + 1;
        }
        l - lo
    } else {
        l - lo
    }
}

} // verus!
