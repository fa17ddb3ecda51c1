//! Words of bits and the steps of a bitonic merging network on them.
//!
//! A word maps positions to bits. Under a threshold, a compare-exchange of two elements acts on
//! the word as the compare-exchange of two bits: the first position gets their conjunction, the
//! second their disjunction. The merging network is proved on words: a word is *bitonic* on a
//! region when its set bits, or its clear bits, form one interval of the region.
use vstd::prelude::*;
use crate::order::strict_weak_order;
use crate::perm::swapped;

verus! {

/// In the region `[a, a + m)`, the bits of `w` are set exactly on `[p, q)` (clear exactly on it,
/// when `inv`).
pub open spec fn shape(w: spec_fn(int) -> bool, a: int, m: int, p: int, q: int, inv: bool) -> bool {
    &&& a <= p <= q <= a + m
    &&& forall|x: int| a <= x < a + m ==> #[trigger] w(x) == ((p <= x < q) != inv)
}

/// `w` is bitonic on `[a, a + m)`: its set bits, or its clear bits, form an interval.
pub open spec fn bitonic(w: spec_fn(int) -> bool, a: int, m: int) -> bool {
    exists|p: int, q: int, inv: bool| #[trigger] shape(w, a, m, p, q, inv)
}

/// A set bit in `[a, a + m)` means that every bit of `[b, b + k)` is set.
pub open spec fn below(w: spec_fn(int) -> bool, a: int, m: int, b: int, k: int) -> bool {
    forall|i: int, j: int| a <= i < a + m && b <= j < b + k ==> (#[trigger] w(i) ==> #[trigger] w(j))
}

/// The bits of `[a, a + m)` are sorted: no set bit is followed by a clear bit.
pub open spec fn sorted_word(w: spec_fn(int) -> bool, a: int, m: int) -> bool {
    forall|i: int, j: int| a <= i < j < a + m ==> (#[trigger] w(i) ==> #[trigger] w(j))
}

/// The half-cleaner of `[a, a + 2h)`: position `x` of the first half and `x + h` are
/// compare-exchanged, for every `x`.
pub open spec fn half_clean(w: spec_fn(int) -> bool, a: int, h: int) -> spec_fn(int) -> bool {
    |x: int|
        if a <= x < a + h {
            w(x) && w(x + h)
        } else if a + h <= x < a + 2 * h {
            w(x - h) || w(x)
        } else {
            w(x)
        }
}

/// The flip of `[a, a + 2h)`: position `x` of the first half and its mirror image
/// `2a + 2h - 1 - x` are compare-exchanged, for every `x`.
pub open spec fn flip(w: spec_fn(int) -> bool, a: int, h: int) -> spec_fn(int) -> bool {
    |x: int|
        if a <= x < a + h {
            w(x) && w(2 * a + 2 * h - 1 - x)
        } else if a + h <= x < a + 2 * h {
            w(2 * a + 2 * h - 1 - x) || w(x)
        } else {
            w(x)
        }
}

/// A sorted region is clear up to some position and set from there on.
pub proof fn lemma_sorted_shape(w: spec_fn(int) -> bool, a: int, m: int) -> (p: int)
    requires
        0 <= m,
        sorted_word(w, a, m),
    ensures
        shape(w, a, m, p, a + m, false),
    decreases m,
{
    if m == 0 {
        a
    } else if !w(a + m - 1) {
        assert forall|x: int| a <= x < a + m implies #[trigger] w(x) == ((a + m <= x < a + m) != false) by {
            if x < a + m - 1 && w(x) {
                assert(w(a + m - 1));
            }
        }
        a + m
    } else {
        let p = lemma_sorted_shape(w, a, m - 1);
        p
    }
}

/// Two words that agree on a region are bitonic there together.
pub proof fn lemma_bitonic_agree(w1: spec_fn(int) -> bool, w2: spec_fn(int) -> bool, a: int, m: int)
    requires
        bitonic(w1, a, m),
        forall|x: int| a <= x < a + m ==> #[trigger] w1(x) == w2(x),
    ensures
        bitonic(w2, a, m),
{
    let (p, q, inv) = choose|p: int, q: int, inv: bool| #[trigger] shape(w1, a, m, p, q, inv);
    assert forall|x: int| a <= x < a + m implies #[trigger] w2(x) == ((p <= x < q) != inv) by {
        assert(w1(x) == w2(x));
    }
    assert(shape(w2, a, m, p, q, inv));
}

/// Flipping two sorted halves gives two bitonic halves, the first below the second.
pub proof fn lemma_flip(w: spec_fn(int) -> bool, a: int, h: int, p1: int, p2: int)
    requires
        h > 0,
        shape(w, a, h, p1, a + h, false),
        shape(w, a + h, h, p2, a + 2 * h, false),
    ensures
        bitonic(flip(w, a, h), a, h),
        bitonic(flip(w, a, h), a + h, h),
        below(flip(w, a, h), a, h, a + h, h),
{
    let f = flip(w, a, h);
    let z1 = p1 - a;
    let z2 = p2 - a - h;
    // First half: set on [a + z1, a + h - z2).
    let lq = if z1 < h - z2 { a + h - z2 } else { a + z1 };
    assert forall|x: int| a <= x < a + h implies #[trigger] f(x) == ((a + z1 <= x < lq) != false) by {
        let y = 2 * a + 2 * h - 1 - x;
        assert(w(x) == (p1 <= x));
        assert(w(y) == (p2 <= y));
    }
    assert(shape(f, a, h, a + z1, lq, false));
    // Second half: clear on [a + 2h - z1, a + h + z2) when that is not empty.
    if z2 <= h - z1 {
        assert forall|x: int| a + h <= x < a + 2 * h implies #[trigger] f(x) == ((a + h <= x < a + 2 * h) != false) by {
            let y = 2 * a + 2 * h - 1 - x;
            assert(w(x) == (p2 <= x));
            assert(w(y) == (p1 <= y));
        }
        assert(shape(f, a + h, h, a + h, a + 2 * h, false));
    } else {
        assert forall|x: int| a + h <= x < a + 2 * h implies #[trigger] f(x) == ((a + 2 * h - z1 <= x < a + h + z2) != true) by {
            let y = 2 * a + 2 * h - 1 - x;
            assert(w(x) == (p2 <= x));
            assert(w(y) == (p1 <= y));
        }
        assert(shape(f, a + h, h, a + 2 * h - z1, a + h + z2, true));
    }
    assert forall|i: int, j: int| a <= i < a + h && a + h <= j < a + 2 * h && #[trigger] f(i) implies #[trigger] f(j) by {
        if f(i) {
            assert(a + z1 <= i < lq);
            let y = 2 * a + 2 * h - 1 - j;
            assert(w(j) == (p2 <= j));
            assert(w(y) == (p1 <= y));
        }
    }
}

/// The half-cleaner splits a bitonic region into two bitonic halves, the first below the second.
pub proof fn lemma_half_clean(w: spec_fn(int) -> bool, a: int, h: int)
    requires
        h > 0,
        bitonic(w, a, 2 * h),
    ensures
        bitonic(half_clean(w, a, h), a, h),
        bitonic(half_clean(w, a, h), a + h, h),
        below(half_clean(w, a, h), a, h, a + h, h),
{
    let (p, q, inv) = choose|p: int, q: int, inv: bool| #[trigger] shape(w, a, 2 * h, p, q, inv);
    let c = half_clean(w, a, h);
    let pp = p - a;
    let qq = q - a;
    // The bits of both halves, from those of `w`.
    assert forall|x: int| a <= x < a + h implies
        #[trigger] c(x) == (w(x) && w(x + h)) && w(x) == ((p <= x < q) != inv) && w(x + h) == ((p <= x + h < q) != inv) by {
    }
    assert forall|x: int| a + h <= x < a + 2 * h implies
        #[trigger] c(x) == (w(x - h) || w(x)) && w(x) == ((p <= x < q) != inv) && w(x - h) == ((p <= x - h < q) != inv) by {
    }
    if !inv {
        // First half: set on [p, q - h).
        if pp < qq - h {
            assert(shape(c, a, h, p, q - h, false));
        } else {
            assert(shape(c, a, h, a, a, false));
        }
        // Second half.
        if qq <= h {
            assert(shape(c, a + h, h, p + h, q + h, false));
        } else if pp >= h {
            assert(shape(c, a + h, h, p, q, false));
        } else if qq - h >= pp {
            assert(shape(c, a + h, h, a + h, a + 2 * h, false));
        } else {
            assert(shape(c, a + h, h, q, p + h, true));
        }
    } else {
        // First half.
        if qq <= h {
            assert(shape(c, a, h, p, q, true));
        } else if pp >= h {
            assert(shape(c, a, h, p - h, q - h, true));
        } else if qq - h >= pp {
            assert(shape(c, a, h, a, a + h, true));
        } else {
            assert(shape(c, a, h, q - h, p, false));
        }
        // Second half: clear on [p + h, q) when that is not empty.
        if pp < qq - h {
            assert(shape(c, a + h, h, p + h, q, true));
        } else {
            assert(shape(c, a + h, h, a + h, a + h, true));
        }
    }
    assert forall|i: int, j: int| a <= i < a + h && a + h <= j < a + 2 * h && #[trigger] c(i) implies #[trigger] c(j) by {
        assert(c(i) == (w(i) && w(i + h)));
        assert(c(j) == (w(j - h) || w(j)));
    }
}

/// The half-cleaner leaves a region alone when each bit of its first half is below its partner.
pub proof fn lemma_half_clean_id(w: spec_fn(int) -> bool, a: int, h: int)
    requires
        forall|x: int| a <= x < a + h ==> (#[trigger] w(x) ==> w(x + h)),
    ensures
        forall|x: int| #[trigger] half_clean(w, a, h)(x) == w(x),
{
    assert forall|x: int| #[trigger] half_clean(w, a, h)(x) == w(x) by {
        if a <= x < a + h {
            if w(x) {
                assert(w(x + h));
            }
        } else if a + h <= x < a + 2 * h {
            if w(x - h) {
                assert(w(x));
            }
        }
    }
}

/// The start of chunk `c` of the chunks of `size` positions from `lo`.
pub open spec fn chunk_at(lo: int, c: int, size: int) -> int {
    lo + c * size
}

/// The `k` chunks of `size` positions from `lo` are each bitonic, and each is below the later ones.
pub open spec fn level(w: spec_fn(int) -> bool, lo: int, k: int, size: int) -> bool {
    &&& forall|c: int| 0 <= c < k ==> bitonic(w, #[trigger] chunk_at(lo, c, size), size)
    &&& forall|c1: int, c2: int|
        0 <= c1 < c2 < k ==> below(w, #[trigger] chunk_at(lo, c1, size), size, #[trigger] chunk_at(lo, c2, size), size)
}

pub proof fn lemma_chunk_next(lo: int, c: int, size: int)
    ensures
        chunk_at(lo, c + 1, size) == chunk_at(lo, c, size) + size,
        chunk_at(lo, 0, size) == lo,
{
    assert((c + 1) * size == c * size + size) by (nonlinear_arith);
    assert(0 * size == 0) by (nonlinear_arith);
}

/// Chunks come in the order of their numbers, without overlapping.
pub proof fn lemma_chunk_order(lo: int, c1: int, c2: int, size: int)
    requires
        size > 0,
    ensures
        c1 < c2 <==> chunk_at(lo, c1, size) < chunk_at(lo, c2, size),
        c1 < c2 ==> chunk_at(lo, c1, size) + size <= chunk_at(lo, c2, size),
{
    if c1 < c2 {
        assert(c1 * size + size <= c2 * size) by (nonlinear_arith)
            requires
                size > 0,
                c1 < c2,
        ;
    } else {
        assert(c2 * size <= c1 * size) by (nonlinear_arith)
            requires
                size > 0,
                c2 <= c1,
        ;
    }
}

/// Chunk `d` of half the size is the first or second half of chunk `d / 2`.
pub proof fn lemma_chunk_split(lo: int, d: int, h: int)
    requires
        0 <= d,
    ensures
        chunk_at(lo, d, h) == chunk_at(lo, d / 2, 2 * h) + (d % 2) * h,
{
    let c = d / 2;
    let r = d % 2;
    assert(d == 2 * c + r);
    assert(d * h == c * (2 * h) + r * h) by (nonlinear_arith)
        requires
            d == 2 * c + r,
    ;
}

/// The chunk that holds a position.
pub proof fn lemma_locate(lo: int, k: int, size: int, x: int) -> (c: int)
    requires
        size > 0,
        lo <= x < chunk_at(lo, k, size),
    ensures
        0 <= c < k,
        chunk_at(lo, c, size) <= x < chunk_at(lo, c, size) + size,
{
    let c = (x - lo) / size;
    vstd::arithmetic::div_mod::lemma_fundamental_div_mod(x - lo, size);
    vstd::arithmetic::div_mod::lemma_mod_pos_bound(x - lo, size);
    assert(size * c == c * size) by (nonlinear_arith);
    assert(0 <= c) by (nonlinear_arith)
        requires
            size > 0,
            0 <= x - lo,
            x - lo == size * c + (x - lo) % size,
            (x - lo) % size < size,
    ;
    if c >= k {
        lemma_chunk_order(lo, k, c, size);
        if c > k {
        }
    }
    c
}

/// At a level, a bit that is set implies that every bit at least a chunk further is set.
pub proof fn lemma_level_far(w: spec_fn(int) -> bool, lo: int, k: int, size: int, x: int, y: int)
    requires
        size > 0,
        level(w, lo, k, size),
        lo <= x,
        x + size <= y < chunk_at(lo, k, size),
        w(x),
    ensures
        w(y),
{
    let c1 = lemma_locate(lo, k, size, x);
    let c2 = lemma_locate(lo, k, size, y);
    lemma_chunk_order(lo, c1, c2, size);
    assert(below(w, chunk_at(lo, c1, size), size, chunk_at(lo, c2, size), size));
}

/// Two words that agree on the chunks of a level are at that level together.
pub proof fn lemma_level_agree(w1: spec_fn(int) -> bool, w2: spec_fn(int) -> bool, lo: int, k: int, size: int)
    requires
        size > 0,
        level(w1, lo, k, size),
        forall|x: int| lo <= x < chunk_at(lo, k, size) ==> #[trigger] w1(x) == w2(x),
    ensures
        level(w2, lo, k, size),
{
    assert forall|c: int| 0 <= c < k implies bitonic(w2, #[trigger] chunk_at(lo, c, size), size) by {
        lemma_chunk_order(lo, c, k, size);
        lemma_chunk_order(lo, 0, c, size);
        lemma_chunk_next(lo, c, size);
        lemma_bitonic_agree(w1, w2, chunk_at(lo, c, size), size);
    }
    assert forall|c1: int, c2: int| 0 <= c1 < c2 < k implies below(w2, #[trigger] chunk_at(lo, c1, size), size,
        #[trigger] chunk_at(lo, c2, size), size) by {
        lemma_chunk_order(lo, c2, k, size);
        lemma_chunk_order(lo, 0, c1, size);
        lemma_chunk_order(lo, c1, c2, size);
        lemma_chunk_next(lo, 0, size);
        let a = chunk_at(lo, c1, size);
        let b = chunk_at(lo, c2, size);
        assert(below(w1, a, size, b, size));
        assert forall|i: int, j: int| a <= i < a + size && b <= j < b + size && #[trigger] w2(i) implies #[trigger] w2(j) by {
            assert(w1(i) == w2(i));
            assert(w1(j) == w2(j));
        }
    }
}

/// Applying the half-cleaner to every chunk of a level gives the level of chunks half the size.
pub proof fn lemma_level_half(w: spec_fn(int) -> bool, w2: spec_fn(int) -> bool, lo: int, k: int, h: int)
    requires
        h > 0,
        0 <= k,
        level(w, lo, k, 2 * h),
        forall|c: int, x: int|
            0 <= c < k && chunk_at(lo, c, 2 * h) <= x < chunk_at(lo, c, 2 * h) + 2 * h ==> w2(x)
                == #[trigger] half_clean(w, chunk_at(lo, c, 2 * h), h)(x),
    ensures
        level(w2, lo, 2 * k, h),
{
    assert forall|d: int| 0 <= d < 2 * k implies bitonic(w2, #[trigger] chunk_at(lo, d, h), h) by {
        let c = d / 2;
        let a = chunk_at(lo, c, 2 * h);
        lemma_chunk_split(lo, d, h);
        lemma_half_clean(w, a, h);
        let hc = half_clean(w, a, h);
        let b = a + (d % 2) * h;
        assert(b == a || b == a + h) by {
            if d % 2 == 0 {
                assert((d % 2) * h == 0);
            } else {
                assert(d % 2 == 1);
                assert((d % 2) * h == h);
            }
        }
        assert forall|x: int| b <= x < b + h implies #[trigger] hc(x) == w2(x) by {
            assert(w2(x) == half_clean(w, chunk_at(lo, c, 2 * h), h)(x));
        }
        lemma_bitonic_agree(hc, w2, b, h);
    }
    assert forall|d1: int, d2: int| 0 <= d1 < d2 < 2 * k implies below(w2, #[trigger] chunk_at(lo, d1, h), h,
        #[trigger] chunk_at(lo, d2, h), h) by {
        let c1 = d1 / 2;
        let c2 = d2 / 2;
        let a1 = chunk_at(lo, c1, 2 * h);
        let a2 = chunk_at(lo, c2, 2 * h);
        lemma_chunk_split(lo, d1, h);
        lemma_chunk_split(lo, d2, h);
        let b1 = chunk_at(lo, d1, h);
        let b2 = chunk_at(lo, d2, h);
        assert(b1 == a1 || b1 == a1 + h) by {
            if d1 % 2 == 0 {
                assert((d1 % 2) * h == 0);
            } else {
                assert(d1 % 2 == 1);
                assert((d1 % 2) * h == h);
            }
        }
        assert(b2 == a2 || b2 == a2 + h) by {
            if d2 % 2 == 0 {
                assert((d2 % 2) * h == 0);
            } else {
                assert(d2 % 2 == 1);
                assert((d2 % 2) * h == h);
            }
        }
        let hc1 = half_clean(w, a1, h);
        let hc2 = half_clean(w, a2, h);
        if c1 == c2 {
            lemma_half_clean(w, a1, h);
            assert forall|i: int, j: int| b1 <= i < b1 + h && b2 <= j < b2 + h && #[trigger] w2(i) implies #[trigger] w2(j) by {
                assert(w2(i) == half_clean(w, chunk_at(lo, c1, 2 * h), h)(i));
                assert(w2(j) == half_clean(w, chunk_at(lo, c2, 2 * h), h)(j));
                assert(hc1(i) ==> hc1(j));
            }
        } else {
            lemma_chunk_order(lo, c1, c2, 2 * h);
            assert(below(w, chunk_at(lo, c1, 2 * h), 2 * h, chunk_at(lo, c2, 2 * h), 2 * h));
            assert forall|i: int, j: int| b1 <= i < b1 + h && b2 <= j < b2 + h && #[trigger] w2(i) implies #[trigger] w2(j) by {
                assert(w2(i) == half_clean(w, chunk_at(lo, c1, 2 * h), h)(i));
                assert(w2(j) == half_clean(w, chunk_at(lo, c2, 2 * h), h)(j));
                if w2(i) {
                    if i < a1 + h {
                        assert(w(i));
                        assert(w(i) ==> w(j));
                        if j < a2 + h {
                            assert(w(i) ==> w(j + h));
                        } else {
                            assert(w(i) ==> w(j - h));
                        }
                    } else {
                        assert(w(i - h) || w(i));
                        assert(w(i - h) ==> w(j));
                        assert(w(i) ==> w(j));
                        if j < a2 + h {
                            assert(w(i - h) ==> w(j + h));
                            assert(w(i) ==> w(j + h));
                        } else {
                            assert(w(i - h) ==> w(j - h));
                            assert(w(i) ==> w(j - h));
                        }
                    }
                }
            }
        }
    }
}

/// The word of `s` under the threshold `t`: position `x` is set when `s[x]` is not less than
/// `t`, and every position from `hi` on is set.
pub open spec fn bits<T>(s: Seq<T>, hi: int, less: spec_fn(T, T) -> bool, t: T) -> spec_fn(int) -> bool {
    |x: int| x >= hi || !less(s[x], t)
}

/// A compare-exchange of positions `x < y` acts on every word as the compare-exchange of bits.
pub proof fn lemma_bits_cx<T>(
    s: Seq<T>,
    s2: Seq<T>,
    hi: int,
    less: spec_fn(T, T) -> bool,
    t: T,
    x: int,
    y: int,
)
    requires
        strict_weak_order(less),
        0 <= x < y,
        hi <= s.len(),
        s2 == (if y < hi && less(s[y], s[x]) {
            swapped(s, x, y)
        } else {
            s
        }),
    ensures
        forall|z: int|
            0 <= z ==> #[trigger] bits(s2, hi, less, t)(z) == (if z == x {
                bits(s, hi, less, t)(x) && bits(s, hi, less, t)(y)
            } else if z == y {
                bits(s, hi, less, t)(x) || bits(s, hi, less, t)(y)
            } else {
                bits(s, hi, less, t)(z)
            }),
{
    let w = bits(s, hi, less, t);
    let w2 = bits(s2, hi, less, t);
    if y < hi {
        if less(s[y], s[x]) {
            // The element at `y` is below the one at `x`: `w(y)` implies `w(x)`.
            if !less(s[y], t) && less(s[x], t) {
                assert(less(s[y], t));
            }
        } else {
            // `w(x)` implies `w(y)`.
            if !less(s[x], t) && less(s[y], t) {
                assert(!less(s[y], t));
            }
        }
    }
    assert forall|z: int|
        0 <= z implies #[trigger] w2(z) == (if z == x {
            w(x) && w(y)
        } else if z == y {
            w(x) || w(y)
        } else {
            w(z)
        }) by {
        if y < hi && less(s[y], s[x]) {
            assert(s2[x] == s[y]);
            assert(s2[y] == s[x]);
            if z != x && z != y && z < hi {
                assert(s2[z] == s[z]);
            }
        }
    }
}

/// The half-cleaner of `[a, a + 2h)` after its first `i` compare-exchanges.
pub open spec fn half_clean_upto(w: spec_fn(int) -> bool, a: int, h: int, i: int) -> spec_fn(int) -> bool {
    |x: int|
        if a <= x < a + i {
            w(x) && w(x + h)
        } else if a + h <= x < a + h + i {
            w(x - h) || w(x)
        } else {
            w(x)
        }
}

/// The flip of `[a, a + 2h)` after its first `i` compare-exchanges.
pub open spec fn flip_upto(w: spec_fn(int) -> bool, a: int, h: int, i: int) -> spec_fn(int) -> bool {
    |x: int|
        if a <= x < a + i {
            w(x) && w(2 * a + 2 * h - 1 - x)
        } else if a + 2 * h - i <= x < a + 2 * h {
            w(2 * a + 2 * h - 1 - x) || w(x)
        } else {
            w(x)
        }
}

/// At a level, a set bit before a chunk boundary implies every bit after it is set.
pub proof fn lemma_level_split(w: spec_fn(int) -> bool, lo: int, k: int, size: int, cb: int, x: int, y: int)
    requires
        size > 0,
        level(w, lo, k, size),
        0 <= cb <= k,
        lo <= x < chunk_at(lo, cb, size) <= y < chunk_at(lo, k, size),
        w(x),
    ensures
        w(y),
{
    let c1 = lemma_locate(lo, k, size, x);
    let c2 = lemma_locate(lo, k, size, y);
    if cb <= c1 {
        lemma_chunk_order(lo, cb, c1, size);
    }
    if c2 < cb {
        lemma_chunk_order(lo, c2, cb, size);
    }
    lemma_chunk_order(lo, c1, c2, size);
    assert(below(w, chunk_at(lo, c1, size), size, chunk_at(lo, c2, size), size));
}

/// Set chunks may be added at the end of a level.
pub proof fn lemma_level_extend(w: spec_fn(int) -> bool, lo: int, k: int, k2: int, size: int)
    requires
        size > 0,
        0 <= k <= k2,
        level(w, lo, k, size),
        forall|x: int| chunk_at(lo, k, size) <= x < chunk_at(lo, k2, size) ==> #[trigger] w(x),
    ensures
        level(w, lo, k2, size),
{
    assert forall|c: int| 0 <= c < k2 implies bitonic(w, #[trigger] chunk_at(lo, c, size), size) by {
        if c >= k {
            let a = chunk_at(lo, c, size);
            lemma_chunk_order(lo, c, k2, size);
            if c > k {
                lemma_chunk_order(lo, k, c, size);
            }
            assert forall|x: int| a <= x < a + size implies #[trigger] w(x) == ((a <= x < a + size) != false) by {
            }
            assert(shape(w, a, size, a, a + size, false));
        }
    }
    assert forall|c1: int, c2: int| 0 <= c1 < c2 < k2 implies below(w, #[trigger] chunk_at(lo, c1, size), size,
        #[trigger] chunk_at(lo, c2, size), size) by {
        if c2 >= k {
            let b = chunk_at(lo, c2, size);
            lemma_chunk_order(lo, c2, k2, size);
            if c2 > k {
                lemma_chunk_order(lo, k, c2, size);
            }
            assert forall|i: int, j: int| chunk_at(lo, c1, size) <= i < chunk_at(lo, c1, size) + size && b <= j < b + size
                && #[trigger] w(i) implies #[trigger] w(j) by {
            }
        }
    }
}

/// The chunks of a level that make up chunk `j` of `m` times their size are at that level too.
pub proof fn lemma_level_sub(w: spec_fn(int) -> bool, lo: int, k: int, size: int, j: int, m: int)
    requires
        size > 0,
        m > 0,
        0 <= j,
        (j + 1) * m <= k,
        level(w, lo, k, size),
    ensures
        level(w, chunk_at(lo, j, m * size), m, size),
{
    let b = chunk_at(lo, j, m * size);
    assert forall|c: int| 0 <= c < m implies #[trigger] chunk_at(b, c, size) == chunk_at(lo, j * m + c, size)
        && 0 <= j * m + c < k by {
        assert(j * (m * size) + c * size == (j * m + c) * size) by (nonlinear_arith);
        assert(0 <= j * m + c < k) by (nonlinear_arith)
            requires
                0 <= c < m,
                0 <= j,
                (j + 1) * m <= k,
        ;
    }
    assert forall|c: int| 0 <= c < m implies bitonic(w, #[trigger] chunk_at(b, c, size), size) by {
        assert(chunk_at(b, c, size) == chunk_at(lo, j * m + c, size));
    }
    assert forall|c1: int, c2: int| 0 <= c1 < c2 < m implies below(w, #[trigger] chunk_at(b, c1, size), size,
        #[trigger] chunk_at(b, c2, size), size) by {
        assert(chunk_at(b, c1, size) == chunk_at(lo, j * m + c1, size));
        assert(chunk_at(b, c2, size) == chunk_at(lo, j * m + c2, size));
    }
}

} // verus!
