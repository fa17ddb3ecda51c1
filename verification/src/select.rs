//! Selection: putting the element of a given rank at its place, Floyd & Rivest style.
use vstd::prelude::*;
use vstd::arithmetic::power2::pow2;
use crate::order::{
    total, orders, known_lt, known_le, all_lt, all_le, all_ge, all_gt, all_eq, lemma_answer, lemma_lt_le,
    lemma_le_le, lemma_lt_le_lt, lemma_le_lt_lt, lemma_le_refl,
};
use crate::perm::{perm_in, swapped, slice_swap, lemma_perm_refl, lemma_perm_swap, lemma_perm_trans,
    lemma_perm_all, lemma_perm_widen};
use crate::wyrand::WyRng;
use crate::partition::{partition_at, partition_equal, partition_equal_min, partition_equal_max};
use crate::sort::{sort_at, sorted_range, tinysort};
use crate::network::{sorted_at, last_at};
use crate::zero_one::at;

verus! {

/// The number of leading zero bits of `x`: `x` is below `2^(BITS - r)`, and at least
/// `2^(BITS - r - 1)` when it is not zero.
fn usize_leading_zeros(x: usize) -> (r: u32)
    ensures
        r <= usize::BITS,
        (x as nat) < pow2((usize::BITS - r) as nat),
        x > 0 ==> pow2((usize::BITS - r - 1) as nat) <= x,
{
    // `b` is the number of low bits shifted out of `x` so far.
    let mut b: u32 = 0;
    let mut y: usize = x;
    proof {
        vstd::arithmetic::power2::lemma2_to64();
        assert((x as nat) < pow2(usize::BITS as nat));
    }
    while y > 0
        invariant
            b <= usize::BITS,
            (x as nat) < pow2(usize::BITS as nat),
            y as int == x as int / (pow2(b as nat) as int),
            b > 0 ==> pow2((b - 1) as nat) <= x,
        decreases y,
    {
        proof {
            vstd::arithmetic::power2::lemma_pow2_pos(b as nat);
            vstd::arithmetic::power2::lemma_pow2_unfold((b + 1) as nat);
            vstd::arithmetic::div_mod::lemma_div_denominator(x as int, pow2(b as nat) as int, 2);
            vstd::arithmetic::div_mod::lemma_fundamental_div_mod(x as int, pow2(b as nat) as int);
            vstd::arithmetic::div_mod::lemma_mod_pos_bound(x as int, pow2(b as nat) as int);
            assert(pow2(b as nat) * (x as int / (pow2(b as nat) as int)) >= pow2(b as nat)) by (nonlinear_arith)
                requires
                    x as int / (pow2(b as nat) as int) >= 1,
                    pow2(b as nat) > 0,
            ;
            if b == usize::BITS {
                assert(false);
            }
        }
        y = y / 2;
        b = b + 1;
    }
    proof {
        vstd::arithmetic::power2::lemma_pow2_pos(b as nat);
        vstd::arithmetic::div_mod::lemma_fundamental_div_mod(x as int, pow2(b as nat) as int);
        vstd::arithmetic::div_mod::lemma_mod_pos_bound(x as int, pow2(b as nat) as int);
        let d = pow2(b as nat) as int;
        assert(x as int / d == 0);
        assert(x as int == d * (x as int / d) + (x as int % d));
        assert(d * (x as int / d) == 0) by (nonlinear_arith)
            requires
                x as int / d == 0,
        ;
        assert(x as int % d < d);
        assert((x as nat) < pow2(b as nat));
        assert((usize::BITS - (usize::BITS - b)) as nat == b as nat);
    }
    usize::BITS - b
}

/// `r` is the integer square root of `x`.
pub open spec fn is_isqrt(r: int, x: int) -> bool {
    r >= 0 && r * r <= x < (r + 1) * (r + 1)
}

proof fn lemma_newton_step(g: int, x: int)
    requires
        g >= 1,
        x >= 0,
        (g + 1) * (g + 1) > x,
    ensures
        ((g + x / g) / 2 + 1) * ((g + x / g) / 2 + 1) > x,
        g * g > x ==> (g + x / g) / 2 < g,
        x / g <= g + 2,
        x / g >= 0,
{
    let q = x / g;
    let h = (g + q) / 2;
    vstd::arithmetic::div_mod::lemma_fundamental_div_mod(x, g);
    let rem = x % g;
    assert(0 <= rem < g) by {
        vstd::arithmetic::div_mod::lemma_mod_bound(x, g);
    }
    assert(x == g * q + rem);
    assert(q >= 0) by (nonlinear_arith)
        requires
            x == g * q + rem,
            0 <= rem < g,
            x >= 0,
            g >= 1,
    ;
    assert(x <= q * g + g - 1) by (nonlinear_arith)
        requires
            x == g * q + rem,
            rem <= g - 1,
    ;
    assert(2 * (h + 1) >= g + q + 1);
    assert((g + q + 1) * (g + q + 1) - 4 * (q * g + g - 1) == (g - q - 1) * (g - q - 1) + 4) by (nonlinear_arith);
    assert((g - q - 1) * (g - q - 1) >= 0) by (nonlinear_arith);
    assert(4 * (h + 1) * (h + 1) >= (g + q + 1) * (g + q + 1)) by (nonlinear_arith)
        requires
            2 * (h + 1) >= g + q + 1,
            g + q + 1 >= 0,
    ;
    assert((h + 1) * (h + 1) > x) by (nonlinear_arith)
        requires
            4 * (h + 1) * (h + 1) >= (g + q + 1) * (g + q + 1),
            (g + q + 1) * (g + q + 1) - 4 * (q * g + g - 1) == (g - q - 1) * (g - q - 1) + 4,
            (g - q - 1) * (g - q - 1) >= 0,
            x <= q * g + g - 1,
    ;
    if g * g > x {
        assert(q < g) by (nonlinear_arith)
            requires
                x == g * q + rem,
                0 <= rem,
                g * g > x,
                g >= 1,
        ;
    }
    assert(q <= g + 2) by (nonlinear_arith)
        requires
            x == g * q + rem,
            0 <= rem,
            (g + 1) * (g + 1) > x,
            g >= 1,
    ;
}

/// Integer square root, by Newton's method started from a power of two above the root.
pub fn isqrt(x: usize) -> (r: usize)
    ensures
        is_isqrt(r as int, x as int),
{
    if x <= 1 {
        proof {
            assert(x * x <= x < (x + 1) * (x + 1)) by (nonlinear_arith)
                requires
                    0 <= x <= 1,
            ;
        }
        return x;
    }
    let lz = usize_leading_zeros(x - 1);
    let s: usize = (usize::BITS / 2 - lz / 2) as usize;
    proof {
        let b = (usize::BITS - lz) as nat;
        assert(2 * s >= b);
        vstd::arithmetic::power2::lemma_pow2_adds(s as nat, s as nat);
        if 2 * s as nat > b {
            vstd::arithmetic::power2::lemma_pow2_strictly_increases(b, (2 * s) as nat);
        }
        assert(pow2(s as nat) * pow2(s as nat) >= x);
        vstd::arithmetic::power2::lemma_pow2_strictly_increases(s as nat, usize::BITS as nat);
        vstd::bits::lemma_usize_pow2_no_overflow(s as nat);
        vstd::bits::lemma_usize_shl_is_mul(1, s);
        vstd::bits::lemma_usize_shr_is_div(x, s);
        vstd::arithmetic::power2::lemma_pow2_pos(s as nat);
        if usize::BITS == 64 {
            vstd::arithmetic::power2::lemma2_to64();
        } else {
            vstd::arithmetic::power2::lemma2_to64();
        }
    }
    let mut g0: usize = 1usize << s;
    proof {
        assert(g0 == pow2(s as nat));
        assert((g0 + 1) * (g0 + 1) > x) by (nonlinear_arith)
            requires
                g0 * g0 >= x,
                g0 >= 1,
        ;
        lemma_newton_step(g0 as int, x as int);
        assert(s <= usize::BITS / 2);
        if s < usize::BITS / 2 {
            vstd::arithmetic::power2::lemma_pow2_strictly_increases(s as nat, (usize::BITS / 2) as nat);
        }
        vstd::arithmetic::power2::lemma2_to64();
    }
    let mut g1 = (g0 + (x >> s)) >> 1;
    proof {
        vstd::bits::lemma_usize_shr_is_div((g0 + (x >> s)) as usize, 1);
    }
    while g1 < g0
        invariant
            x >= 2,
            g0 >= 1,
            g0 <= pow2((usize::BITS / 2) as nat),
            usize::BITS == 32 ==> pow2((usize::BITS / 2) as nat) == 0x1_0000,
            usize::BITS == 64 ==> pow2((usize::BITS / 2) as nat) == 0x1_0000_0000,
            (g0 + 1) * (g0 + 1) > x,
            g1 == (g0 + x / g0) / 2,
        decreases g0,
    {
        proof {
            lemma_newton_step(g0 as int, x as int);
        }
        g0 = g1;
        proof {
            assert(g0 >= 1) by (nonlinear_arith)
                requires
                    (g0 + 1) * (g0 + 1) > x,
                    x >= 2,
            ;
            lemma_newton_step(g0 as int, x as int);
        }
        g1 = (g0 + (x / g0)) >> 1;
        proof {
            vstd::bits::lemma_usize_shr_is_div((g0 + (x / g0)) as usize, 1);
            vstd::arithmetic::power2::lemma2_to64();
        }
    }
    proof {
        lemma_newton_step(g0 as int, x as int);
    }
    g0
}

/// The result of sampling: the first step exchanges `lo` and `lo + js[0]`; step `i > 0` moves the
/// element at `lo + i` to `lo + js[i - 1]` and the one at `lo + js[i]` to `lo + i`, carrying the
/// displaced element along, as two exchanges.
pub open spec fn sample_steps<T>(s: Seq<T>, lo: int, js: Seq<int>, i: nat) -> Seq<T>
    decreases i,
{
    if i == 0 {
        s
    } else if i == 1 {
        swapped(s, lo, lo + js[0])
    } else {
        let p = sample_steps(s, lo, js, (i - 1) as nat);
        swapped(swapped(p, lo + js[i - 2], lo + i - 1), lo + i - 1, lo + js[i - 1])
    }
}

/// The positions chosen by a sample of `n` elements from `len`: the `i`-th is in `[i, len)`.
pub open spec fn sample_choices(js: Seq<int>, n: nat, len: int) -> bool {
    js.len() == n && forall|i: int| 0 <= i < n ==> i <= #[trigger] js[i] < len
}

/// The positions `js` of a sample were drawn by `bounded_usize(i, len)` in turn, the `i`-th
/// taking the generator from `states[i]` to `states[i + 1]`.
pub open spec fn sample_draws(states: Seq<u64>, js: Seq<int>, len: int) -> bool {
    &&& states.len() == js.len() + 1
    &&& forall|i: int| 0 <= i < js.len() ==> WyRng::drew_usize(states[i], states[i + 1], i, len, #[trigger] js[i])
}

/// The outcome of `sample` on `s0`: the positions `js`, `count` of them (one if `count` is zero),
/// were drawn from the generator
/// states `states`, which lead from `first` to `last`, and `s` is `s0` after their steps.
pub open spec fn sampled<T>(
    s0: Seq<T>,
    s: Seq<T>,
    lo: int,
    len: int,
    count: nat,
    first: u64,
    last: u64,
    js: Seq<int>,
    states: Seq<u64>,
) -> bool {
    &&& sample_choices(js, if count == 0 { 1 } else { count }, len)
    &&& sample_draws(states, js, len)
    &&& states[0] == first
    &&& states[js.len() as int] == last
    &&& s == sample_steps(s0, lo, js, js.len())
}

/// Samples `count` elements of `data[lo..hi)` pseudorandomly and places them at its beginning.
/// Step `i` draws its position with `rng.bounded_usize(i, hi - lo)`; a `count` of zero still
/// draws one.
pub fn sample<T>(data: &mut [T], lo: usize, hi: usize, count: usize, rng: &mut WyRng)
    requires
        lo < hi <= old(data)@.len(),
        count <= hi - lo,
    ensures
        perm_in(old(data)@, final(data)@, lo as int, hi as int),
        exists|js: Seq<int>, states: Seq<u64>|
            #[trigger] sampled(
                old(data)@,
                final(data)@,
                lo as int,
                (hi - lo) as int,
                count as nat,
                old(rng).state(),
                final(rng).state(),
                js,
                states,
            ),
{
    let ghost s0 = data@;
    let ghost st0 = rng.state();
    let len = hi - lo;
    let mut src = rng.bounded_usize(0, len);
    let ghost mut js: Seq<int> = seq![src as int];
    let ghost mut states: Seq<u64> = seq![st0, rng.state()];
    slice_swap(data, lo, lo + src);
    proof {
        lemma_perm_swap(s0, lo as int, hi as int, lo as int, lo + src);
        assert(data@ == sample_steps(s0, lo as int, js, 1));
    }
    let mut i: usize = 1;
    while i < count
        invariant
            lo < hi <= data@.len(),
            len == hi - lo,
            count <= len,
            1 <= i,
            i <= count || i == 1,
            js.len() == i,
            src == js[i - 1],
            sample_choices(js, i as nat, len as int),
            data@ == sample_steps(s0, lo as int, js, i as nat),
            perm_in(s0, data@, lo as int, hi as int),
            sample_draws(states, js, len as int),
            states[0] == st0,
            states[i as int] == rng.state(),
        decreases count - i,
    {
        let ghost s1 = data@;
        slice_swap(data, lo + src, lo + i);
        let ghost s2 = data@;
        let ghost st1 = rng.state();
        src = rng.bounded_usize(i, len);
        slice_swap(data, lo + i, lo + src);
        proof {
            lemma_perm_swap(s1, lo as int, hi as int, lo + js[i - 1], lo + i);
            lemma_perm_swap(s2, lo as int, hi as int, lo + i, lo + src);
            lemma_perm_trans(s0, s1, s2, lo as int, hi as int);
            lemma_perm_trans(s0, s2, data@, lo as int, hi as int);
            let js2 = js.push(src as int);
            assert(js2.subrange(0, i as int) =~= js);
            assert(sample_steps(s0, lo as int, js2, i as nat) == sample_steps(s0, lo as int, js, i as nat)) by {
                lemma_sample_steps_prefix(s0, lo as int, js, js2, i as nat);
            }
            let states2 = states.push(rng.state());
            assert forall|k: int| 0 <= k < js2.len() implies WyRng::drew_usize(states2[k], states2[k + 1], k, len as int, #[trigger] js2[k]) by {
                if k < i {
                    assert(js2[k] == js[k]);
                }
            }
            js = js2;
            states = states2;
        }
        i = i + 1;
    }
    proof {
        let n: nat = if count == 0 { 1 } else { count as nat };
        assert(js.len() == n);
        assert(sampled(s0, data@, lo as int, len as int, count as nat, st0, rng.state(), js, states));
    }
}

proof fn lemma_sample_steps_prefix<T>(s: Seq<T>, lo: int, js: Seq<int>, js2: Seq<int>, i: nat)
    requires
        i <= js.len(),
        i <= js2.len(),
        forall|k: int| 0 <= k < i ==> js[k] == js2[k],
    ensures
        sample_steps(s, lo, js, i) == sample_steps(s, lo, js2, i),
    decreases i,
{
    if i > 1 {
        lemma_sample_steps_prefix(s, lo, js, js2, (i - 1) as nat);
    }
}

/// `|a - b|`.
pub open spec fn abs_diff(a: int, b: int) -> int {
    if a >= b {
        a - b
    } else {
        b - a
    }
}

/// Returns `|a - b|`.
pub fn usize_abs_diff(a: usize, b: usize) -> (r: usize)
    ensures
        r == abs_diff(a as int, b as int),
{
    if a >= b {
        a - b
    } else {
        b - a
    }
}

/// The first position of the group of `n` sample elements where the rank `index` of `len` falls.
pub open spec fn kth_group(n: int, index: int, len: int) -> int {
    let k = (n * n * index) / len;
    k - k % n
}

/// The position in the sample of the pivot chosen by `kth_of_nths`: the middle of its group,
/// shifted towards the position `k` by half their distance (rounded towards zero) when `index`
/// is far from the middle of the slice.
pub open spec fn kth_pivot(n: int, index: int, len: int) -> int {
    let k = (n * n * index) / len;
    let g = kth_group(n, index, len);
    let d = k - g;
    let h = n / 2;
    if abs_diff(index, len / 2) > len / 5 {
        if d >= h {
            g + h + (d - h) / 2
        } else {
            g + h - (h - d) / 2
        }
    } else {
        g + h
    }
}

proof fn lemma_kth_bounds(n: int, index: int, len: int)
    requires
        1 <= n,
        n * n <= len,
        0 <= index < len,
    ensures
        0 <= (n * n * index) / len < n * n,
        0 <= kth_group(n, index, len),
        kth_group(n, index, len) + n <= n * n,
        kth_group(n, index, len) <= (n * n * index) / len,
        (n * n * index) / len - kth_group(n, index, len) < n,
        kth_group(n, index, len) <= kth_pivot(n, index, len) < kth_group(n, index, len) + n,
{
    let k = (n * n * index) / len;
    assert(0 <= n * n * index) by (nonlinear_arith)
        requires
            1 <= n,
            0 <= index,
    ;
    assert(n * n * index < n * n * len) by (nonlinear_arith)
        requires
            1 <= n,
            index < len,
    ;
    assert(k < n * n) by (nonlinear_arith)
        requires
            k == (n * n * index) / len,
            n * n * index < n * n * len,
            len >= 1,
    ;
    assert(0 <= k) by (nonlinear_arith)
        requires
            k == (n * n * index) / len,
            0 <= n * n * index,
            len >= 1,
    ;
    let g = k - k % n;
    assert(0 <= k % n < n);
    assert(g == n * (k / n)) by {
        vstd::arithmetic::div_mod::lemma_fundamental_div_mod(k, n);
    }
    assert(k / n < n) by (nonlinear_arith)
        requires
            0 <= k < n * n,
            n >= 1,
    ;
    assert(g + n <= n * n) by (nonlinear_arith)
        requires
            g == n * (k / n),
            k / n < n,
            k / n >= 0,
            n >= 1,
    ;
    assert(0 <= g) by (nonlinear_arith)
        requires
            g == n * (k / n),
            k / n >= 0,
            n >= 1,
    ;
}

/// Chooses a pivot for the rank `index` of the range `[lo, hi)`: puts a random sample of `n * n`
/// elements at the beginning of the range, sorts its `n` groups of `n` elements that are `n`
/// apart, then sorts the group of consecutive elements where the pivot falls. Returns the
/// pivot's position and whether it is likely to have many duplicates (the first element of its
/// group is not less than it).
pub fn kth_of_nths<T, F: Fn(&T, &T) -> bool>(
    data: &mut [T],
    lo: usize,
    hi: usize,
    index: usize,
    n: usize,
    rng: &mut WyRng,
    lt: &F,
) -> (res: (usize, bool))
    requires
        total(*lt),
        1 <= n <= 16,
        lo + n * n <= hi <= old(data)@.len(),
        lo <= index < hi,
        hi - lo <= 4096,
    ensures
        perm_in(old(data)@, final(data)@, lo as int, hi as int),
        res.0 == lo + kth_pivot(n as int, index - lo, hi - lo),
        res.0 < lo + n * n,
        sorted_range(*lt, final(data)@, lo + kth_group(n as int, index - lo, hi - lo), lo + kth_group(n as int, index - lo, hi - lo) + n),
        call_ensures(*lt, (&final(data)@[lo + kth_group(n as int, index - lo, hi - lo)], &final(data)@[res.0 as int]), !res.1),
{
    let ghost s0 = data@;
    let len = hi - lo;
    let rel = index - lo;
    proof {
        lemma_kth_bounds(n as int, rel as int, len as int);
        assert(n * n * rel <= 16 * 16 * 4096) by (nonlinear_arith)
            requires
                n <= 16,
                rel < 4096,
        ;
    }
    let k = (n * n * rel) / len;
    let g = k - k % n;
    sample(data, lo, hi, n * n, rng);
    let mut j: usize = 0;
    while j < n
        invariant
            total(*lt),
            1 <= n <= 16,
            lo + n * n <= hi <= data@.len(),
            j <= n,
            perm_in(s0, data@, lo as int, hi as int),
        decreases n - j,
    {
        proof {
            assert(j + (n - 1) * n < n * n) by (nonlinear_arith)
                requires
                    j < n,
            ;
            assert(last_at((lo + j) as int, n as int, n as int) == lo + j + (n - 1) * n);
        }
        let ghost s1 = data@;
        sort_at(data, lo + j, n, n, lt);
        proof {
            lemma_perm_widen(s1, data@, lo + j, lo + j + (n - 1) * n + 1, lo as int, hi as int);
            lemma_perm_trans(s0, s1, data@, lo as int, hi as int);
        }
        j = j + 1;
    }
    let ghost s2 = data@;
    proof {
        assert(last_at((lo + g) as int, 1, n as int) == lo + g + n - 1);
    }
    sort_at(data, lo + g, 1, n, lt);
    proof {
        lemma_perm_widen(s2, data@, lo + g, lo + g + n, lo as int, hi as int);
        lemma_perm_trans(s0, s2, data@, lo as int, hi as int);
        assert forall|a: int, b: int| lo + g <= a < b < lo + g + n implies known_le(*lt, #[trigger] data@[a], #[trigger] data@[b]) by {
            assert(at(data@, (lo + g) as int, 1, a - (lo + g)) == data@[a]);
            assert(at(data@, (lo + g) as int, 1, b - (lo + g)) == data@[b]);
        }
    }
    let d = k - g;
    let h = n / 2;
    let far = usize_abs_diff(rel, len / 2) > len / 5;
    let p = if far {
        if d >= h {
            g + h + (d - h) / 2
        } else {
            g + h - (h - d) / 2
        }
    } else {
        g + h
    };
    let is_less = lt(&data[lo + g], &data[lo + p]);
    (lo + p, !is_less)
}

/// The element at `index` is at its place in `s[lo..hi)`: the elements before it are at most it,
/// and those after it at least it.
pub open spec fn selected<T, F: Fn(&T, &T) -> bool>(lt: F, s: Seq<T>, lo: int, hi: int, index: int) -> bool {
    &&& forall|i: int| lo <= i < index ==> known_le(lt, #[trigger] s[i], s[index])
    &&& forall|j: int| index < j < hi ==> known_le(lt, s[index], #[trigger] s[j])
}

/// Every element of `s[lo0..mid)` is at most every element of `s[mid..hi0)`.
pub open spec fn split_at<T, F: Fn(&T, &T) -> bool>(lt: F, s: Seq<T>, lo0: int, mid: int, hi0: int) -> bool {
    forall|a: int, b: int| lo0 <= a < mid <= b < hi0 ==> known_le(lt, #[trigger] s[a], #[trigger] s[b])
}

/// The range `[lo, hi)` is split around the pivot value `x` into `[lo, u)` (less than `x`),
/// `[u, v]` (equivalent to `x`) and `(v, hi)` (not less than `x`).
pub open spec fn three_way<T, F: Fn(&T, &T) -> bool>(lt: F, s: Seq<T>, lo: int, u: int, v: int, hi: int, x: T) -> bool {
    &&& lo <= u <= v < hi
    &&& all_lt(lt, s, lo, u, x)
    &&& all_eq(lt, s, u, v + 1, x)
    &&& all_ge(lt, s, v + 1, hi, x)
}

/// Splits survive a rearrangement of the range between them.
proof fn lemma_splits_transport<T, F: Fn(&T, &T) -> bool>(lt: F, s: Seq<T>, t: Seq<T>, lo0: int, lo: int, hi: int, hi0: int)
    requires
        perm_in(s, t, lo, hi),
        0 <= lo0 <= lo <= hi <= hi0 <= s.len(),
        split_at(lt, s, lo0, lo, hi0),
        split_at(lt, s, lo0, hi, hi0),
    ensures
        split_at(lt, t, lo0, lo, hi0),
        split_at(lt, t, lo0, hi, hi0),
{
    assert forall|a: int, b: int| lo0 <= a < lo <= b < hi0 implies known_le(lt, #[trigger] t[a], #[trigger] t[b]) by {
        assert(t[a] == s[a]);
        if b < hi {
            let b2 = crate::perm::lemma_perm_source(s, t, lo, hi, b);
            assert(known_le(lt, s[a], s[b2]));
        } else {
            assert(t[b] == s[b]);
        }
    }
    assert forall|a: int, b: int| lo0 <= a < hi <= b < hi0 implies known_le(lt, #[trigger] t[a], #[trigger] t[b]) by {
        assert(t[b] == s[b]);
        if a >= lo {
            let a2 = crate::perm::lemma_perm_source(s, t, lo, hi, a);
            assert(known_le(lt, s[a2], s[b]));
        } else {
            assert(t[a] == s[a]);
        }
    }
}

/// Keeping the part before the pivot: everything from `u` on is at least everything before `u`.
proof fn lemma_keep_left<T, F: Fn(&T, &T) -> bool>(lt: F, t: Seq<T>, lo0: int, lo: int, u: int, v: int, hi: int, hi0: int, x: T)
    requires
        lo0 <= lo,
        hi <= hi0 <= t.len(),
        three_way(lt, t, lo, u, v, hi, x),
        split_at(lt, t, lo0, lo, hi0),
        split_at(lt, t, lo0, hi, hi0),
    ensures
        split_at(lt, t, lo0, u, hi0),
{
    assert forall|a: int, b: int| lo0 <= a < u <= b < hi0 implies known_le(lt, #[trigger] t[a], #[trigger] t[b]) by {
        if a >= lo && b < hi {
            assert(known_lt(lt, t[a], x));
            if b <= v {
                assert(known_le(lt, x, t[b]));
            } else {
                assert(known_le(lt, x, t[b]));
            }
            lemma_lt_le_lt(lt, t[a], x, t[b]);
            lemma_lt_le(lt, t[a], t[b]);
        }
    }
}

/// Keeping the part after the pivot: everything up to `v` is at most everything after `v`.
proof fn lemma_keep_right<T, F: Fn(&T, &T) -> bool>(lt: F, t: Seq<T>, lo0: int, lo: int, u: int, v: int, hi: int, hi0: int, x: T)
    requires
        lo0 <= lo,
        hi <= hi0 <= t.len(),
        three_way(lt, t, lo, u, v, hi, x),
        split_at(lt, t, lo0, lo, hi0),
        split_at(lt, t, lo0, hi, hi0),
    ensures
        split_at(lt, t, lo0, v + 1, hi0),
{
    assert forall|a: int, b: int| lo0 <= a < v + 1 <= b < hi0 implies known_le(lt, #[trigger] t[a], #[trigger] t[b]) by {
        if a >= lo && b < hi {
            assert(known_le(lt, x, t[b]));
            if a < u {
                assert(known_lt(lt, t[a], x));
                lemma_lt_le(lt, t[a], x);
            } else {
                assert(known_le(lt, t[a], x));
            }
            lemma_le_le(lt, t[a], x, t[b]);
        }
    }
}

/// The rank falls among the elements equivalent to the pivot: it is selected.
proof fn lemma_found<T, F: Fn(&T, &T) -> bool>(lt: F, t: Seq<T>, lo0: int, lo: int, u: int, v: int, hi: int, hi0: int, x: T, index: int)
    requires
        lo0 <= lo,
        hi <= hi0 <= t.len(),
        u <= index <= v,
        three_way(lt, t, lo, u, v, hi, x),
        split_at(lt, t, lo0, lo, hi0),
        split_at(lt, t, lo0, hi, hi0),
    ensures
        selected(lt, t, lo0, hi0, index),
{
    let y = t[index];
    assert(known_le(lt, y, x) && known_le(lt, x, y));
    assert forall|i: int| lo0 <= i < index implies known_le(lt, #[trigger] t[i], y) by {
        if i >= lo {
            if i < u {
                lemma_lt_le(lt, t[i], x);
            }
            lemma_le_le(lt, t[i], x, y);
        }
    }
    assert forall|j: int| index < j < hi0 implies known_le(lt, y, #[trigger] t[j]) by {
        if j < hi {
            lemma_le_le(lt, y, x, t[j]);
        }
    }
}

/// A sorted range between two splits is selected at every rank.
proof fn lemma_sorted_selected<T, F: Fn(&T, &T) -> bool>(lt: F, t: Seq<T>, lo0: int, lo: int, hi: int, hi0: int, index: int)
    requires
        lo0 <= lo <= index < hi <= hi0 <= t.len(),
        sorted_range(lt, t, lo, hi),
        split_at(lt, t, lo0, lo, hi0),
        split_at(lt, t, lo0, hi, hi0),
    ensures
        selected(lt, t, lo0, hi0, index),
{
    assert forall|i: int| lo0 <= i < index implies known_le(lt, #[trigger] t[i], t[index]) by {
        if i >= lo {
            assert(known_le(lt, t[i], t[index]));
        }
    }
    assert forall|j: int| index < j < hi0 implies known_le(lt, t[index], #[trigger] t[j]) by {
        if j < hi {
            assert(known_le(lt, t[index], t[j]));
        }
    }
}

/// A sigmoid on `[0, 1]`, in fixed point: `x` stands for `x / 2^16`, the result for
/// `result / (100 * 2^48)`. It is the cubic Bezier curve from `y0` to `1 - y0` whose slope at the
/// middle is set by `skew`, with `y0` and `skew` in percent.
pub open spec fn sigmoid_spec(x: int, y0: int, skew: int) -> int {
    let a = 0x1_0000 - x;
    let b = x;
    y0 * (a * a * a) + (3 * skew) * (a * a * b) + (3 * (100 - skew)) * (a * (b * b)) + (100 - y0) * (b * b * b)
}

/// The unit `1` of the fixed-point values that `sigmoid` returns.
pub const SIGMOID_ONE: u64 = 100 * 0x1_0000_0000_0000;

/// Evaluates the sigmoid of `x / 2^16` with the given `y0` and `skew` (in percent), in fixed point.
pub fn sigmoid(x: u64, y0: u64, skew: u64) -> (y: u64)
    requires
        x <= 0x1_0000,
        y0 <= 100,
        skew <= 100,
    ensures
        y == sigmoid_spec(x as int, y0 as int, skew as int),
        y0 == 2 && skew == 60 ==> y < SIGMOID_ONE,
{
    let a = 0x1_0000 - x;
    let b = x;
    proof {
        assert(a * a <= 0x1_0000 * 0x1_0000 && a * b <= 0x1_0000 * 0x1_0000 && b * b <= 0x1_0000
            * 0x1_0000) by (nonlinear_arith)
            requires
                a <= 0x1_0000,
                b <= 0x1_0000,
        ;
        assert(a * a * a <= 0x1_0000_0000_0000 && a * a * b <= 0x1_0000_0000_0000 && a * (b * b)
            <= 0x1_0000_0000_0000 && b * b * b <= 0x1_0000_0000_0000) by (nonlinear_arith)
            requires
                a <= 0x1_0000,
                b <= 0x1_0000,
                a * a <= 0x1_0000 * 0x1_0000,
                b * b <= 0x1_0000 * 0x1_0000,
        ;
        assert(y0 * (a * a * a) <= 100 * 0x1_0000_0000_0000) by (nonlinear_arith)
            requires
                y0 <= 100,
                a * a * a <= 0x1_0000_0000_0000,
                a * a * a >= 0,
        ;
        assert((3 * skew) * (a * a * b) <= 300 * 0x1_0000_0000_0000) by (nonlinear_arith)
            requires
                skew <= 100,
                a * a * b <= 0x1_0000_0000_0000,
                a * a * b >= 0,
        ;
        assert((3 * (100 - skew)) * (a * (b * b)) <= 300 * 0x1_0000_0000_0000) by (nonlinear_arith)
            requires
                skew <= 100,
                a * (b * b) <= 0x1_0000_0000_0000,
                a * (b * b) >= 0,
        ;
        assert((100 - y0) * (b * b * b) <= 100 * 0x1_0000_0000_0000) by (nonlinear_arith)
            requires
                y0 <= 100,
                b * b * b <= 0x1_0000_0000_0000,
                b * b * b >= 0,
        ;
        if y0 == 2 && skew == 60 {
            let a3 = a * a * a;
            let a2b = a * a * b;
            let ab2 = a * (b * b);
            let b3 = b * b * b;
            assert((a + b) * (a + b) * (a + b) == a3 + 3 * a2b + 3 * ab2 + b3) by (nonlinear_arith)
                requires
                    a3 == a * a * a,
                    a2b == a * a * b,
                    ab2 == a * (b * b),
                    b3 == b * b * b,
            ;
            assert(a3 >= 0 && a2b >= 0 && ab2 >= 0 && b3 >= 0) by (nonlinear_arith)
                requires
                    a >= 0,
                    b >= 0,
                    a3 == a * a * a,
                    a2b == a * a * b,
                    ab2 == a * (b * b),
                    b3 == b * b * b,
            ;
            assert(a3 + 3 * a2b + 3 * ab2 + b3 == 0x1_0000_0000_0000) by (nonlinear_arith)
                requires
                    a + b == 0x1_0000,
                    (a + b) * (a + b) * (a + b) == a3 + 3 * a2b + 3 * ab2 + b3,
            ;
            assert(sigmoid_spec(x as int, y0 as int, skew as int) == 2 * a3 + 180 * a2b + 120 * ab2 + 98 * b3);
        }
    }
    y0 * (a * a * a) + (3 * skew) * (a * a * b) + (3 * (100 - skew)) * (a * (b * b)) + (100 - y0) * (b * b * b)
}

/// The rank in a sample of `count` elements that corresponds to the rank `index` of `len`,
/// biased towards the middle of the sample.
pub open spec fn sample_rank(index: int, len: int, count: int) -> int {
    let x = (index * 0x1_0000) / len;
    (count * sigmoid_spec(x, 2, 60)) / (SIGMOID_ONE as int)
}

/// Computes `sample_rank(index, len, count)`.
fn rank_in_sample(index: usize, len: usize, count: usize) -> (k: usize)
    requires
        index < len,
        0 < count <= 8192,
    ensures
        k == sample_rank(index as int, len as int, count as int),
        k < count,
{
    proof {
        assert((index as int) * 0x1_0000 < (len as int) * 0x1_0000) by (nonlinear_arith)
            requires
                index < len,
        ;
        assert(((index as int) * 0x1_0000) / (len as int) < 0x1_0000) by (nonlinear_arith)
            requires
                (index as int) * 0x1_0000 < (len as int) * 0x1_0000,
                len > 0,
        ;
        assert((index as int) * 0x1_0000 <= u128::MAX) by (nonlinear_arith)
            requires
                index < len,
                len <= usize::MAX,
                usize::MAX <= u64::MAX,
        ;
    }
    let x = ((index as u128) * 0x1_0000 / (len as u128)) as u64;
    let y = sigmoid(x, 2, 60);
    proof {
        assert((count as int) * (y as int) < (count as int) * (SIGMOID_ONE as int)) by (nonlinear_arith)
            requires
                count > 0,
                y < SIGMOID_ONE,
        ;
        assert((count as int) * (y as int) <= u128::MAX) by (nonlinear_arith)
            requires
                count <= 8192,
                y < SIGMOID_ONE,
        ;
        assert(((count as int) * (y as int)) / (SIGMOID_ONE as int) < count) by (nonlinear_arith)
            requires
                (count as int) * (y as int) < (count as int) * (SIGMOID_ONE as int),
                (count as int) * (y as int) >= 0,
        ;
    }
    ((count as u128) * (y as u128) / (SIGMOID_ONE as u128)) as usize
}

/// The number `n` of groups of `n` elements that `kth_of_nths` sorts for a range of `len`
/// elements.
pub open spec fn nths_for(len: int) -> int {
    if len <= 256 {
        3
    } else if len <= 1024 {
        5
    } else {
        7
    }
}

/// The size of the sample that picks the pivot of a range whose integer square root is `root`:
/// three quarters of `root`, at most `8192`.
pub open spec fn sample_count(root: int) -> int {
    if (3 * root) / 4 < 8192 {
        (3 * root) / 4
    } else {
        8192
    }
}

/// The number of elements of `s[lo..lo + i)` equivalent to `p` under `less`.
pub open spec fn equivalent_count<T>(less: spec_fn(T, T) -> bool, s: Seq<T>, lo: int, i: int, p: T) -> int
    decreases i,
{
    if i <= 0 {
        0
    } else {
        equivalent_count(less, s, lo, i - 1, p) + if !less(s[lo + i - 1], p) && !less(p, s[lo + i - 1]) {
            1int
        } else {
            0
        }
    }
}

/// The pivot `res` that `kth_of_nths` chose with `n` groups in `s[lo..lo + len)` for the rank
/// `index`: the sorted group and the flag comparing its first element with the pivot.
pub open spec fn kth_chosen<T, F: Fn(&T, &T) -> bool>(
    lt: F,
    s: Seq<T>,
    lo: int,
    len: int,
    index: int,
    n: int,
    res: (usize, bool),
) -> bool {
    let g = lo + kth_group(n, index - lo, len);
    &&& res.0 == lo + kth_pivot(n, index - lo, len)
    &&& sorted_range(lt, s, g, g + n)
    &&& call_ensures(lt, (&s[g], &s[res.0 as int]), !res.1)
}

/// The pivot `res` chosen in a sample of `count` elements at the beginning of `s[lo..lo + len)`
/// for the rank `index`: the sample is selected at the rank `sample_rank`, which is the pivot,
/// and the flag tells whether more than a third of the sample is equivalent to it.
pub open spec fn sample_chosen<T, F: Fn(&T, &T) -> bool>(
    lt: F,
    s: Seq<T>,
    lo: int,
    len: int,
    index: int,
    count: int,
    res: (usize, bool),
) -> bool {
    &&& res.0 == lo + sample_rank(index - lo, len, count)
    &&& selected(lt, s, lo, lo + count, res.0 as int)
    &&& forall|less: spec_fn(T, T) -> bool|
        #[trigger] orders(lt, less) ==> res.1 == (equivalent_count(less, s, lo, count, s[res.0 as int]) > count / 3)
}

/// Selects the pivot for partitioning `data[lo..hi)` around the rank `index`. Returns `(p, r)`
/// where `p` is the position of the pivot and `r` tells whether the pivot is likely to have many
/// duplicates. Small ranges use `kth_of_nths`; larger ones select the pivot in a sample of
/// about `3/4 * sqrt(len)` elements.
fn choose_pivot<T, F: Fn(&T, &T) -> bool>(
    data: &mut [T],
    lo: usize,
    hi: usize,
    index: usize,
    rng: &mut WyRng,
    lt: &F,
) -> (res: (usize, bool))
    requires
        total(*lt),
        lo <= index < hi <= old(data)@.len(),
        hi - lo > 8,
    ensures
        perm_in(old(data)@, final(data)@, lo as int, hi as int),
        lo <= res.0 < hi,
        hi - lo <= 4096 ==> kth_chosen(*lt, final(data)@, lo as int, hi - lo, index as int, nths_for(hi - lo), res),
        hi - lo > 4096 ==> exists|root: int|
            #[trigger] is_isqrt(root, hi - lo) && sample_chosen(
                *lt,
                final(data)@,
                lo as int,
                hi - lo,
                index as int,
                sample_count(root),
                res,
            ),
    decreases hi - lo, 0nat,
{
    let len = hi - lo;
    if len <= 256 {
        kth_of_nths(data, lo, hi, index, 3, rng, lt)
    } else if len <= 1024 {
        kth_of_nths(data, lo, hi, index, 5, rng, lt)
    } else if len <= 4096 {
        kth_of_nths(data, lo, hi, index, 7, rng, lt)
    } else {
        let ghost s0 = data@;
        let root = isqrt(len);
        proof {
            assert(root >= 64) by (nonlinear_arith)
                requires
                    is_isqrt(root as int, len as int),
                    len > 4096,
            ;
            assert(root <= len) by (nonlinear_arith)
                requires
                    is_isqrt(root as int, len as int),
                    len > 4096,
            ;
            assert(root <= 0x1_0000_0000) by (nonlinear_arith)
                requires
                    is_isqrt(root as int, len as int),
                    len <= 0xffff_ffff_ffff_ffff,
            ;
            assert(3 * root <= usize::MAX) by (nonlinear_arith)
                requires
                    root <= len,
                    root <= 0x1_0000_0000,
                    len <= usize::MAX,
                    usize::MAX == 0xffff_ffff || usize::MAX == 0xffff_ffff_ffff_ffff,
                    root * root <= len,
            ;
        }
        let count = if (3 * root) / 4 < 8192 { (3 * root) / 4 } else { 8192 };
        let k = rank_in_sample(index - lo, len, count);
        sample(data, lo, hi, count, rng);
        let ghost s1 = data@;
        turboselect(data, lo, lo + count, lo + k, rng, lt);
        proof {
            lemma_perm_widen(s1, data@, lo as int, lo + count, lo as int, hi as int);
            lemma_perm_trans(s0, s1, data@, lo as int, hi as int);
        }
        // Count the elements of the sample equal to the pivot.
        let mut equal: usize = 0;
        let mut i: usize = 0;
        while i < count
            invariant
                total(*lt),
                lo + count <= hi <= data@.len(),
                k < count,
                equal <= i <= count,
                forall|less: spec_fn(T, T) -> bool|
                    #[trigger] orders(*lt, less) ==> equal == equivalent_count(less, data@, lo as int, i as int, data@[lo + k]),
            decreases count - i,
        {
            let below = lt(&data[lo + i], &data[lo + k]);
            if !below {
                let above = lt(&data[lo + k], &data[lo + i]);
                if !above {
                    equal = equal + 1;
                }
            }
            i = i + 1;
        }
        let res = (lo + k, equal > count / 3);
        proof {
            assert(sample_chosen(*lt, data@, lo as int, len as int, index as int, count as int, res));
        }
        res
    }
}

/// Partitions `data[lo..hi)` so that the element at `index` is at its sorted place: the elements
/// before it are at most it and those after it at least it.
pub fn turboselect<T, F: Fn(&T, &T) -> bool>(
    data: &mut [T],
    lo: usize,
    hi: usize,
    index: usize,
    rng: &mut WyRng,
    lt: &F,
)
    requires
        total(*lt),
        lo <= index < hi <= old(data)@.len(),
    ensures
        perm_in(old(data)@, final(data)@, lo as int, hi as int),
        selected(*lt, final(data)@, lo as int, hi as int, index as int),
    decreases hi - lo, 1nat,
{
    let ghost s0 = data@;
    let ghost lo0 = lo as int;
    let ghost hi0 = hi as int;
    // The range still to be partitioned.
    let mut l = lo;
    let mut h = hi;
    let mut previous_pivot: Option<usize> = None;
    let mut found = false;
    proof {
        lemma_perm_refl(s0, lo0, hi0);
    }
    while h - l > 8
        invariant_except_break
            total(*lt),
            lo <= l <= index < h <= hi <= data@.len(),
            lo0 == lo,
            hi0 == hi,
                !found,
            perm_in(s0, data@, lo0, hi0),
            split_at(*lt, data@, lo0, l as int, hi0),
            split_at(*lt, data@, lo0, h as int, hi0),
            previous_pivot matches Some(q) ==> lo <= q < l,
        ensures
            perm_in(s0, data@, lo0, hi0),
            found ==> selected(*lt, data@, lo0, hi0, index as int),
            !found ==> {
                &&& lo <= l <= index < h <= hi <= data@.len()
                &&& h - l <= 8
                &&& split_at(*lt, data@, lo0, l as int, hi0)
                &&& split_at(*lt, data@, lo0, h as int, hi0)
            },
        decreases h - l,
    {
        let ghost s1 = data@;
        let u: usize;
        let v: usize;
        if index == l {
            let r = partition_equal_min(data, l, h, l, lt);
            u = r.0;
            v = r.1;
            proof {
                lemma_gt_ge(*lt, data@, (v + 1) as int, h as int, data@[l as int]);
            }
        } else if index == h - 1 {
            let r = partition_equal_max(data, l, h, l, lt);
            u = r.0;
            v = r.1;
            proof {
                lemma_max_three_way(*lt, data@, l as int, u as int, h as int);
            }
        } else {
            let (p, is_repeated) = choose_pivot(data, l, h, index, rng, lt);
            let ghost s3 = data@;
            let min_pivot = match previous_pivot {
                Some(was) => !lt(&data[was], &data[p]),
                None => false,
            };
            if min_pivot {
                // The pivot is not greater than a previous pivot from the left, so it is the
                // minimum of the range.
                let r = partition_equal_min(data, l, h, p, lt);
                u = r.0;
                v = r.1;
                proof {
                    lemma_gt_ge(*lt, data@, (v + 1) as int, h as int, data@[l as int]);
                }
            } else if is_repeated {
                let r = partition_equal(data, l, h, p, lt);
                u = r.0;
                v = r.1;
                proof {
                    lemma_gt_ge(*lt, data@, (v + 1) as int, h as int, data@[u as int]);
                }
            } else {
                let r = partition_at(data, l, h, p, lt);
                u = r.0;
                v = r.1;
            }
            proof {
                lemma_perm_trans(s1, s3, data@, l as int, h as int);
            }
        }
        let ghost s2 = data@;
        proof {
            assert(three_way(*lt, s2, l as int, u as int, v as int, h as int, s2[u as int]));
            lemma_perm_widen(s1, s2, l as int, h as int, lo0, hi0);
            lemma_perm_trans(s0, s1, s2, lo0, hi0);
            lemma_splits_transport(*lt, s1, s2, lo0, l as int, h as int, hi0);
        }
        if index < u {
            proof {
                lemma_keep_left(*lt, s2, lo0, l as int, u as int, v as int, h as int, hi0, s2[u as int]);
            }
            h = u;
        } else if index > v {
            proof {
                lemma_keep_right(*lt, s2, lo0, l as int, u as int, v as int, h as int, hi0, s2[u as int]);
            }
            previous_pivot = Some(v);
            l = v + 1;
        } else {
            proof {
                lemma_found(*lt, s2, lo0, l as int, u as int, v as int, h as int, hi0, s2[u as int], index as int);
            }
            found = true;
            break;
        }
    }
    if !found {
        let ghost s4 = data@;
        tinysort(data, l, h, lt);
        proof {
            lemma_perm_widen(s4, data@, l as int, h as int, lo0, hi0);
            lemma_perm_trans(s0, s4, data@, lo0, hi0);
            lemma_splits_transport(*lt, s4, data@, lo0, l as int, h as int, hi0);
            lemma_sorted_selected(*lt, data@, lo0, l as int, h as int, hi0, index as int);
        }
    }
}

proof fn lemma_gt_ge<T, F: Fn(&T, &T) -> bool>(lt: F, t: Seq<T>, lo: int, hi: int, x: T)
    requires
        all_gt(lt, t, lo, hi, x),
    ensures
        all_ge(lt, t, lo, hi, x),
{
    assert forall|k: int| lo <= k < hi implies known_le(lt, x, #[trigger] t[k]) by {
        lemma_lt_le(lt, x, t[k]);
    }
}

proof fn lemma_max_three_way<T, F: Fn(&T, &T) -> bool>(lt: F, t: Seq<T>, lo: int, u: int, hi: int)
    requires
        lo <= u <= hi - 1,
        hi <= t.len(),
        all_lt(lt, t, lo, u, t[hi - 1]),
        all_eq(lt, t, u, hi, t[hi - 1]),
    ensures
        three_way(lt, t, lo, u, hi - 1, hi, t[u]),
{
    let m = t[hi - 1];
    let x = t[u];
    assert(known_le(lt, x, m) && known_le(lt, m, x));
    assert forall|k: int| lo <= k < u implies known_lt(lt, #[trigger] t[k], x) by {
        lemma_lt_le_lt(lt, t[k], m, x);
    }
    assert forall|k: int| u <= k < hi implies known_le(lt, #[trigger] t[k], x) && known_le(lt, x, t[k]) by {
        lemma_le_le(lt, t[k], m, x);
        lemma_le_le(lt, x, m, t[k]);
    }
}

} // verus!
