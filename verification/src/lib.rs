//! Selection of the `n`-th smallest element of a slice (Floyd & Rivest style), together with the
//! small sorting networks and pseudorandom number generators it uses.
use vstd::prelude::*;

pub mod order;
pub mod perm;
pub mod sort;
pub mod zero_one;
pub mod bitonic;
pub mod network;
pub mod blocks;
pub mod partition;
pub mod bounded;
pub mod wyrand;
pub mod select;
pub mod permute;
pub mod rand;
pub mod dbg;

pub use dbg::Dbg;

use core::cmp::Ordering;
use crate::order::{total, orders, known_le, strict_weak_order};
use vstd::laws_cmp::obeys_cmp;
use vstd::std_specs::cmp::{PartialEqSpec, PartialOrdSpec, OrdSpec};
use crate::perm::{perm_in, lemma_perm_whole, lemma_perm_source, lemma_filter_len_perm, lemma_filter_all, lemma_filter_none};
use crate::select::{selected, turboselect};
use crate::permute::is_permutation;
use crate::partition::{partition_min, partition_max};
use crate::wyrand::WyRng;

verus! {

/// Splits `data` into the part before `index`, the element at `index` and the part after it.
pub fn split_partition<T>(data: &mut [T], index: usize) -> (r: (&mut [T], &mut T, &mut [T]))
    requires
        index < old(data)@.len(),
    ensures
        r.0@ == old(data)@.subrange(0, index as int),
        *r.1 == old(data)@[index as int],
        r.2@ == old(data)@.subrange(index + 1, old(data)@.len() as int),
        final(data)@ == final(r.0)@ + seq![*final(r.1)] + final(r.2)@,
{
    let (left, rest) = data.split_at_mut(index);
    let (mid, right) = rest.split_at_mut(1);
    let pivot = mid.first_mut().unwrap();
    (left, pivot, right)
}

/// The seed of the generator that picks the samples.
pub const SELECT_SEED: u64 = 12345678901234567890;

/// Every answer that `compare` can give is `Less` exactly when `less` holds.
pub open spec fn cmp_agrees<T, F: Fn(&T, &T) -> Ordering>(compare: F, less: spec_fn(T, T) -> bool) -> bool {
    forall|a: T, b: T, o: Ordering|
        #[trigger] call_ensures(compare, (&a, &b), o) ==> (o == Ordering::Less <==> less(a, b))
}

/// The result of a selection at `index` from `s`: the slice before it, the element, and the
/// slice after it, ordered by `less`.
pub open spec fn selection_by<T>(
    s: Seq<T>,
    index: usize,
    left: Seq<T>,
    nth: T,
    right: Seq<T>,
    less: spec_fn(T, T) -> bool,
) -> bool {
    &&& left.len() == index
    &&& (left + seq![nth] + right).to_multiset() == s.to_multiset()
    &&& left.len() + 1 + right.len() == s.len()
    &&& forall|i: int| 0 <= i < left.len() ==> !less(nth, #[trigger] left[i])
    &&& forall|j: int| 0 <= j < right.len() ==> !less(#[trigger] right[j], nth)
}

/// Turns a selection under the closure `lt` into one under every order `less` explaining it.
proof fn lemma_selection<T, F: Fn(&T, &T) -> bool>(lt: F, s0: Seq<T>, s: Seq<T>, index: usize, less: spec_fn(T, T) -> bool)
    requires
        perm_in(s0, s, 0, s0.len() as int),
        index < s.len(),
        selected(lt, s, 0, s.len() as int, index as int),
        orders(lt, less),
    ensures
        selection_by(s0, index, s.subrange(0, index as int), s[index as int], s.subrange(index + 1, s.len() as int), less),
{
    lemma_perm_whole(s0, s, 0, s0.len() as int);
    let index = index as int;
    let left = s.subrange(0, index);
    let right = s.subrange(index + 1, s.len() as int);
    assert(left + seq![s[index]] + right =~= s);
    assert forall|i: int| 0 <= i < left.len() implies !less(s[index], #[trigger] left[i]) by {
        assert(left[i] == s[i]);
        assert(known_le(lt, s[i], s[index]));
    }
    assert forall|j: int| 0 <= j < right.len() implies !less(#[trigger] right[j], s[index]) by {
        assert(right[j] == s[index + 1 + j]);
        assert(known_le(lt, s[index], s[index + 1 + j]));
    }
}

/// Reorders `data` with the comparison `lt` so that the element at `index` is at its sorted
/// place: the smallest and the largest place by a scan, the others by `turboselect`.
fn select_with<T, F: Fn(&T, &T) -> bool>(data: &mut [T], index: usize, lt: &F)
    requires
        total(*lt),
        index < old(data)@.len(),
    ensures
        perm_in(old(data)@, final(data)@, 0, old(data)@.len() as int),
        selected(*lt, final(data)@, 0, final(data)@.len() as int, index as int),
{
    let mut rng = WyRng::new(SELECT_SEED);
    let len = data.len();
    if index == 0 {
        partition_min(data, 0, len, lt);
    } else if index == len - 1 {
        partition_max(data, 0, len, lt);
    } else {
        turboselect(data, 0, len, index, &mut rng, lt);
    }
}

/// Reorders the slice with a comparator function such that the element at `index` is at its final
/// sorted position: the elements before it are not greater, and those after it not less. Returns
/// the part before `index`, the element at `index`, and the part after it.
///
/// The guarantees hold for every strict weak order whose `Less` answers are the comparator's.
pub fn select_nth_unstable_by<T, F: Fn(&T, &T) -> Ordering>(
    data: &mut [T],
    index: usize,
    compare: F,
) -> (r: (&mut [T], &mut T, &mut [T]))
    requires
        index < old(data)@.len(),
        forall|a: &T, b: &T| #[trigger] call_requires(compare, (a, b)),
    ensures
        forall|less: spec_fn(T, T) -> bool|
            strict_weak_order(less) && #[trigger] cmp_agrees(compare, less) ==> selection_by(
                old(data)@,
                index,
                r.0@,
                *r.1,
                r.2@,
                less,
            ),
        final(data)@ == final(r.0)@ + seq![*final(r.1)] + final(r.2)@,
{
    let ghost s0 = data@;
    let order = &compare;
    let lt = |x: &T, y: &T| -> (b: bool)
        requires
            call_requires(order, (x, y)),
        ensures
            exists|o: Ordering| #[trigger] call_ensures(order, (x, y), o) && (b <==> o == Ordering::Less),
        {
            match order(x, y) {
                Ordering::Less => true,
                _ => false,
            }
        };
    select_with(data, index, &lt);
    let ghost s = data@;
    let r = split_partition(data, index);
    proof {
        assert forall|less: spec_fn(T, T) -> bool|
            strict_weak_order(less) && #[trigger] cmp_agrees(compare, less) implies selection_by(
            s0, index, r.0@, *r.1, r.2@, less) by {
            assert(orders(lt, less));
            lemma_selection(lt, s0, s, index, less);
        }
    }
    r
}

/// The order of an `Ord` type: `a < b`.
pub open spec fn natural_less<T: Ord>() -> spec_fn(T, T) -> bool {
    |a: T, b: T| a.partial_cmp_spec(&b) == Some(Ordering::Less)
}

/// The order of a type whose comparisons obey the laws of `Ord` is a strict weak order.
pub proof fn lemma_natural_order<T: Ord>()
    requires
        obeys_cmp::<T>(),
    ensures
        strict_weak_order(natural_less::<T>()),
{
    reveal(vstd::laws_cmp::obeys_partial_cmp_spec_properties);
    reveal(vstd::laws_cmp::obeys_cmp_partial_ord);
    reveal(vstd::laws_cmp::obeys_cmp_ord);
    reveal(vstd::laws_eq::obeys_eq_spec_properties);
    let less = natural_less::<T>();
    assert forall|a: T| !#[trigger] less(a, a) by {
        if less(a, a) {
            assert(a.partial_cmp_spec(&a) == Some(Ordering::Greater));
        }
    }
    assert forall|a: T, b: T, c: T| !#[trigger] less(a, b) && !#[trigger] less(b, c) implies !less(a, c) by {
        assert(a.partial_cmp_spec(&b) == Some(a.cmp_spec(&b)));
        assert(b.partial_cmp_spec(&c) == Some(b.cmp_spec(&c)));
        if less(a, c) {
            if a.cmp_spec(&b) == Ordering::Greater {
                assert(b.partial_cmp_spec(&a) == Some(Ordering::Less));
            } else if b.cmp_spec(&c) == Ordering::Greater {
                assert(c.partial_cmp_spec(&b) == Some(Ordering::Less));
            } else {
                assert(a.eq_spec(&b) && b.eq_spec(&c));
                assert(a.eq_spec(&c));
            }
        }
    }
}

/// Reorders the slice such that the element at `index` is at its final sorted position: the
/// elements before it are not greater, and those after it not less. Returns the part before
/// `index`, the element at `index`, and the part after it.
///
/// The guarantees hold when the comparisons of `T` obey the laws of `Ord`.
pub fn select_nth_unstable<T: Ord>(data: &mut [T], index: usize) -> (r: (&mut [T], &mut T, &mut [T]))
    requires
        index < old(data)@.len(),
    ensures
        obeys_cmp::<T>() ==> selection_by(old(data)@, index, r.0@, *r.1, r.2@, natural_less::<T>()),
        final(data)@ == final(r.0)@ + seq![*final(r.1)] + final(r.2)@,
{
    let ghost s0 = data@;
    let lt = |x: &T, y: &T| -> (b: bool)
        ensures
            T::obeys_partial_cmp_spec() ==> (b <==> x.partial_cmp_spec(y) == Some(Ordering::Less)),
        { x.lt(y) };
    select_with(data, index, &lt);
    let ghost s = data@;
    let r = split_partition(data, index);
    proof {
        if obeys_cmp::<T>() {
            lemma_natural_order::<T>();
            reveal(vstd::laws_cmp::obeys_cmp_partial_ord);
            assert(orders(lt, natural_less::<T>()));
            lemma_selection(lt, s0, s, index, natural_less::<T>());
        }
    }
    r
}

/// Every key that `f` can return for `x` is `key(x)`.
pub open spec fn key_agrees<T, K, F: Fn(&T) -> K>(f: F, key: spec_fn(T) -> K) -> bool {
    forall|x: T, k: K| #[trigger] call_ensures(f, (&x,), k) ==> k == key(x)
}

/// The order of the keys: `key(a) < key(b)`.
pub open spec fn by_key<T, K: Ord>(key: spec_fn(T) -> K) -> spec_fn(T, T) -> bool {
    |a: T, b: T| natural_less::<K>()(key(a), key(b))
}

proof fn lemma_by_key_order<T, K: Ord>(key: spec_fn(T) -> K)
    requires
        obeys_cmp::<K>(),
    ensures
        strict_weak_order(by_key::<T, K>(key)),
{
    lemma_natural_order::<K>();
    let nl = natural_less::<K>();
    let less = by_key::<T, K>(key);
    assert forall|a: T, b: T, c: T| #[trigger] less(a, b) && #[trigger] less(b, c) implies less(a, c) by {
        assert(nl(key(a), key(b)) && nl(key(b), key(c)));
    }
    assert forall|a: T, b: T, c: T| !#[trigger] less(a, b) && !#[trigger] less(b, c) implies !less(a, c) by {
        assert(!nl(key(a), key(b)) && !nl(key(b), key(c)));
    }
    assert forall|a: T| !#[trigger] less(a, a) by {
        assert(!nl(key(a), key(a)));
    }
}

/// Reorders the slice with a key extraction function such that the element at `index` is at its
/// final sorted position by key: the elements before it have keys that are not greater, and those
/// after it keys that are not less. Returns the part before `index`, the element at `index`, and
/// the part after it.
///
/// The guarantees hold when the comparisons of `K` obey the laws of `Ord`, for every function
/// `key` that gives the keys that `f` returns.
pub fn select_nth_unstable_by_key<T, K: Ord, F: Fn(&T) -> K>(
    data: &mut [T],
    index: usize,
    f: F,
) -> (r: (&mut [T], &mut T, &mut [T]))
    requires
        index < old(data)@.len(),
        forall|x: &T| #[trigger] call_requires(f, (x,)),
    ensures
        forall|key: spec_fn(T) -> K|
            obeys_cmp::<K>() && #[trigger] key_agrees(f, key) ==> selection_by(
                old(data)@,
                index,
                r.0@,
                *r.1,
                r.2@,
                by_key::<T, K>(key),
            ),
        final(data)@ == final(r.0)@ + seq![*final(r.1)] + final(r.2)@,
{
    let ghost s0 = data@;
    let keyf = &f;
    let lt = |x: &T, y: &T| -> (b: bool)
        requires
            call_requires(keyf, (x,)),
            call_requires(keyf, (y,)),
        ensures
            exists|ka: K, kb: K|
                #[trigger] call_ensures(keyf, (x,), ka) && #[trigger] call_ensures(keyf, (y,), kb) && (
                K::obeys_partial_cmp_spec() ==> (b <==> ka.partial_cmp_spec(&kb) == Some(Ordering::Less))),
        {
            let ka = keyf(x);
            let kb = keyf(y);
            ka.lt(&kb)
        };
    select_with(data, index, &lt);
    let ghost s = data@;
    let r = split_partition(data, index);
    proof {
        assert forall|key: spec_fn(T) -> K|
            obeys_cmp::<K>() && #[trigger] key_agrees(f, key) implies selection_by(s0, index, r.0@, *r.1, r.2@, by_key::<T, K>(key)) by {
            lemma_by_key_order::<T, K>(key);
            reveal(vstd::laws_cmp::obeys_cmp_partial_ord);
            assert(orders(lt, by_key::<T, K>(key)));
            lemma_selection(lt, s0, s, index, by_key::<T, K>(key));
        }
    }
    r
}

/// The order of `(key, position)` pairs: by key, and by position between equivalent keys.
pub open spec fn pair_less<K: Ord>() -> spec_fn((K, usize), (K, usize)) -> bool {
    |p: (K, usize), q: (K, usize)|
        natural_less::<K>()(p.0, q.0) || (!natural_less::<K>()(q.0, p.0) && p.1 < q.1)
}

/// Ordering pairs by key first and by position second is a strict weak order.
proof fn lemma_pair_order<K: Ord>()
    requires
        obeys_cmp::<K>(),
    ensures
        strict_weak_order(pair_less::<K>()),
{
    lemma_natural_order::<K>();
    let nl = natural_less::<K>();
    let pl = pair_less::<K>();
    assert forall|a: (K, usize)| !#[trigger] pl(a, a) by {
        assert(!nl(a.0, a.0));
    }
    assert forall|a: (K, usize), b: (K, usize), c: (K, usize)|
        #[trigger] pl(a, b) && #[trigger] pl(b, c) implies pl(a, c) by {
        if nl(a.0, c.0) {
        } else {
            assert(!nl(a.0, b.0) || !nl(b.0, c.0));
            if nl(a.0, b.0) {
                assert(!nl(c.0, b.0));
            } else if nl(b.0, c.0) {
                assert(!nl(b.0, a.0));
            } else {
                assert(!nl(b.0, a.0) && !nl(c.0, b.0));
                assert(!nl(c.0, a.0));
            }
        }
    }
    assert forall|a: (K, usize), b: (K, usize), c: (K, usize)|
        !#[trigger] pl(a, b) && !#[trigger] pl(b, c) implies !pl(a, c) by {
        if pl(a, c) {
            assert(!nl(a.0, b.0) && !nl(b.0, c.0));
            assert(!nl(a.0, c.0));
            if nl(b.0, a.0) {
                assert(nl(b.0, c.0) || nl(c.0, a.0));
            } else if nl(c.0, b.0) {
                assert(nl(c.0, a.0) || nl(a.0, b.0));
            }
        }
    }
}

/// After a selection at `index`, every element before `index` is at most every element after
/// it.
pub proof fn lemma_selection_sides<T>(
    s: Seq<T>,
    index: usize,
    left: Seq<T>,
    nth: T,
    right: Seq<T>,
    less: spec_fn(T, T) -> bool,
)
    requires
        strict_weak_order(less),
        selection_by(s, index, left, nth, right, less),
    ensures
        forall|i: int, j: int|
            0 <= i < left.len() && 0 <= j < right.len() ==> !less(#[trigger] right[j], #[trigger] left[i]),
{
    assert forall|i: int, j: int| 0 <= i < left.len() && 0 <= j < right.len() implies !less(#[trigger] right[j], #[trigger] left[i]) by {
        assert(!less(nth, left[i]));
        assert(!less(right[j], nth));
    }
}

/// The element selected at `index` is at its sorted place: at most `index` elements are less than
/// it, and at least `index + 1` elements (itself among them) are not greater than it.
pub proof fn lemma_selection_rank<T>(
    s: Seq<T>,
    index: usize,
    left: Seq<T>,
    nth: T,
    right: Seq<T>,
    less: spec_fn(T, T) -> bool,
)
    requires
        strict_weak_order(less),
        selection_by(s, index, left, nth, right, less),
    ensures
        s.filter(|x: T| less(x, nth)).len() <= index,
        s.filter(|x: T| !less(nth, x)).len() >= index + 1,
{
    let all = left + seq![nth] + right;
    let below = |x: T| less(x, nth);
    let upto = |x: T| !less(nth, x);
    lemma_filter_len_perm(s, all, below);
    lemma_filter_len_perm(s, all, upto);
    Seq::filter_distributes_over_add(left + seq![nth], right, below);
    Seq::filter_distributes_over_add(left, seq![nth], below);
    Seq::filter_distributes_over_add(left + seq![nth], right, upto);
    Seq::filter_distributes_over_add(left, seq![nth], upto);
    left.lemma_filter_len(below);
    assert forall|i: int| 0 <= i < right.len() implies !below(#[trigger] right[i]) by {}
    lemma_filter_none(right, below);
    assert forall|i: int| 0 <= i < 1 implies !below(#[trigger] seq![nth][i]) by {}
    lemma_filter_none(seq![nth], below);
    assert forall|i: int| 0 <= i < left.len() implies upto(#[trigger] left[i]) by {}
    lemma_filter_all(left, upto);
    assert forall|i: int| 0 <= i < 1 implies upto(#[trigger] seq![nth][i]) by {}
    lemma_filter_all(seq![nth], upto);
}

/// The selection at `index` of `selection_by`, read off the whole rearranged sequence `s`.
pub open spec fn selection_at<T>(s0: Seq<T>, s: Seq<T>, index: usize, less: spec_fn(T, T) -> bool) -> bool {
    selection_by(
        s0,
        index,
        s.subrange(0, index as int),
        s[index as int],
        s.subrange(index + 1, s.len() as int),
        less,
    )
}

/// The positions carried by the rearranged pairs form a permutation, and each pair is the one
/// made for the position it carries.
proof fn lemma_carried_positions<K>(p0: Seq<(K, usize)>, p1: Seq<(K, usize)>, order: Seq<usize>)
    requires
        perm_in(p0, p1, 0, p0.len() as int),
        forall|m: int| 0 <= m < p0.len() ==> (#[trigger] p0[m]).1 == m,
        order.len() == p1.len(),
        forall|q: int| 0 <= q < order.len() ==> #[trigger] order[q] == p1[q].1,
    ensures
        is_permutation(order),
        forall|q: int| 0 <= q < order.len() ==> #[trigger] p1[q] == p0[order[q] as int],
{
    let len = p0.len() as int;
    assert(p0.no_duplicates());
    p0.lemma_multiset_has_no_duplicates();
    lemma_perm_whole(p0, p1, 0, len);
    p1.lemma_multiset_has_no_duplicates_conv();
    assert forall|q: int| 0 <= q < len implies #[trigger] order[q] < len && p1[q] == p0[order[q] as int] by {
        let src = lemma_perm_source(p0, p1, 0, len, q);
        assert(p0[src].1 == src);
    }
    assert forall|a: int, b: int|
        0 <= a < len && 0 <= b < len && a != b implies #[trigger] order[a] != #[trigger] order[b] by {
        assert(p1[a] != p1[b]);
    }
}

/// Rearranging the elements like the pairs, which were selected at `index` by key and position,
/// selects the elements at `index` by key.
proof fn lemma_carried_selection<T, K: Ord, F: Fn(&(K, usize), &(K, usize)) -> bool>(
    lt: F,
    s0: Seq<T>,
    s: Seq<T>,
    p0: Seq<(K, usize)>,
    p1: Seq<(K, usize)>,
    order: Seq<usize>,
    index: usize,
    key: spec_fn(T) -> K,
)
    requires
        orders(lt, pair_less::<K>()),
        index < s0.len(),
        perm_in(s0, s, 0, s0.len() as int),
        p1.len() == s0.len(),
        order.len() == s0.len(),
        is_permutation(order),
        selected(lt, p1, 0, p1.len() as int, index as int),
        forall|q: int| 0 <= q < s.len() ==> #[trigger] s[q] == s0[order[q] as int],
        forall|q: int| 0 <= q < p1.len() ==> #[trigger] p1[q] == p0[order[q] as int],
        forall|m: int| 0 <= m < s0.len() ==> key(s0[m]) == (#[trigger] p0[m]).0,
    ensures
        selection_at(s0, s, index, by_key::<T, K>(key)),
{
    let len = s0.len() as int;
    let i0 = index as int;
    lemma_perm_whole(s0, s, 0, len);
    let left = s.subrange(0, i0);
    let right = s.subrange(i0 + 1, len);
    assert(left + seq![s[i0]] + right =~= s);
    assert forall|q: int| 0 <= q < len implies key(#[trigger] s[q]) == p1[q].0 by {
        assert(order[q] < len);
        assert(p1[q] == p0[order[q] as int]);
    }
    assert forall|i: int| 0 <= i < left.len() implies !by_key::<T, K>(key)(s[i0], #[trigger] left[i]) by {
        assert(left[i] == s[i]);
        assert(known_le(lt, p1[i], p1[i0]));
        assert(key(s[i]) == p1[i].0);
        assert(key(s[i0]) == p1[i0].0);
    }
    assert forall|i: int| 0 <= i < right.len() implies !by_key::<T, K>(key)(#[trigger] right[i], s[i0]) by {
        assert(right[i] == s[i0 + 1 + i]);
        assert(known_le(lt, p1[i0], p1[i0 + 1 + i]));
        assert(key(s[i0 + 1 + i]) == p1[i0 + 1 + i].0);
        assert(key(s[i0]) == p1[i0].0);
    }
}

/// The `(key, position)` pair of the element at position `m` of `s0`.
pub open spec fn keyed<T, K>(s0: Seq<T>, key: spec_fn(T) -> K, m: int) -> (K, usize) {
    (key(s0[m]), m as usize)
}

/// `s` holds the elements of `s0` in the order of the positions in the permutation `ord`.
pub open spec fn rearranged_by<T>(s0: Seq<T>, s: Seq<T>, ord: Seq<usize>) -> bool {
    &&& ord.len() == s0.len()
    &&& s.len() == s0.len()
    &&& is_permutation(ord)
    &&& forall|q: int| 0 <= q < s.len() ==> #[trigger] s[q] == s0[ord[q] as int]
}

/// Taken in the order `ord`, the `(key, position)` pairs of the elements of `s0` are selected at
/// `index`: the pairs before it are less than its pair, and those after it greater. Elements with
/// equivalent keys thus keep their relative order around `index`.
pub open spec fn pair_selected<T, K: Ord>(s0: Seq<T>, ord: Seq<usize>, index: usize, key: spec_fn(T) -> K) -> bool {
    let nth = keyed(s0, key, ord[index as int] as int);
    &&& forall|i: int| 0 <= i < index ==> pair_less::<K>()(keyed(s0, key, #[trigger] ord[i] as int), nth)
    &&& forall|j: int| index < j < ord.len() ==> pair_less::<K>()(nth, keyed(s0, key, #[trigger] ord[j] as int))
}

/// Pairs selected at `index` under the closure `lt` are, taken back to the elements, selected by
/// key and position.
proof fn lemma_pair_selected<T, K: Ord, F: Fn(&(K, usize), &(K, usize)) -> bool>(
    lt: F,
    s0: Seq<T>,
    p0: Seq<(K, usize)>,
    p1: Seq<(K, usize)>,
    ord: Seq<usize>,
    index: usize,
    key: spec_fn(T) -> K,
)
    requires
        orders(lt, pair_less::<K>()),
        index < s0.len(),
        p1.len() == s0.len(),
        ord.len() == s0.len(),
        is_permutation(ord),
        selected(lt, p1, 0, p1.len() as int, index as int),
        forall|q: int| 0 <= q < p1.len() ==> #[trigger] p1[q] == p0[ord[q] as int],
        forall|m: int| 0 <= m < s0.len() ==> key(s0[m]) == (#[trigger] p0[m]).0 && p0[m].1 == m,
    ensures
        pair_selected(s0, ord, index, key),
{
    let i0 = index as int;
    let pl = pair_less::<K>();
    assert forall|q: int| 0 <= q < p1.len() implies #[trigger] p1[q] == keyed(s0, key, ord[q] as int) by {
        assert(p0[ord[q] as int].1 == ord[q]);
    }
    let nth = p1[i0];
    assert(nth == keyed(s0, key, ord[i0] as int));
    assert forall|i: int| 0 <= i < index implies pl(keyed(s0, key, #[trigger] ord[i] as int), nth) by {
        assert(p1[i] == keyed(s0, key, ord[i] as int));
        assert(known_le(lt, p1[i], nth));
        assert(!pl(nth, p1[i]));
        assert(ord[i] != ord[i0]);
    }
    assert forall|j: int| index < j < ord.len() implies pl(nth, keyed(s0, key, #[trigger] ord[j] as int)) by {
        assert(p1[j] == keyed(s0, key, ord[j] as int));
        assert(known_le(lt, nth, p1[j]));
        assert(!pl(p1[j], nth));
        assert(ord[j] != ord[i0]);
    }
}

/// Reorders the slice with a key extraction function such that the element at `index` is at its
/// final sorted position by key, computing the key of each element once: the elements before it
/// have keys that are not greater, and those after it keys that are not less. Returns the part
/// before `index`, the element at `index`, and the part after it.
///
/// The keys are computed into a vector of `(key, position)` pairs, which is partitioned around
/// `index`; the slice is then rearranged by the positions in the pairs, so that the elements are
/// selected by key and, between equivalent keys, by position. A slice of fewer than two elements
/// is left as it is.
///
/// The guarantees hold when the comparisons of `K` obey the laws of `Ord`, for every function
/// `key` that gives the keys that `f` returns.
pub fn select_nth_unstable_by_cached_key<T, K: Ord, F: Fn(&T) -> K>(
    data: &mut [T],
    index: usize,
    f: F,
) -> (r: (&mut [T], &mut T, &mut [T]))
    requires
        index < old(data)@.len(),
        forall|x: &T| #[trigger] call_requires(f, (x,)),
    ensures
        forall|key: spec_fn(T) -> K|
            obeys_cmp::<K>() && #[trigger] key_agrees(f, key) ==> selection_by(
                old(data)@,
                index,
                r.0@,
                *r.1,
                r.2@,
                by_key::<T, K>(key),
            ),
        exists|ord: Seq<usize>|
            #[trigger] rearranged_by(old(data)@, r.0@ + seq![*r.1] + r.2@, ord) && forall|key: spec_fn(T) -> K|
                obeys_cmp::<K>() && #[trigger] key_agrees(f, key) ==> pair_selected(old(data)@, ord, index, key),
        old(data)@.len() < 2 ==> r.0@ + seq![*r.1] + r.2@ == old(data)@,
        final(data)@ == final(r.0)@ + seq![*final(r.1)] + final(r.2)@,
{
    let len = data.len();
    if len < 2 {
        let ghost s0 = data@;
        let r = split_partition(data, index);
        proof {
            let ord = seq![0usize];
            assert(r.0@ + seq![*r.1] + r.2@ =~= s0);
            assert(rearranged_by(s0, r.0@ + seq![*r.1] + r.2@, ord));
        }
        return r;
    }
    let ghost s0 = data@;
    let mut indices: Vec<(K, usize)> = Vec::new();
    let mut j: usize = 0;
    while j < len
        invariant
            len == data@.len(),
            data@ == s0,
            j <= len,
            indices@.len() == j,
            forall|x: &T| #[trigger] call_requires(f, (x,)),
            forall|m: int| 0 <= m < j ==> (#[trigger] indices@[m]).1 == m && call_ensures(f, (&s0[m],), indices@[m].0),
        decreases len - j,
    {
        let k = f(&data[j]);
        indices.push((k, j));
        j = j + 1;
    }
    let lt = |a: &(K, usize), b: &(K, usize)| -> (r: bool)
        ensures
            K::obeys_partial_cmp_spec() ==> (r <==> pair_less::<K>()(*a, *b)),
        {
            if a.0.lt(&b.0) {
                true
            } else if b.0.lt(&a.0) {
                false
            } else {
                a.1 < b.1
            }
        };
    let ghost p0 = indices@;
    select_with(indices.as_mut_slice(), index, &lt);
    let ghost p1 = indices@;
    // The position in `data` of the element that each pair stands for.
    let mut order: Vec<usize> = Vec::new();
    let mut m: usize = 0;
    while m < len
        invariant
            len == indices@.len(),
            indices@ == p1,
            m <= len,
            order@.len() == m,
            forall|q: int| 0 <= q < m ==> #[trigger] order@[q] == p1[q].1,
        decreases len - m,
    {
        order.push(indices[m].1);
        m = m + 1;
    }
    proof {
        lemma_carried_positions(p0, p1, order@);
    }
    let ghost ord = order@;
    permute::apply_permutation(data, &mut order);
    proof {
        assert forall|key: spec_fn(T) -> K|
            obeys_cmp::<K>() && #[trigger] key_agrees(f, key) implies selection_at(s0, data@, index,
            by_key::<T, K>(key)) && pair_selected(s0, ord, index, key) by {
            lemma_pair_order::<K>();
            reveal(vstd::laws_cmp::obeys_cmp_partial_ord);
            assert(orders(lt, pair_less::<K>()));
            assert forall|m: int| 0 <= m < s0.len() implies key(s0[m]) == (#[trigger] p0[m]).0 && p0[m].1 == m by {
                assert(call_ensures(f, (&s0[m],), p0[m].0));
            }
            lemma_carried_selection(lt, s0, data@, p0, p1, ord, index, key);
            lemma_pair_selected(lt, s0, p0, p1, ord, index, key);
        }
    }
    let ghost s = data@;
    let r = split_partition(data, index);
    proof {
        assert(r.0@ + seq![*r.1] + r.2@ =~= s);
        assert(rearranged_by(s0, s, ord));
    }
    r
}

} // verus!
