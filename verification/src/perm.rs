//! Swapping elements of a slice, and the permutations that swaps build.
use vstd::prelude::*;
use vstd::multiset::Multiset;

verus! {

broadcast use vstd::seq_lib::group_to_multiset_ensures;

/// The sequence `s` with the elements at `i` and `j` exchanged.
pub open spec fn swapped<T>(s: Seq<T>, i: int, j: int) -> Seq<T> {
    s.update(i, s[j]).update(j, s[i])
}

/// `b` is a rearrangement of `a` that leaves everything outside `[lo, hi)` in place.
pub open spec fn perm_in<T>(a: Seq<T>, b: Seq<T>, lo: int, hi: int) -> bool {
    &&& a.len() == b.len()
    &&& 0 <= lo <= hi <= a.len()
    &&& forall|k: int| 0 <= k < lo ==> #[trigger] b[k] == a[k]
    &&& forall|k: int| hi <= k < a.len() ==> #[trigger] b[k] == a[k]
    &&& a.subrange(lo, hi).to_multiset() == b.subrange(lo, hi).to_multiset()
}

/// Exchanges `data[i]` and `data[j]`.
///
/// Calls `<[T]>::swap`, which exchanges the two elements (it panics on an index out of bounds,
/// which `requires` rules out). The contract claims that exactly those two positions change.
#[verifier::external_body]
pub(crate) fn slice_swap<T>(data: &mut [T], i: usize, j: usize)
    requires
        i < old(data)@.len(),
        j < old(data)@.len(),
    ensures
        final(data)@ == swapped(old(data)@, i as int, j as int),
{
    data.swap(i, j);
}

pub proof fn lemma_update_multiset<T>(s: Seq<T>, i: int, v: T)
    requires
        0 <= i < s.len(),
    ensures
        s.update(i, v).to_multiset() == s.to_multiset().remove(s[i]).insert(v),
{
    vstd::seq_lib::to_multiset_update(s, i, v);
}

pub proof fn lemma_swapped_multiset<T>(s: Seq<T>, i: int, j: int)
    requires
        0 <= i < s.len(),
        0 <= j < s.len(),
    ensures
        swapped(s, i, j).to_multiset() == s.to_multiset(),
{
    let s1 = s.update(i, s[j]);
    lemma_update_multiset(s, i, s[j]);
    lemma_update_multiset(s1, j, s[i]);
    assert(s.to_multiset().count(s[j]) > 0);
    if i == j {
        assert(swapped(s, i, j) =~= s);
    } else {
        assert(s1[j] == s[j]);
        assert(s.to_multiset().remove(s[i]).insert(s[j]).remove(s[j]).insert(s[i]) =~= s.to_multiset());
    }
}

pub proof fn lemma_perm_refl<T>(a: Seq<T>, lo: int, hi: int)
    requires
        0 <= lo <= hi <= a.len(),
    ensures
        perm_in(a, a, lo, hi),
{
}

pub proof fn lemma_perm_swap<T>(a: Seq<T>, lo: int, hi: int, i: int, j: int)
    requires
        0 <= lo <= i < hi <= a.len(),
        lo <= j < hi,
    ensures
        perm_in(a, swapped(a, i, j), lo, hi),
{
    let b = swapped(a, i, j);
    let sa = a.subrange(lo, hi);
    assert(b.subrange(lo, hi) =~= swapped(sa, i - lo, j - lo));
    lemma_swapped_multiset(sa, i - lo, j - lo);
}

pub proof fn lemma_perm_trans<T>(a: Seq<T>, b: Seq<T>, c: Seq<T>, lo: int, hi: int)
    requires
        perm_in(a, b, lo, hi),
        perm_in(b, c, lo, hi),
    ensures
        perm_in(a, c, lo, hi),
{
}

/// A rearrangement inside `[lo, hi)` is also one inside any larger range.
pub proof fn lemma_perm_widen<T>(a: Seq<T>, b: Seq<T>, lo: int, hi: int, lo2: int, hi2: int)
    requires
        perm_in(a, b, lo, hi),
        0 <= lo2 <= lo,
        hi <= hi2 <= a.len(),
    ensures
        perm_in(a, b, lo2, hi2),
{
    let l1 = a.subrange(lo2, lo);
    let m1 = a.subrange(lo, hi);
    let r1 = a.subrange(hi, hi2);
    let m2 = b.subrange(lo, hi);
    assert(a.subrange(lo2, hi2) =~= l1 + m1 + r1);
    assert(b.subrange(lo2, hi2) =~= l1 + m2 + r1);
    vstd::seq_lib::lemma_multiset_commutative(l1 + m1, r1);
    vstd::seq_lib::lemma_multiset_commutative(l1, m1);
    vstd::seq_lib::lemma_multiset_commutative(l1 + m2, r1);
    vstd::seq_lib::lemma_multiset_commutative(l1, m2);
}

/// Every element of the rearranged range comes from the range before the rearrangement.
pub proof fn lemma_perm_source<T>(a: Seq<T>, b: Seq<T>, lo: int, hi: int, k: int) -> (j: int)
    requires
        perm_in(a, b, lo, hi),
        lo <= k < hi,
    ensures
        lo <= j < hi,
        a[j] == b[k],
{
    let sb = b.subrange(lo, hi);
    let sa = a.subrange(lo, hi);
    assert(sb[k - lo] == b[k]);
    assert(sb.to_multiset().count(b[k]) > 0);
    assert(sa.to_multiset().count(b[k]) > 0);
    assert(sa.contains(b[k]));
    let i = choose|i: int| 0 <= i < sa.len() && sa[i] == b[k];
    i + lo
}

/// A property of all elements of a range survives a rearrangement of the range.
pub proof fn lemma_perm_all<T>(a: Seq<T>, b: Seq<T>, lo: int, hi: int, p: spec_fn(T) -> bool)
    requires
        perm_in(a, b, lo, hi),
        forall|k: int| lo <= k < hi ==> #[trigger] p(a[k]),
    ensures
        forall|k: int| lo <= k < hi ==> #[trigger] p(b[k]),
{
    assert forall|k: int| lo <= k < hi implies #[trigger] p(b[k]) by {
        let j = lemma_perm_source(a, b, lo, hi, k);
        assert(p(a[j]));
    }
}

/// The whole sequence is a rearrangement when a range is.
pub proof fn lemma_perm_whole<T>(a: Seq<T>, b: Seq<T>, lo: int, hi: int)
    requires
        perm_in(a, b, lo, hi),
    ensures
        a.to_multiset() == b.to_multiset(),
{
    lemma_perm_widen(a, b, lo, hi, 0, a.len() as int);
    assert(a.subrange(0, a.len() as int) =~= a);
    assert(b.subrange(0, b.len() as int) =~= b);
}

/// The number of elements of a sequence with a property is the same in every rearrangement.
pub proof fn lemma_filter_len_perm<T>(a: Seq<T>, b: Seq<T>, p: spec_fn(T) -> bool)
    requires
        a.to_multiset() == b.to_multiset(),
    ensures
        a.filter(p).len() == b.filter(p).len(),
    decreases a.len(),
{
    reveal(Seq::filter);
    if a.len() == 0 {
        vstd::seq_lib::to_multiset_len(a);
        vstd::seq_lib::to_multiset_len(b);
        assert(b.len() == 0);
        assert(a.filter(p) =~= a);
        assert(b.filter(p) =~= b);
    } else {
        let x = a.last();
        assert(a.to_multiset().count(x) > 0);
        assert(b.contains(x));
        let i = choose|i: int| 0 <= i < b.len() && b[i] == x;
        let a2 = a.drop_last();
        let b2 = b.remove(i);
        assert(a.remove(a.len() - 1) =~= a2);
        vstd::seq_lib::to_multiset_remove(a, a.len() - 1);
        vstd::seq_lib::to_multiset_remove(b, i);
        lemma_filter_len_perm(a2, b2, p);
        let l = b.take(i);
        let r = b.skip(i + 1);
        assert(b =~= l + seq![x] + r);
        assert(b2 =~= l + r);
        Seq::filter_distributes_over_add(l + seq![x], r, p);
        Seq::filter_distributes_over_add(l, seq![x], p);
        Seq::filter_distributes_over_add(l, r, p);
        assert(seq![x].drop_last() =~= Seq::<T>::empty());
        assert(Seq::<T>::empty().filter(p) =~= Seq::<T>::empty());
    }
}

/// Keeping the elements with a property that all of them have keeps them all.
pub proof fn lemma_filter_all<T>(a: Seq<T>, p: spec_fn(T) -> bool)
    requires
        forall|i: int| 0 <= i < a.len() ==> p(#[trigger] a[i]),
    ensures
        a.filter(p) == a,
    decreases a.len(),
{
    reveal(Seq::filter);
    if a.len() > 0 {
        lemma_filter_all(a.drop_last(), p);
        assert(a.drop_last().push(a.last()) =~= a);
    }
}

/// Keeping the elements with a property that none of them has keeps none.
pub proof fn lemma_filter_none<T>(a: Seq<T>, p: spec_fn(T) -> bool)
    requires
        forall|i: int| 0 <= i < a.len() ==> !p(#[trigger] a[i]),
    ensures
        a.filter(p).len() == 0,
{
    if a.filter(p).len() > 0 {
        let x = a.filter(p)[0];
        a.lemma_filter_pred(p, 0);
        assert(a.filter(p).contains(x));
        a.lemma_filter_contains_rev(p, x);
    }
}

} // verus!
