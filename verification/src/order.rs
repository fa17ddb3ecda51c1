//! Orders given by comparison closures.
//!
//! The algorithms of this crate take a closure `lt` that answers "is `a` less than `b`?". The
//! algorithms never assume anything about `lt`: they work (and stay in bounds) for any closure.
//! The ordering guarantees are stated for every strict weak order `less` that agrees with all the
//! answers `lt` can give. Such facts are written `known_lt(lt, a, b)` (`a < b` under every such
//! order) and `known_le(lt, a, b)` (`a <= b`, i.e. `!(b < a)`, under every such order).
use vstd::prelude::*;

verus! {

/// `less` is a strict weak order: irreflexive, transitive, and incomparability is transitive.
pub open spec fn strict_weak_order<T>(less: spec_fn(T, T) -> bool) -> bool {
    &&& forall|a: T| !#[trigger] less(a, a)
    &&& forall|a: T, b: T, c: T| #[trigger] less(a, b) && #[trigger] less(b, c) ==> less(a, c)
    &&& forall|a: T, b: T, c: T|
        !#[trigger] less(a, b) && !#[trigger] less(b, c) ==> !less(a, c)
}

/// Every answer that the closure `lt` can give is the answer of `less`.
pub open spec fn agrees<T, F: Fn(&T, &T) -> bool>(lt: F, less: spec_fn(T, T) -> bool) -> bool {
    forall|a: T, b: T, r: bool| #[trigger] call_ensures(lt, (&a, &b), r) ==> r == less(a, b)
}

/// `less` is a strict weak order that explains the closure `lt`.
pub open spec fn orders<T, F: Fn(&T, &T) -> bool>(lt: F, less: spec_fn(T, T) -> bool) -> bool {
    agrees(lt, less) && strict_weak_order(less)
}

/// The closure can be called on any pair of elements.
pub open spec fn total<T, F: Fn(&T, &T) -> bool>(lt: F) -> bool {
    forall|a: &T, b: &T| #[trigger] call_requires(lt, (a, b))
}

/// `a < b` under every order that explains `lt`.
pub open spec fn known_lt<T, F: Fn(&T, &T) -> bool>(lt: F, a: T, b: T) -> bool {
    forall|less: spec_fn(T, T) -> bool| #[trigger] orders(lt, less) ==> less(a, b)
}

/// `a <= b` (that is, `!(b < a)`) under every order that explains `lt`.
pub open spec fn known_le<T, F: Fn(&T, &T) -> bool>(lt: F, a: T, b: T) -> bool {
    forall|less: spec_fn(T, T) -> bool| #[trigger] orders(lt, less) ==> !less(b, a)
}

/// Some strict weak order explains every answer of the closure `lt`.
pub open spec fn consistent<T, F: Fn(&T, &T) -> bool>(lt: F) -> bool {
    exists|less: spec_fn(T, T) -> bool| #[trigger] orders(lt, less)
}

/// Under a consistent closure, `a < b` and `b <= a` are never both known.
pub proof fn lemma_lt_not_ge<T, F: Fn(&T, &T) -> bool>(lt: F, a: T, b: T)
    requires
        consistent(lt),
    ensures
        !(known_lt(lt, a, b) && known_le(lt, b, a)),
{
    let less = choose|less: spec_fn(T, T) -> bool| #[trigger] orders(lt, less);
    if known_lt(lt, a, b) {
        assert(less(a, b));
    }
}

/// The answer `r` of a call `lt(a, b)` is a known fact.
pub proof fn lemma_answer<T, F: Fn(&T, &T) -> bool>(lt: F, a: T, b: T, r: bool)
    requires
        call_ensures(lt, (&a, &b), r),
    ensures
        r ==> known_lt(lt, a, b),
        !r ==> known_le(lt, b, a),
{
}

pub proof fn lemma_le_refl<T, F: Fn(&T, &T) -> bool>(lt: F, a: T)
    ensures
        known_le(lt, a, a),
{
}

pub proof fn lemma_lt_le<T, F: Fn(&T, &T) -> bool>(lt: F, a: T, b: T)
    requires
        known_lt(lt, a, b),
    ensures
        known_le(lt, a, b),
{
    assert forall|less: spec_fn(T, T) -> bool| #[trigger] orders(lt, less) implies !less(b, a) by {
        assert(less(a, b));
        if less(b, a) {
            assert(less(a, a));
        }
    }
}

pub proof fn lemma_le_le<T, F: Fn(&T, &T) -> bool>(lt: F, a: T, b: T, c: T)
    requires
        known_le(lt, a, b),
        known_le(lt, b, c),
    ensures
        known_le(lt, a, c),
{
    assert forall|less: spec_fn(T, T) -> bool| #[trigger] orders(lt, less) implies !less(c, a) by {
        assert(!less(b, a));
        assert(!less(c, b));
    }
}

pub proof fn lemma_lt_le_lt<T, F: Fn(&T, &T) -> bool>(lt: F, a: T, b: T, c: T)
    requires
        known_lt(lt, a, b),
        known_le(lt, b, c),
    ensures
        known_lt(lt, a, c),
{
    assert forall|less: spec_fn(T, T) -> bool| #[trigger] orders(lt, less) implies less(a, c) by {
        assert(less(a, b));
        assert(!less(c, b));
        if !less(a, c) {
            // !less(c, b) and !less(a, c) give !less(a, b)
            assert(!less(a, b));
        }
    }
}

pub proof fn lemma_le_lt_lt<T, F: Fn(&T, &T) -> bool>(lt: F, a: T, b: T, c: T)
    requires
        known_le(lt, a, b),
        known_lt(lt, b, c),
    ensures
        known_lt(lt, a, c),
{
    assert forall|less: spec_fn(T, T) -> bool| #[trigger] orders(lt, less) implies less(a, c) by {
        assert(!less(b, a));
        assert(less(b, c));
        if !less(a, c) {
            assert(!less(b, c));
        }
    }
}

} // verus!

verus! {

/// Every element of `s[lo..hi)` is known to be less than `x`.
pub open spec fn all_lt<T, F: Fn(&T, &T) -> bool>(lt: F, s: Seq<T>, lo: int, hi: int, x: T) -> bool {
    forall|k: int| lo <= k < hi ==> known_lt(lt, #[trigger] s[k], x)
}

/// Every element of `s[lo..hi)` is known to be at most `x`.
pub open spec fn all_le<T, F: Fn(&T, &T) -> bool>(lt: F, s: Seq<T>, lo: int, hi: int, x: T) -> bool {
    forall|k: int| lo <= k < hi ==> known_le(lt, #[trigger] s[k], x)
}

/// Every element of `s[lo..hi)` is known to be at least `x`.
pub open spec fn all_ge<T, F: Fn(&T, &T) -> bool>(lt: F, s: Seq<T>, lo: int, hi: int, x: T) -> bool {
    forall|k: int| lo <= k < hi ==> known_le(lt, x, #[trigger] s[k])
}

/// Every element of `s[lo..hi)` is known to be greater than `x`.
pub open spec fn all_gt<T, F: Fn(&T, &T) -> bool>(lt: F, s: Seq<T>, lo: int, hi: int, x: T) -> bool {
    forall|k: int| lo <= k < hi ==> known_lt(lt, x, #[trigger] s[k])
}

/// Every element of `s[lo..hi)` is known to be equivalent to `x`.
pub open spec fn all_eq<T, F: Fn(&T, &T) -> bool>(lt: F, s: Seq<T>, lo: int, hi: int, x: T) -> bool {
    all_le(lt, s, lo, hi, x) && all_ge(lt, s, lo, hi, x)
}

} // verus!

verus! {

/// The order `less` read backwards.
pub open spec fn flipped<T>(less: spec_fn(T, T) -> bool) -> spec_fn(T, T) -> bool {
    |a: T, b: T| less(b, a)
}

/// A closure that answers `lt(b, a)` when asked about `(a, b)` turns every known fact around.
pub proof fn lemma_reversed<T, F: Fn(&T, &T) -> bool, G: Fn(&T, &T) -> bool>(lt: F, rev: G)
    requires
        forall|a: T, b: T, r: bool| #[trigger] call_ensures(rev, (&a, &b), r) ==> call_ensures(lt, (&b, &a), r),
    ensures
        forall|a: T, b: T| #[trigger] known_lt(rev, a, b) ==> known_lt(lt, b, a),
        forall|a: T, b: T| #[trigger] known_le(rev, a, b) ==> known_le(lt, b, a),
{
    assert forall|less: spec_fn(T, T) -> bool| #[trigger] orders(lt, less) implies orders(rev, flipped(less)) by {
        assert forall|a: T, b: T, r: bool| #[trigger] call_ensures(rev, (&a, &b), r) implies r == flipped(less)(a, b) by {
            assert(call_ensures(lt, (&b, &a), r));
        }
        let fl = flipped(less);
        assert(forall|a: T, b: T, c: T| #[trigger] fl(a, b) && #[trigger] fl(b, c) ==> fl(a, c)) by {
            assert forall|a: T, b: T, c: T| #[trigger] fl(a, b) && #[trigger] fl(b, c) implies fl(a, c) by {
                assert(less(b, a) && less(c, b));
            }
        }
        assert(forall|a: T, b: T, c: T| !#[trigger] fl(a, b) && !#[trigger] fl(b, c) ==> !fl(a, c)) by {
            assert forall|a: T, b: T, c: T| !#[trigger] fl(a, b) && !#[trigger] fl(b, c) implies !fl(a, c) by {
                assert(!less(b, a) && !less(c, b));
            }
        }
        assert(forall|a: T| !#[trigger] fl(a, a));
    }
    assert forall|a: T, b: T| #[trigger] known_lt(rev, a, b) implies known_lt(lt, b, a) by {
        assert forall|less: spec_fn(T, T) -> bool| #[trigger] orders(lt, less) implies less(b, a) by {
            assert(orders(rev, flipped(less)));
        }
    }
    assert forall|a: T, b: T| #[trigger] known_le(rev, a, b) implies known_le(lt, b, a) by {
        assert forall|less: spec_fn(T, T) -> bool| #[trigger] orders(lt, less) implies !less(a, b) by {
            assert(orders(rev, flipped(less)));
        }
    }
}

} // verus!
