//! Rearranging a slice, in place, by a permutation of its positions.
use vstd::prelude::*;
use crate::perm::{perm_in, slice_swap, lemma_perm_refl, lemma_perm_swap, lemma_perm_trans, lemma_perm_whole};

verus! {

/// `p` is a permutation of the positions `0..p.len()`.
pub open spec fn is_permutation(p: Seq<usize>) -> bool {
    &&& forall|j: int| 0 <= j < p.len() ==> #[trigger] p[j] < p.len()
    &&& forall|a: int, b: int|
        0 <= a < p.len() && 0 <= b < p.len() && a != b ==> #[trigger] p[a] != #[trigger] p[b]
}

/// Follows the links `x -> idx[x]` while they lead from a position below `i` further to the
/// right; the result is the first position reached that is not below `i`, or where a link does
/// not lead to the right.
spec fn chase(idx: Seq<usize>, i: int, x: int) -> int
    decreases (if x < i { i - x } else { 0 }),
{
    if 0 <= x < i && x < idx.len() && x < idx[x] {
        chase(idx, i, idx[x] as int)
    } else {
        x
    }
}

/// Setting the link of position `i` does not change a chase that ends beyond `i`.
proof fn lemma_chase_keep(idx: Seq<usize>, i: int, k: usize, x: int)
    requires
        0 <= x,
        0 <= i < idx.len(),
        chase(idx, i, x) >= i + 1,
    ensures
        chase(idx.update(i, k), i + 1, x) == chase(idx, i, x),
    decreases (if x < i { i - x } else { 0 }),
{
    let idx2 = idx.update(i, k);
    if x < i {
        if x < idx[x] {
            assert(idx2[x] == idx[x]);
            lemma_chase_keep(idx, i, k, idx[x] as int);
        }
    }
}

/// Setting the link of position `i` to a position `k` beyond it extends a chase that ended at `i`
/// to `k`.
proof fn lemma_chase_extend(idx: Seq<usize>, i: int, k: usize, x: int)
    requires
        0 <= x,
        0 <= i < idx.len(),
        i < k,
        chase(idx, i, x) == i,
    ensures
        chase(idx.update(i, k), i + 1, x) == k,
    decreases (if x < i { i - x } else { 0 }),
{
    let idx2 = idx.update(i, k);
    if x < i {
        if x < idx[x] {
            assert(idx2[x] == idx[x]);
            lemma_chase_extend(idx, i, k, idx[x] as int);
        }
    } else {
        assert(idx2[i] == k);
        assert(chase(idx2, i + 1, k as int) == k);
    }
}

/// Rearranges `data` so that position `j` receives the element that was at position `order[j]`.
///
/// The cycles of the permutation are followed in place: position `i` receives its element by one
/// swap, with the element found by chasing the links `order[x]` of the positions `x < i`, which
/// are updated to tell where each displaced element went.
pub fn apply_permutation<T>(data: &mut [T], order: &mut Vec<usize>)
    requires
        old(order)@.len() == old(data)@.len(),
        is_permutation(old(order)@),
    ensures
        perm_in(old(data)@, final(data)@, 0, old(data)@.len() as int),
        final(data)@.to_multiset() == old(data)@.to_multiset(),
        forall|j: int| 0 <= j < old(data)@.len() ==> #[trigger] final(data)@[j] == old(data)@[old(order)@[j] as int],
{
    let ghost s0 = data@;
    let ghost p = order@;
    let n = data.len();
    // `src[m]` is the starting position of the element now at `m`; `pos` is its inverse.
    let ghost mut src: Seq<int> = Seq::new(n as nat, |m: int| m);
    let ghost mut pos: Seq<int> = Seq::new(n as nat, |x: int| x);
    proof {
        lemma_perm_refl(s0, 0, n as int);
    }
    let mut i: usize = 0;
    while i < n
        invariant
            n == data@.len(),
            order@.len() == n,
            p.len() == n,
            s0.len() == n,
            is_permutation(p),
            i <= n,
            src.len() == n,
            pos.len() == n,
            forall|m: int| 0 <= m < n ==> 0 <= #[trigger] src[m] < n && pos[src[m]] == m,
            forall|x: int| 0 <= x < n ==> 0 <= #[trigger] pos[x] < n && src[pos[x]] == x,
            forall|m: int| 0 <= m < n ==> #[trigger] data@[m] == s0[src[m]],
            forall|j: int| 0 <= j < i ==> #[trigger] src[j] == p[j],
            forall|m: int| i <= m < n ==> #[trigger] order@[m] == p[m],
            forall|m: int| 0 <= m < n ==> #[trigger] order@[m] < n,
            forall|x: int| 0 <= x < n && pos[x] >= i ==> chase(order@, i as int, x) == #[trigger] pos[x],
            perm_in(s0, data@, 0, n as int),
        decreases n - i,
    {
        let ghost b = p[i as int] as int;
        proof {
            if pos[b] < i {
                let j = pos[b];
                assert(src[j] == p[j]);
                assert(p[j] == p[i as int]);
            }
        }
        // Find where the element that belongs at `i` went.
        let mut k = order[i];
        while k < i
            invariant
                n == order@.len(),
                i < n,
                k < n,
                0 <= b < n,
                pos.len() == n,
                forall|m: int| 0 <= m < n ==> #[trigger] order@[m] < n,
                pos[b] >= i,
                chase(order@, i as int, k as int) == pos[b],
            decreases n - k,
        {
            k = order[k];
        }
        let ghost o1 = order@;
        let ghost a = src[i as int];
        order.set(i, k);
        let ghost s1 = data@;
        slice_swap(data, i, k);
        proof {
            lemma_perm_swap(s1, 0, n as int, i as int, k as int);
            lemma_perm_trans(s0, s1, data@, 0, n as int);
            assert(k == pos[b]);
            assert(pos[a] == i);
            let src0 = src;
            let pos0 = pos;
            src = src.update(i as int, b).update(k as int, a);
            pos = pos.update(b, i as int).update(a, k as int);
            assert forall|x: int| 0 <= x < n && pos[x] >= i + 1 implies chase(order@, i + 1, x) == #[trigger] pos[x] by {
                if x == a && a != b {
                    lemma_chase_extend(o1, i as int, k, x);
                } else {
                    assert(x != b);
                    assert(pos0[x] != i);
                    lemma_chase_keep(o1, i as int, k, x);
                }
            }
            assert forall|m: int| 0 <= m < n implies 0 <= #[trigger] src[m] < n && pos[src[m]] == m by {
                if m != i && m != k {
                    assert(src[m] == src0[m]);
                    assert(src0[m] != a && src0[m] != b);
                }
            }
            assert forall|x: int| 0 <= x < n implies 0 <= #[trigger] pos[x] < n && src[pos[x]] == x by {
                if x != a && x != b {
                    assert(pos[x] == pos0[x]);
                    assert(pos0[x] != i && pos0[x] != k);
                }
            }
            assert forall|m: int| 0 <= m < n implies #[trigger] data@[m] == s0[src[m]] by {
                if m != i && m != k {
                    assert(data@[m] == s1[m]);
                }
            }
        }
        i = i + 1;
    }
    proof {
        lemma_perm_whole(s0, data@, 0, n as int);
    }
}

} // verus!
