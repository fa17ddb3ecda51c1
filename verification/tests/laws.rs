use turboselect::partition::{partition_at, partition_equal};
use turboselect::rand::{PCGRng, Rng};
use turboselect::select::sample;
use turboselect::select_nth_unstable_by_cached_key;
use turboselect::sort::{sort2, sort_at};
use turboselect::wyrand::WyRng;

#[test]
fn cached_key_returns_the_parts() {
    let mut v = [7u32, 1, 9, 3, 5, 2, 8];
    let (left, nth, right) = select_nth_unstable_by_cached_key(&mut v, 3, |a: &u32| *a);
    assert_eq!(*nth, 5);
    assert_eq!(left.len(), 3);
    assert_eq!(right.len(), 3);
    assert!(left.iter().all(|x| *x < 5));
    assert!(right.iter().all(|x| *x > 5));
}

#[test]
fn cached_key_equal_keys_keep_their_order() {
    let mut v = [(1u8, 'a'), (0, 'b'), (1, 'c'), (0, 'd'), (1, 'e')];
    let (left, nth, right) = select_nth_unstable_by_cached_key(&mut v, 2, |p: &(u8, char)| p.0);
    // By (key, position), the element at index 2 is the first with key 1.
    assert_eq!(*nth, (1, 'a'));
    let mut l: Vec<char> = left.iter().map(|p| p.1).collect();
    l.sort();
    assert_eq!(l, vec!['b', 'd']);
    let mut r: Vec<char> = right.iter().map(|p| p.1).collect();
    r.sort();
    assert_eq!(r, vec!['c', 'e']);
}

#[test]
fn partition_keeps_the_chosen_pivot() {
    let lt = |a: &u32, b: &u32| a < b;
    let input = vec![5u32, 3, 8, 3, 9, 1, 3, 7, 3, 2];
    for index in 0..input.len() {
        let mut data = input.clone();
        let (u, v) = partition_at(&mut data, 0, input.len(), index, &lt);
        assert_eq!(data[u], input[index]);
        assert!(u <= v);
        let mut data = input.clone();
        let (u, _) = partition_equal(&mut data, 0, input.len(), index, &lt);
        assert_eq!(data[u], input[index]);
    }
}

#[test]
fn sample_draws_its_positions_from_the_generator() {
    let len = 12usize;
    let count = 4usize;
    let mut data: Vec<usize> = (0..len).collect();
    let mut rng = WyRng::new(42);
    sample(&mut data, 0, len, count, &mut rng);

    // The same draws, made by hand: step `i` draws from `[i, len)`.
    let mut twin = WyRng::new(42);
    let mut expected: Vec<usize> = (0..len).collect();
    let mut src = twin.bounded_usize(0, len);
    expected.swap(0, src);
    for i in 1..count {
        expected.swap(src, i);
        src = twin.bounded_usize(i, len);
        expected.swap(i, src);
    }
    assert_eq!(data, expected);
    assert_eq!(rng.u64(), twin.u64());
}

#[test]
fn sort_at_leaves_other_positions() {
    let mut data: Vec<u32> = (0..20).rev().collect();
    let before = data.clone();
    sort_at(&mut data, 1, 3, 5, &|a: &u32, b: &u32| a < b);
    for k in 0..data.len() {
        if k >= 1 && (k - 1) % 3 == 0 && k <= 13 {
            continue;
        }
        assert_eq!(data[k], before[k]);
    }
    assert_eq!([data[1], data[4], data[7], data[10], data[13]], [6, 9, 12, 15, 18]);
}

#[test]
fn wyrand_same_seed_same_values() {
    for seed in [1u64, 99, u64::MAX] {
        let mut a = WyRng::new(seed);
        let mut b = WyRng::new(seed);
        for i in 0..50u64 {
            assert_eq!(a.u64(), b.u64());
            assert_eq!(a.bounded_u64(i, i + 1000), b.bounded_u64(i, i + 1000));
            assert_eq!(a.bounded_usize(0, 7), b.bounded_usize(0, 7));
        }
    }
}

#[test]
fn pcg_same_seed_same_values() {
    for seed in [1u64, 99, u64::MAX] {
        let mut a = PCGRng::new(seed);
        let mut b = PCGRng::new(seed);
        for i in 0..50u64 {
            assert_eq!(a.u64(), b.u64());
            assert_eq!(a.bounded_u64(i, i + 1000), b.bounded_u64(i, i + 1000));
            assert_eq!(a.bounded_i64(-5, 5), b.bounded_i64(-5, 5));
        }
    }
}

#[test]
fn bounded_rng_draws_like_get_bounded() {
    let mut bounded = u64::rng(7).in_range(0, 256);
    let mut mapped = u64::rng(7);
    for _ in 0..100 {
        assert_eq!(bounded.get(), mapped.get_bounded(0, 256));
    }
    assert_eq!(bounded.next(), Some(mapped.get_bounded(0, 256)));
}

#[test]
fn pcg_equal_bounds_give_low() {
    let mut rng = PCGRng::new(3);
    assert_eq!(rng.bounded_usize(5, 5), 5);
    assert_eq!(rng.bounded_isize(-3, -3), -3);
    assert_eq!(rng.bounded_i64(9, 9), 9);
    assert_eq!(rng.bounded_u64(4, 4), 4);
    let mut mapped = u64::rng(3);
    assert_eq!(mapped.get_bounded(8, 8), 8);
    let mut signed = isize::rng(3).in_range(-2, -2);
    assert_eq!(signed.get(), -2);
}

#[test]
fn sort2_reports_the_exchange() {
    let lt = |a: &u32, b: &u32| a < b;
    let mut data = [5u32, 2, 9];
    assert!(sort2(&mut data, 0, 1, &lt));
    assert_eq!(data, [2, 5, 9]);
    assert!(!sort2(&mut data, 1, 2, &lt));
    assert_eq!(data, [2, 5, 9]);
    // With `a > b`, nothing is compared.
    assert!(!sort2(&mut data, 2, 0, &lt));
    assert_eq!(data, [2, 5, 9]);
}

#[test]
fn arrays_draw_element_by_element() {
    let mut arrays = <[u16; 4]>::rng(11);
    let mut single = u16::rng(11);
    for _ in 0..20 {
        let a = arrays.get();
        for x in a {
            assert_eq!(x, single.get());
        }
    }
    let low = [0u8, 10, 20];
    let high = [5u8, 11, 30];
    let mut bounded = <[u8; 3]>::rng(4).in_range(low, high);
    let mut twin = u8::rng(4);
    for _ in 0..50 {
        let a = bounded.get();
        for i in 0..3 {
            assert!(low[i] <= a[i] && a[i] < high[i]);
            assert_eq!(a[i], twin.get_bounded(low[i], high[i]));
        }
    }
    let mut empty = <[u64; 0]>::rng(4);
    assert_eq!(empty.get(), []);
    assert_eq!(empty.next(), Some([]));
}
