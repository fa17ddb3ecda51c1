use turboselect::blocks::partition_in_blocks;
use turboselect::partition::{partition_max, partition_min};
use turboselect::permute::apply_permutation;
use turboselect::rand::PCGRng;
use turboselect::select::{isqrt, sigmoid, usize_abs_diff, SIGMOID_ONE};
use turboselect::sort::tinysort;
use turboselect::wyrand::WyRng;
use turboselect::{
    select_nth_unstable, select_nth_unstable_by, select_nth_unstable_by_cached_key,
    select_nth_unstable_by_key,
};

fn random_vec(rng: &mut WyRng, len: usize, high: u64) -> Vec<u64> {
    (0..len).map(|_| rng.bounded_u64(0, high)).collect()
}

fn sorted_copy(data: &[u64]) -> Vec<u64> {
    let mut v = data.to_vec();
    v.sort();
    v
}

#[test]
fn select_median_example() {
    let mut v = [-5i32, 4, 1, -3, 2];
    select_nth_unstable(v.as_mut(), 2);
    assert!(
        v == [-3, -5, 1, 2, 4]
            || v == [-5, -3, 1, 2, 4]
            || v == [-3, -5, 1, 4, 2]
            || v == [-5, -3, 1, 4, 2]
    );
}

#[test]
fn select_by_descending_example() {
    let mut v = [-5i32, 4, 1, -3, 2];
    select_nth_unstable_by(&mut v, 2, |a: &i32, b: &i32| b.cmp(a));
    assert!(
        v == [2, 4, 1, -5, -3]
            || v == [2, 4, 1, -3, -5]
            || v == [4, 2, 1, -5, -3]
            || v == [4, 2, 1, -3, -5]
    );
}

#[test]
fn select_by_key_example() {
    let mut v = [-5i32, 4, 1, -3, 2];
    select_nth_unstable_by_key(&mut v, 2, |a: &i32| a.abs());
    assert!(
        v == [1, 2, -3, 4, -5]
            || v == [1, 2, -3, -5, 4]
            || v == [2, 1, -3, 4, -5]
            || v == [2, 1, -3, -5, 4]
    );
}

#[test]
fn select_by_cached_key_example() {
    let mut v = [-5i32, 4, 32, -3, 2];
    select_nth_unstable_by_cached_key(&mut v, 2, |a: &i32| a.to_string());
    assert!(
        v == [-3, -5, 2, 32, 4]
            || v == [-5, -3, 2, 32, 4]
            || v == [-3, -5, 2, 4, 32]
            || v == [-5, -3, 2, 4, 32]
    );
}

#[test]
fn cached_key_short_slices_unchanged() {
    let mut one = [9u8];
    let (left, nth, right) = select_nth_unstable_by_cached_key(&mut one, 0, |a: &u8| *a);
    assert!(left.is_empty() && right.is_empty());
    assert_eq!(*nth, 9);
    assert_eq!(one, [9]);
}

#[test]
fn cached_key_matches_sorted_order() {
    let mut rng = WyRng::new(77);
    for len in [2usize, 3, 9, 17, 100, 1000] {
        for _ in 0..5 {
            let data = random_vec(&mut rng, len, 50);
            let index = rng.bounded_usize(0, len);
            let mut v = data.clone();
            select_nth_unstable_by_cached_key(&mut v, index, |a: &u64| 100 - *a);
            let mut expected = data.clone();
            expected.sort_by_key(|a| 100 - *a);
            assert_eq!(100 - v[index], 100 - expected[index]);
            assert_eq!(sorted_copy(&v), sorted_copy(&data));
            for i in 0..index {
                assert!(100 - v[i] <= 100 - v[index]);
            }
            for j in index + 1..len {
                assert!(100 - v[j] >= 100 - v[index]);
            }
        }
    }
}

#[test]
fn selection_split_and_rank() {
    let mut rng = WyRng::new(5);
    for len in [1usize, 2, 8, 9, 50, 500, 5000] {
        let data = random_vec(&mut rng, len, 20);
        let index = rng.bounded_usize(0, len);
        let mut v = data.clone();
        let (left, nth, right) = select_nth_unstable(&mut v, index);
        let nth = *nth;
        assert_eq!(left.len(), index);
        assert_eq!(right.len(), len - index - 1);
        let max_left = left.iter().max().copied();
        let min_right = right.iter().min().copied();
        if let (Some(l), Some(r)) = (max_left, min_right) {
            assert!(l <= r);
        }
        let below = data.iter().filter(|x| **x < nth).count();
        let upto = data.iter().filter(|x| **x <= nth).count();
        assert!(below <= index);
        assert!(upto >= index + 1);
        assert_eq!(nth, sorted_copy(&data)[index]);
    }
}

#[test]
fn tinysort_long_ranges() {
    let mut rng = WyRng::new(11);
    for len in [17usize, 31, 32, 33, 47, 64, 65, 100, 255, 256, 257, 600] {
        let data = random_vec(&mut rng, len, 1000);
        let mut v = data.clone();
        tinysort(&mut v, 0, len, &u64::lt);
        assert_eq!(v, sorted_copy(&data));
        let mut rev: Vec<u64> = (0..len as u64).rev().collect();
        tinysort(&mut rev, 0, len, &u64::lt);
        assert_eq!(rev, (0..len as u64).collect::<Vec<_>>());
    }
}

#[test]
fn tinysort_inner_range() {
    let mut v = vec![9u64, 8, 7, 6, 5, 4, 3, 2, 1, 0];
    tinysort(&mut v, 2, 7, &u64::lt);
    assert_eq!(v, vec![9, 8, 3, 4, 5, 6, 7, 2, 1, 0]);
}

#[test]
fn block_partition_counts() {
    let mut rng = WyRng::new(3);
    for len in [0usize, 1, 5, 128, 255, 256, 257, 300, 1000, 4097] {
        let mut v = random_vec(&mut rng, len + 1, 100);
        let before = v.clone();
        // The pivot is the last element, outside the range.
        let pivot = v[len];
        let count = partition_in_blocks(&mut v, 0, len, len, &u64::lt);
        let expected = before[..len].iter().filter(|x| **x < pivot).count();
        assert_eq!(count, expected);
        assert!(v[..count].iter().all(|x| *x < pivot));
        assert!(v[count..len].iter().all(|x| *x >= pivot));
        assert_eq!(v[len], pivot);
        assert_eq!(sorted_copy(&v), sorted_copy(&before));
    }
}

#[test]
fn block_partition_extremes() {
    // Everything less than the pivot, and nothing less than it.
    let mut v: Vec<u64> = (0..700).collect();
    v.push(1000);
    assert_eq!(partition_in_blocks(&mut v, 0, 700, 700, &u64::lt), 700);
    let mut w: Vec<u64> = vec![0];
    w.extend(1..700);
    assert_eq!(partition_in_blocks(&mut w, 1, 700, 0, &u64::lt), 0);
}

#[test]
fn permutation_applied() {
    let mut data = vec!['a', 'b', 'c', 'd', 'e'];
    let mut order = vec![3usize, 0, 4, 1, 2];
    apply_permutation(&mut data, &mut order);
    assert_eq!(data, vec!['d', 'a', 'e', 'b', 'c']);
}

#[test]
fn wyrand_values() {
    let mut rng = WyRng::new(1);
    assert_eq!(rng.u64(), 14839104130206199084);
    assert_eq!(rng.u64(), 7050053486739369280);
    assert_eq!(rng.u64(), 10158010531033381599);
    // The seed 0 stands for the address of the generator: its draws still vary.
    let mut zero = WyRng::new(0);
    let (a, b) = (zero.u64(), zero.u64());
    assert_ne!(a, b);
}

#[test]
fn wyrand_derived_draws() {
    let mut a = WyRng::new(99);
    let mut b = WyRng::new(99);
    for _ in 0..100 {
        let x = a.u64();
        assert_eq!(b.bool(), x > u64::MAX / 2);
    }
    let mut c = WyRng::new(7);
    let mut d = WyRng::new(7);
    let hi = c.u64() as u128;
    let lo = c.u64() as u128;
    assert_eq!(d.u128(), (hi << 64) | lo);
    let mut e = WyRng::new(7);
    assert_eq!(e.u8(), (hi >> 56) as u8);
    assert_eq!(e.u16(), (lo >> 48) as u16);
}

#[test]
fn wyrand_bounded_ranges() {
    let mut rng = WyRng::new(21);
    for _ in 0..1000 {
        let x = rng.bounded_u8(10, 20);
        assert!((10..20).contains(&x));
        let y = rng.bounded_u16(1000, 1003);
        assert!((1000..1003).contains(&y));
        let z = rng.bounded_u32(0, 7);
        assert!(z < 7);
        let w = rng.bounded_u64(5, u64::MAX);
        assert!(w >= 5);
        let v = rng.bounded_u128(3, 1 << 100);
        assert!((3..1u128 << 100).contains(&v));
        let u = rng.bounded_u128(0, 5);
        assert!(u < 5);
        let s = rng.bounded_usize(40, 41);
        assert_eq!(s, 40);
    }
}

#[test]
fn pcg_values() {
    let mut rng = PCGRng::new(1);
    assert_eq!(rng.u64(), 238904766150899092);
    assert_eq!(rng.u64(), 1232151815446106236);
    assert_eq!(rng.u64(), 12800015874442142703);
    let mut other = PCGRng::new(42);
    assert_eq!(other.u32(), (6066891551371122162u64 >> 32) as u32);
    assert_eq!(other.u64(), 12705122215462812929);
}

#[test]
fn pcg_bounded_signed() {
    let mut rng = PCGRng::new(8);
    for _ in 0..1000 {
        let a = rng.bounded_i8(-100, 100);
        assert!((-100..100).contains(&a));
        let b = rng.bounded_i32(-5, -2);
        assert!((-5..-2).contains(&b));
        let c = rng.bounded_i64(i64::MIN, i64::MIN + 3);
        assert!((i64::MIN..i64::MIN + 3).contains(&c));
        let d = rng.bounded_i128(-1, 1);
        assert!(d == -1 || d == 0);
        let e = rng.bounded_u16(7, 8);
        assert_eq!(e, 7);
    }
}

#[test]
fn isqrt_values() {
    let inputs = [0usize, 1, 2, 3, 4, 15, 16, 17, 99, 100, (1 << 32) - 1];
    let expected = [0usize, 1, 1, 1, 2, 3, 4, 4, 9, 10, 65535];
    for (x, r) in inputs.iter().zip(expected.iter()) {
        assert_eq!(isqrt(*x), *r);
    }
    assert_eq!(isqrt(usize::MAX), (1usize << (usize::BITS / 2)) - 1);
}

#[test]
fn sigmoid_values() {
    assert_eq!(sigmoid(0, 2, 60), 562949953421312);
    assert_eq!(sigmoid(0x1_0000, 2, 60), 27584547717644288);
    assert_eq!(sigmoid(0x8000, 2, 60), SIGMOID_ONE / 2);
    assert!(sigmoid(0x1_0000, 2, 60) < SIGMOID_ONE);
}

#[test]
fn abs_diff_values() {
    assert_eq!(usize_abs_diff(3, 10), 7);
    assert_eq!(usize_abs_diff(10, 3), 7);
    assert_eq!(usize_abs_diff(0, usize::MAX), usize::MAX);
}

#[test]
fn extremes_take_the_last_candidate() {
    let mut v = vec![3u32, 1, 2, 1];
    partition_min(&mut v, 0, 4, &u32::lt);
    assert_eq!(v, vec![1, 1, 2, 3]);
    let mut w = vec![3u32, 1, 3, 2];
    partition_max(&mut w, 0, 4, &u32::lt);
    assert_eq!(w, vec![3, 1, 2, 3]);
}
