use std::collections::BTreeSet;
use turboselect::rand::Rng;

#[test]
fn get_rng() {
    let mut rng = u32::rng(0);
    let (a, b) = (rng.next(), rng.next());
    assert!(a != b);
}

#[test]
fn bounded_u64() {
    let bound = 256;
    let mut rng = u64::rng(0).in_range(0, bound);
    let mut seen = BTreeSet::new();

    while seen.len() < 256 {
        let x = rng.get();
        assert!(x < bound);
        seen.insert(x);
    }
}
