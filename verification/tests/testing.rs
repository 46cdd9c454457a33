use bevox::testing::XorShift64;

#[test]
fn the_same_seed_produces_the_same_sequence() {
    let mut a = XorShift64::new(12345);
    let mut b = XorShift64::new(12345);
    for _ in 0..64 {
        assert_eq!(a.next_u64(), b.next_u64());
    }
}

#[test]
fn a_zero_seed_still_generates() {
    let mut rng = XorShift64::new(0);
    assert_ne!(rng.next_u64(), 0);
}

#[test]
fn next_below_stays_in_range() {
    let mut rng = XorShift64::new(7);
    for _ in 0..1000 {
        assert!(rng.next_below(5) < 5);
    }
}
