use roguelike::rng::Rng;

#[test]
fn new_stores_seed() {
    let r = Rng::new(42);
    assert_eq!(r.state, 42);
}

#[test]
fn next_u64_exact_values() {
    // One linear congruential step: state * 6364136223846793005
    // + 1442695040888963407, modulo 2^64.
    let mut r = Rng::new(42);
    assert_eq!(r.next_u64(), 10481999410520546993);
    assert_eq!(r.next_u64(), 4159066171780167020);
    assert_eq!(r.next_u64(), 7615522811268512075);
    let mut r1 = Rng::new(1);
    assert_eq!(r1.next_u64(), 7806831264735756412);
    let mut r2 = Rng::new(2);
    assert_eq!(r2.next_u64(), 14170967488582549417);
}

#[test]
fn rand_int_exact_values() {
    let mut r = Rng::new(42);
    let drawn: Vec<i32> = (0..5).map(|_| r.rand_int(0, 100)).collect();
    assert_eq!(drawn, vec![93, 20, 75, 74, 65]);
}

#[test]
fn rand_int_stays_in_range() {
    for seed in 0..50u64 {
        let mut r = Rng::new(seed);
        for _ in 0..20 {
            let v = r.rand_int(-7, 13);
            assert!(-7 <= v && v < 13);
        }
    }
}

#[test]
fn same_seed_same_sequence() {
    let mut a = Rng::new(12345);
    let mut b = Rng::new(12345);
    for _ in 0..50 {
        assert_eq!(a.rand_int(0, 1000), b.rand_int(0, 1000));
    }
}

#[test]
fn different_seeds_diverge() {
    let mut a = Rng::new(1);
    let mut b = Rng::new(2);
    assert_ne!(a.next_u64(), b.next_u64());
}
