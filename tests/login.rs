use reactive_core::login::{get_rand, get_rand_wseed, is_logged_in, LoginGate};

#[test]
fn draws_are_below_one_hundred_and_repeatable() {
    for seed in [0u64, 1, 42, u64::MAX] {
        let n = get_rand_wseed(seed);
        assert!(n < 100);
        assert_eq!(n, get_rand_wseed(seed));
    }
    assert_eq!(get_rand(), get_rand());
}

#[test]
fn gate_follows_the_number() {
    let mut gate = LoginGate::new(7);
    assert_eq!(gate.number(), get_rand_wseed(7));
    assert_eq!(gate.logged_in(), gate.number() < 50);
    gate.reroll();
    assert_eq!(gate.seed(), 8);
    assert_eq!(gate.number(), get_rand_wseed(8));
    let mut top = LoginGate::new(u64::MAX);
    top.reroll();
    assert_eq!(top.seed(), 0);
}

#[test]
fn fifty_is_the_threshold() {
    assert!(is_logged_in(0));
    assert!(is_logged_in(49));
    assert!(!is_logged_in(50));
    assert!(!is_logged_in(99));
}
