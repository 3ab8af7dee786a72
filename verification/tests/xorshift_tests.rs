use algorithms::xorshift::{decimal_digits, Random};

#[test]
fn pseudorandom_test_random_many_calls() {
    let mut rng = Random::new();
    let min = 0;
    let max = 100;
    let mut results: Vec<u128> = Vec::new();
    for _ in 0..1_000_000 {
        results.push(rng.random(min, max));
    }

    results.iter().for_each(|x| assert!(*x >= min && *x < max));
    assert_eq!(results.len(), 1_000_000);
    assert_ne!(results.iter().sum::<u128>(), results[0] * 1_000_000);
}

#[test]
fn pseudorandom_test_random() {
    let mut rng = Random::new();
    rng.set_seed(4559398);
    let min = 10;
    let max = 20;
    let result = rng.random(min, max);
    assert!(result >= min && result < max);
    assert_eq!(result, 19);
}

#[test]
fn decimal_digits_counts_digits() {
    assert_eq!(decimal_digits(0), 1);
    assert_eq!(decimal_digits(9), 1);
    assert_eq!(decimal_digits(10), 2);
    assert_eq!(decimal_digits(99), 2);
    assert_eq!(decimal_digits(100), 3);
    assert_eq!(decimal_digits(u128::MAX), 39);
    let mut x: u128 = 1;
    for k in 1..39 {
        assert_eq!(decimal_digits(x), k);
        assert_eq!(decimal_digits(x), x.checked_ilog10().unwrap_or(0) + 1);
        x *= 10;
    }
}

#[test]
fn set_seed_makes_the_state_of_the_seed() {
    let mut rng = Random::new();
    rng.set_seed(0);
    assert_eq!(rng.seed, [1, 1]);
    rng.set_seed(1);
    // 1 ^ (1 << 11) = 2049, four digits
    assert_eq!(rng.seed, [(2049 >> 2) | 1, (2049 >> 4) | 1]);
    rng.set_seed(4559398);
    let s: u128 = 4559398 ^ (4559398 << 11);
    assert_eq!(rng.seed, [(s >> 5) | 1, (s >> 10) | 1]);
}

#[test]
fn draw_shifts_and_adds() {
    let mut rng = Random::new();
    rng.set_seed(1);
    let (x, y) = (rng.seed[0], rng.seed[1]);
    let a = x ^ (x << 23);
    let b = a ^ (a >> 17);
    let drawn = b ^ y;
    assert_eq!(rng.xorshiftr128plus(), drawn);
    assert_eq!(rng.seed, [y, drawn.wrapping_add(y)]);
}

#[test]
fn from_clock_shifts_the_microseconds_by_the_seconds() {
    let mut expected = Random::from_clock(0, 0);
    for (secs, micros) in [
        (0u128, 0u128),
        (1_700_000_000, 1_700_000_000_123_456),
        (11, 11_000_000),
        (21, 21_999_999),
        (10, u128::MAX),
    ] {
        expected.set_seed(micros.wrapping_shl((secs % 11) as u32));
        assert_eq!(Random::from_clock(secs, micros).seed, expected.seed);
    }
    let s: u128 = 4559398u128 << 3;
    let scrambled = s ^ (s << 11);
    assert_eq!(
        Random::from_clock(3, 4559398).seed,
        [(scrambled >> 5) | 1, (scrambled >> 11) | 1]
    );
    let rng = Random::new();
    assert_eq!(rng.seed[0] % 2, 1);
    assert_eq!(rng.seed[1] % 2, 1);
}

#[test]
fn random_wraps_where_the_range_is_turned_round() {
    let mut rng = Random::new();
    rng.set_seed(7);
    let mut copy = Random::new();
    copy.set_seed(7);
    let drawn = copy.xorshiftr128plus();
    let result = rng.random(20, 10);
    assert_eq!(result, (drawn % 10u128.wrapping_sub(20)).wrapping_add(20));
    assert_eq!(rng.seed, copy.seed);
}
