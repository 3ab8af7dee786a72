use algorithms::blum_blum_shub::{settle, Random};

#[test]
fn test_blum_blum_shub_known_seed() {
    let mut rng = Random::new();
    rng.set_seed(82229);
    // non primes handled
    let p1 = 60003582;
    let p2 = 48882920;
    let iterations = 20;
    let result = rng.blum_blum_shub_variant(p1, p2, iterations);
    assert_eq!(result, 1588456154907759);
}

#[test]
fn test_blum_blum_shub_same_start_seeds() {
    let rng_1 = Random::new();
    let mut rng_2 = Random::new();
    rng_2.set_seed(rng_1.seed);
    let p1 = 11;
    let p2 = 19;
    let iterations = 10;
    let result_1 = rng_1.blum_blum_shub_variant(p1, p2, iterations);
    let result_2 = rng_2.blum_blum_shub_variant(p1, p2, iterations);
    assert_eq!(result_1, result_2);
}

#[test]
fn test_blum_blum_shub_can_change_seeds() {
    let rng_1 = Random::new();
    let mut rng_2 = Random::new();
    rng_2.set_seed(rng_1.seed);
    rng_2.set_seed(rng_1.seed + 1);
    let p1 = 11;
    let p2 = 19;
    let iterations = 10;
    let result_1 = rng_1.blum_blum_shub_variant(p1, p2, iterations);
    let result_2 = rng_2.blum_blum_shub_variant(p1, p2, iterations);
    assert_ne!(result_1, result_2);
}

#[test]
fn blum_blum_shub_test_random() {
    let mut rng = Random::new();
    rng.set_seed(29993827);
    let min = 10;
    let max = 20;
    let result = rng.random(min, max);
    assert!(result >= min && result < max);
    assert_eq!(result, 10);
}

#[test]
fn test_random_same_seed() {
    let mut rng_1 = Random::new();
    let mut rng_2 = Random::new();
    rng_2.set_seed(rng_1.seed);
    let min = 10;
    let max = 20;
    let result_1 = rng_1.random(min, max);
    let result_2 = rng_2.random(min, max);
    assert_eq!(result_1, result_2);
}

#[test]
fn blum_blum_shub_test_random_many_calls() {
    let mut rng = Random::new();
    rng.set_seed(29993827);
    let min = 0;
    let max = 100;
    let mut results: Vec<u128> = Vec::new();
    for _ in 0..1_000 {
        results.push(rng.random(min, max));
    }

    results.iter().for_each(|x| assert!(*x >= min && *x < max));
    results.iter().for_each(|x| println!("{} ", x));
    assert_eq!(results.len(), 1_000);
    assert_ne!(results.iter().sum::<u128>(), results[0] * 1_000);
}

#[test]
fn test_random_different_seed() {
    let mut rng_1 = Random::new();
    let mut rng_2 = Random::new();
    rng_2.set_seed(10001);
    let min = 4;
    let max = 140052;
    let result_1 = rng_1.random(min, max);
    let result_2 = rng_2.random(min, max);
    assert_ne!(result_1, result_2);
}

#[test]
fn test_random_can_change_seed() {
    let mut rng_1 = Random::new();
    let mut rng_2 = Random::new();
    rng_2.set_seed(rng_1.seed);
    rng_2.set_seed(rng_1.seed + 1);
    let min = 10;
    let max = 250;
    let result_1 = rng_1.random(min, max);
    let result_2 = rng_2.random(min, max);
    assert_ne!(result_1, result_2);
}

#[test]
fn new_generator_starts_from_the_fixed_numbers() {
    let rng = Random::new();
    assert_eq!(rng.p_1, 237277);
    assert_eq!(rng.p_2, 53129081);
    assert!(rng.seed > 1_600_000_000);
}

#[test]
fn settle_takes_the_first_suited_number() {
    assert_eq!(settle(11), 11);
    assert_eq!(settle(19), 19);
    assert_eq!(settle(4), 4);
    assert_eq!(settle(5), 5);
    assert_eq!(settle(0), 3);
    assert_eq!(settle(1), 3);
    assert_eq!(settle(2), 3);
    assert_eq!(settle(8), 11);
    assert_eq!(settle(12), 19);
    assert_eq!(settle(13), 19);
    assert_eq!(settle(60003582), 60003607);
    assert_eq!(settle(48882920), 48882923);
}

#[test]
fn variant_squares_modulo_the_product() {
    let mut rng = Random::new();
    rng.set_seed(3);
    // modulus 11 * 19 = 209: 3, 9, 81, 82, 36, ...
    assert_eq!(rng.blum_blum_shub_variant(11, 19, 0), 3);
    assert_eq!(rng.blum_blum_shub_variant(11, 19, 1), 9);
    assert_eq!(rng.blum_blum_shub_variant(11, 19, 2), 81);
    assert_eq!(rng.blum_blum_shub_variant(11, 19, 3), 82);
    assert_eq!(rng.blum_blum_shub_variant(11, 19, 4), 36);
}

#[test]
fn variant_stops_at_the_first_value_seen_before() {
    let mut rng = Random::new();
    rng.set_seed(1);
    assert_eq!(rng.blum_blum_shub_variant(11, 19, 100), 1);
    rng.set_seed(0);
    assert_eq!(rng.blum_blum_shub_variant(11, 19, 100), 0);
    rng.set_seed(2);
    // modulo 3 * 7 = 21: 4, 16, 4
    assert_eq!(rng.blum_blum_shub_variant(3, 7, 2), 16);
    assert_eq!(rng.blum_blum_shub_variant(3, 7, 3), 4);
    assert_eq!(rng.blum_blum_shub_variant(3, 7, 1000), 4);
}

#[test]
fn from_seconds_takes_the_seconds_as_seed() {
    let rng = Random::from_seconds(1_700_000_000);
    assert_eq!(rng.seed, 1_700_000_000);
    assert_eq!(rng.p_1, 237277);
    assert_eq!(rng.p_2, 53129081);
    assert_eq!(Random::from_seconds(0).seed, 0);
}

#[test]
fn random_brings_the_draw_into_the_range() {
    let mut rng = Random::from_seconds(29993827);
    let drawn = rng.blum_blum_shub_variant(rng.p_1, rng.p_2, 100);
    assert_eq!(drawn, 3140487790280);
    // Reduced by 20 alone the draw would be 0, below the range.
    assert_eq!(drawn % 20, 0);
    assert_eq!(rng.random(10, 20), drawn % 10 + 10);
    assert_eq!(drawn % 10 + 10, 10);
    let mut rng = Random::from_seconds(29993827);
    assert_eq!(rng.random(0, 20), drawn % 20);
    let mut rng = Random::from_seconds(29993827);
    assert_eq!(rng.random(7, 1000), drawn % 993 + 7);
}

#[test]
fn random_stays_below_max_where_the_range_is_empty() {
    let mut rng = Random::from_seconds(29993827);
    let drawn = rng.blum_blum_shub_variant(rng.p_1, rng.p_2, 100);
    assert_eq!(rng.random(17, 17), drawn % 17);
    let mut rng = Random::from_seconds(29993827);
    assert_eq!(rng.random(20, 9), drawn % 9);
    let mut rng = Random::from_seconds(29993827);
    assert_eq!(rng.random(u128::MAX, 1), 0);
}

#[test]
fn random_moves_the_two_numbers_on() {
    let mut rng = Random::new();
    rng.set_seed(1000);
    let drawn = rng.blum_blum_shub_variant(rng.p_1, rng.p_2, 100);
    let result = rng.random(5, 50);
    assert_eq!(result, drawn % 45 + 5);
    assert_eq!(rng.seed, 1000);
    // 53129081 + 53129081 % 1000 = 53129162, the prime after it is 53129171
    assert_eq!(rng.p_1, 53129172);
    // 53129172 + 172 = 53129344, the prime after it is 53129347
    assert_eq!(rng.p_2, 53129348);
}
