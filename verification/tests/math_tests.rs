use algorithms::math::{gcd, is_prime, lcm, next_prime};

#[test]
fn test_gcd() {
    assert_eq!(gcd(10, 5), 5);
    assert_eq!(gcd(14, 21), 7);
    assert_eq!(gcd(3, 5), 1);
}

#[test]
fn test_lcm() {
    assert_eq!(lcm(10, 5), 10);
    assert_eq!(lcm(14, 21), 42);
    assert_eq!(lcm(3, 5), 15);
}

#[test]
fn test_is_prime() {
    assert_eq!(is_prime(0), false);
    assert_eq!(is_prime(1), false);
    assert_eq!(is_prime(2), true);
    assert_eq!(is_prime(3), true);
    assert_eq!(is_prime(4), false);
    assert_eq!(is_prime(5), true);
    assert_eq!(is_prime(7320), false);
    assert_eq!(is_prime(7321), true);
    assert_eq!(is_prime(23937082), false);
    assert_eq!(is_prime(23937083), true);
    assert_eq!(is_prime(45348948862), false);
    assert_eq!(is_prime(45348948863), true);
    assert_eq!(is_prime(100000042590), false);
    assert_eq!(is_prime(100000042591), true);
    assert_eq!(is_prime(546846844672), false);
    assert_eq!(is_prime(546846844673), true);
}

#[test]
fn test_next_prime() {
    assert_eq!(next_prime(0), 2);
    assert_eq!(next_prime(1), 2);
    assert_eq!(next_prime(2), 3);
    assert_eq!(next_prime(3), 5);
    assert_eq!(next_prime(4), 5);
    assert_eq!(next_prime(5), 7);
    assert_eq!(next_prime(7320), 7321);
    assert_eq!(next_prime(7321), 7331);
    assert_eq!(next_prime(23937082), 23937083);
    assert_eq!(next_prime(23937083), 23937107);
    assert_eq!(next_prime(45348948862), 45348948863);
    assert_eq!(next_prime(45348948863), 45348948881);
    assert_eq!(next_prime(100000042590), 100000042591);
    assert_eq!(next_prime(100000042591), 100000042619);
    assert_eq!(next_prime(546846844672), 546846844673);
    assert_eq!(next_prime(546846844673), 546846844681);
}

#[test]
fn gcd_takes_its_sign_from_the_last_remainder() {
    assert_eq!(gcd(0, 0), 0);
    assert_eq!(gcd(7, 0), 7);
    assert_eq!(gcd(0, 7), 7);
    assert_eq!(gcd(-7, 0), -7);
    assert_eq!(gcd(-10, 5), 5);
    assert_eq!(gcd(10, -5), -5);
    assert_eq!(gcd(-14, 21), 7);
    assert_eq!(gcd(-14, -21), -7);
    assert_eq!(gcd(i64::MIN, i64::MIN), i64::MIN);
    assert_eq!(gcd(i64::MIN, 2), 2);
    assert_eq!(gcd(i64::MAX, i64::MIN), -1);
}

#[test]
fn lcm_rounds_toward_zero() {
    assert_eq!(lcm(4, 6), 12);
    assert_eq!(lcm(0, 5), 0);
    assert_eq!(lcm(-4, 6), -12);
    assert_eq!(lcm(4, -6), 12);
    assert_eq!(lcm(1, 1), 1);
}

#[test]
fn is_prime_agrees_with_a_sieve() {
    let n = 2000;
    let mut sieve = vec![true; n];
    sieve[0] = false;
    sieve[1] = false;
    let mut i = 2;
    while i * i < n {
        if sieve[i] {
            let mut j = i * i;
            while j < n {
                sieve[j] = false;
                j += i;
            }
        }
        i += 1;
    }
    for k in 0..n {
        assert_eq!(is_prime(k as u128), sieve[k]);
    }
    assert!(is_prime(25 + 4));
    assert!(!is_prime(25));
    assert!(!is_prime(49));
    assert!(!is_prime(121));
}

#[test]
fn next_prime_skips_what_is_not_prime() {
    assert_eq!(next_prime(13), 17);
    assert_eq!(next_prime(89), 97);
    let mut p = 0;
    let mut count = 0;
    while p < 100 {
        p = next_prime(p);
        count += 1;
    }
    assert_eq!(count, 26);
    assert_eq!(p, 101);
}
