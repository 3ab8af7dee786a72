//! A pseudorandom generator after Blum, Blum and Shub: repeated squaring
//! modulo a product of two primes.
use vstd::prelude::*;
use vstd::wrapping::u128_specs::wrapping_mul;
use crate::clock::unix_time;
use crate::math::{divides, prime, is_prime, next_prime, is_next_prime};

verus! {

/// The generator: the running seed and the two numbers from which the
/// modulus of the next draw is made.
pub struct Random {
    pub seed: u128,
    pub p_1: u128,
    pub p_2: u128,
}

/// `p` can serve as a factor of the modulus: it leaves 3 when divided by 4,
/// or its half is prime.
pub open spec fn suited(p: int) -> bool {
    p % 4 == 3 || prime(p / 2)
}

/// `k` is a prime that can serve as a factor of the modulus.
pub open spec fn suited_prime(k: int) -> bool {
    prime(k) && suited(k)
}

/// No suited prime lies strictly between `lo` and `hi`.
pub open spec fn none_suited(lo: int, hi: int) -> bool {
    forall|k: int| lo < k < hi ==> !#[trigger] suited_prime(k)
}

/// `p` is the factor that `start` settles on: `start` itself where it is
/// suited, else the first suited prime above it, else 3.
pub open spec fn is_settled(start: u128, p: u128) -> bool {
    if suited(start as int) {
        p == start
    } else {
        &&& suited_prime(p as int)
        &&& p > start ==> none_suited(start as int, p as int)
        &&& p <= start ==> p == 3 && none_suited(start as int, u128::MAX + 1)
    }
}

/// The factor that `start` settles on.
pub open spec fn settle_of(start: u128) -> u128 {
    choose|p: u128| is_settled(start, p)
}

/// One step of the generator: the square of `s`, cut to 128 bits, modulo `n`.
pub open spec fn step(s: u128, n: u128) -> u128 {
    (wrapping_mul(s, s) % n) as u128
}

/// The seed after `k` steps.
pub open spec fn iterate(seed: u128, n: u128, k: nat) -> u128
    decreases k,
{
    if k == 0 {
        seed
    } else {
        step(iterate(seed, n, (k - 1) as nat), n)
    }
}

/// The values after steps 1 to `j` are all different.
pub open spec fn fresh(seed: u128, n: u128, j: int) -> bool {
    forall|a: int, b: int|
        1 <= a < b <= j ==> #[trigger] iterate(seed, n, a as nat) != #[trigger] iterate(
            seed,
            n,
            b as nat,
        )
}

/// The generator stops after `j` steps: at the first step whose value came
/// up before, or after all `iterations` steps.
pub open spec fn stops_at(seed: u128, n: u128, iterations: u128, j: int) -> bool {
    &&& 0 <= j <= iterations
    &&& fresh(seed, n, j - 1)
    &&& j == iterations || !fresh(seed, n, j)
}

/// The number of steps after which the generator stops.
pub open spec fn stop_of(seed: u128, n: u128, iterations: u128) -> int {
    choose|j: int| stops_at(seed, n, iterations, j)
}

/// What `blum_blum_shub_variant` yields for a seed.
pub open spec fn variant_of(seed: u128, p_1: u128, p_2: u128, iterations: u128) -> u128 {
    let n = wrapping_mul(settle_of(p_1), settle_of(p_2));
    iterate(seed, n, stop_of(seed, n, iterations) as nat)
}

/// The prime that follows `num`.
pub open spec fn next_prime_of(num: u128) -> u128 {
    choose|p: u128| is_next_prime(num, p)
}

/// Only one number is the prime that follows `num`.
pub proof fn lemma_next_prime_unique(num: u128, p: u128, q: u128)
    requires
        is_next_prime(num, p),
        is_next_prime(num, q),
    ensures
        p == q,
{
    assert(prime(2));
}

/// Only one number is the factor that `start` settles on.
pub proof fn lemma_settled_unique(start: u128, p: u128, q: u128)
    requires
        is_settled(start, p),
        is_settled(start, q),
    ensures
        p == q,
{
    lemma_three_suited();
}

/// 2 and 3 are prime, and 3 is suited while 2 is not.
proof fn lemma_three_suited()
    ensures
        prime(2),
        prime(3),
        suited_prime(3),
        !suited(2),
{
    assert(!divides(2, 3));
}

/// Only one number of steps is the one after which the generator stops.
pub proof fn lemma_stop_unique(seed: u128, n: u128, iterations: u128, i: int, j: int)
    requires
        stops_at(seed, n, iterations, i),
        stops_at(seed, n, iterations, j),
    ensures
        i == j,
{
}

/// A suited factor is no multiple of 8.
proof fn lemma_suited_not_multiple_of_8(p: int)
    requires
        p >= 0,
        suited(p),
    ensures
        p % 8 != 0,
{
    if p % 8 == 0 && p % 4 != 3 {
        let q = p / 2;
        assert(q >= 2);
        if q == 2 {
            assert(p == 4 || p == 5);
        } else {
            assert(divides(2, q));
        }
    }
}

/// The product of two numbers that are no multiples of 8 is no multiple of
/// `2^128`.
proof fn lemma_product_not_zero(x: u128, y: u128)
    requires
        x % 8 != 0,
        y % 8 != 0,
    ensures
        wrapping_mul(x, y) != 0,
{
    let a: u128 = x % 32;
    let b: u128 = y % 32;
    assert(((a * b) as u128) % 32u128 != 0u128) by (bit_vector)
        requires
            a < 32u128,
            b < 32u128,
            a % 8u128 != 0u128,
            b % 8u128 != 0u128,
    ;
    assert(a * b <= 31 * 31) by (nonlinear_arith)
        requires
            a <= 31,
            b <= 31,
    ;
    vstd::arithmetic::div_mod::lemma_mul_mod_noop(x as int, y as int, 32);
    let z = x as nat * y as nat;
    assert(z % 32 != 0);
    let full = 0x1_0000_0000_0000_0000_0000_0000_0000_0000int;
    if z as int % full == 0 {
        vstd::arithmetic::div_mod::lemma_fundamental_div_mod(z as int, full);
        let k = z as int / full;
        assert(z == 32 * (0x800_0000_0000_0000_0000_0000_0000_0000 * k));
        vstd::arithmetic::div_mod::lemma_mod_multiples_basic(
            0x800_0000_0000_0000_0000_0000_0000_0000 * k,
            32,
        );
        vstd::arithmetic::mul::lemma_mul_is_commutative(
            32,
            0x800_0000_0000_0000_0000_0000_0000_0000 * k,
        );
    }
}

/// Whether `x` occurs in `v`.
fn occurs(v: &Vec<u128>, x: u128) -> (r: bool)
    ensures
        r == v@.contains(x),
{
    let mut i: usize = 0;
    while i < v.len()
        invariant
            i <= v.len(),
            forall|k: int| 0 <= k < i ==> v[k] != x,
        decreases v.len() - i,
    {
        if v[i] == x {
            return true;
        }
        i += 1;
    }
    false
}

/// The factor that `start` settles on: while the number is not suited, the
/// prime that follows it is taken in its place.
pub fn settle(start: u128) -> (p: u128)
    ensures
        is_settled(start, p),
        p == settle_of(start),
{
    let mut p = start;
    let ghost mut wrapped = false;
    proof {
        lemma_three_suited();
    }
    while p % 4 != 3 && !is_prime(p / 2)
        invariant
            (p == start && !wrapped) || !suited(start as int),
            !wrapped ==> p >= start && none_suited(start as int, p as int) && (p > start ==> prime(
                p as int,
            )),
            wrapped ==> (p == 2 || p == 3) && none_suited(start as int, u128::MAX + 1),
            prime(2),
            prime(3),
            suited_prime(3),
            !suited(2),
        decreases (if wrapped { 3 - p } else { u128::MAX + 5 - p }),
    {
        let next = next_prime(p);
        proof {
            assert(!suited_prime(p as int));
            if wrapped {
                assert(next == 3);
            } else if next <= p {
                wrapped = true;
            }
        }
        p = next;
    }
    proof {
        if wrapped && start < 3 {
            assert(suited_prime(3));
        }
        assert(is_settled(start, p));
        lemma_settled_unique(start, p, settle_of(start));
    }
    p
}

impl Random {
    /// A generator seeded with the seconds of the system clock.
    pub fn new() -> (r: Self)
        ensures
            r.p_1 == 237277,
            r.p_2 == 53129081,
    {
        let (secs, _) = unix_time();
        Self::from_seconds(secs)
    }

    /// The generator that `new` makes when the clock reads `secs` seconds: the
    /// seconds are its seed, and its two numbers are the fixed ones.
    pub fn from_seconds(secs: u128) -> (r: Self)
        ensures
            r.seed == secs,
            r.p_1 == 237277,
            r.p_2 == 53129081,
    {
        Random { seed: secs, p_1: 237277, p_2: 53129081 }
    }

    /// Replaces the seed.
    pub fn set_seed(&mut self, seed: u128)
        ensures
            final(self).seed == seed,
            final(self).p_1 == old(self).p_1,
            final(self).p_2 == old(self).p_2,
    {
        self.seed = seed;
    }

    /// Squares the seed up to `iterations` times modulo the product of the
    /// factors that `p_1` and `p_2` settle on, and yields the last value; it
    /// stops early at the first value that came up before.
    pub fn blum_blum_shub_variant(&self, p_1: u128, p_2: u128, iterations: u128) -> (r: u128)
        ensures
            r == variant_of(self.seed, p_1, p_2, iterations),
    {
        let p1 = settle(p_1);
        let p2 = settle(p_2);
        proof {
            lemma_three_suited();
            lemma_suited_not_multiple_of_8(p1 as int);
            lemma_suited_not_multiple_of_8(p2 as int);
            lemma_product_not_zero(p1, p2);
        }
        let n = p1.wrapping_mul(p2);
        let mut numbers: Vec<u128> = Vec::new();
        let mut seed = self.seed;
        let mut k: u128 = 0;
        while k < iterations
            invariant
                k <= iterations,
                n != 0,
                n == wrapping_mul(settle_of(p_1), settle_of(p_2)),
                seed == iterate(self.seed, n, k as nat),
                numbers.len() == k,
                forall|i: int| 0 <= i < k ==> numbers[i] == iterate(self.seed, n, (i + 1) as nat),
                fresh(self.seed, n, k as int),
            decreases iterations - k,
        {
            seed = seed.wrapping_mul(seed) % n;
            assert(seed == iterate(self.seed, n, (k + 1) as nat));
            if occurs(&numbers, seed) {
                proof {
                    let i = numbers@.index_of(seed);
                    assert(iterate(self.seed, n, (i + 1) as nat) == iterate(
                        self.seed,
                        n,
                        (k + 1) as nat,
                    ));
                    assert(!fresh(self.seed, n, k + 1));
                    assert(stops_at(self.seed, n, iterations, k + 1));
                    lemma_stop_unique(
                        self.seed,
                        n,
                        iterations,
                        k + 1,
                        stop_of(self.seed, n, iterations),
                    );
                }
                return seed;
            }
            proof {
                assert forall|a: int, b: int| 1 <= a < b <= k + 1 implies #[trigger] iterate(
                    self.seed,
                    n,
                    a as nat,
                ) != #[trigger] iterate(self.seed, n, b as nat) by {
                    if b == k + 1 {
                        assert(numbers[a - 1] == iterate(self.seed, n, a as nat));
                    }
                }
            }
            numbers.push(seed);
            k += 1;
        }
        proof {
            assert(stops_at(self.seed, n, iterations, k as int));
            let stop = stop_of(self.seed, n, iterations);
            lemma_stop_unique(self.seed, n, iterations, k as int, stop);
        }
        seed
    }

    /// Draws a number below `max`, and moves the two numbers on, each to one
    /// more than the prime that follows the other plus its remainder by the
    /// seed. Where `min` is below `max`, the number drawn is brought into the
    /// range from `min` up to, but not including, `max`. Neither the seed nor
    /// `max` may be zero, and the sums must fit.
    pub fn random(&mut self, min: u128, max: u128) -> (r: u128)
        requires
            old(self).seed != 0,
            max != 0,
            old(self).p_2 + old(self).p_2 % old(self).seed <= u128::MAX,
            moved_on(old(self).p_2, old(self).seed) + moved_on(old(self).p_2, old(self).seed) % (
            old(self).seed as int) <= u128::MAX,
        ensures
            r == ranged(variant_of(old(self).seed, old(self).p_1, old(self).p_2, 100), min, max),
            r < max,
            min < max ==> min <= r,
            final(self).seed == old(self).seed,
            final(self).p_1 == moved_on(old(self).p_2, old(self).seed),
            final(self).p_2 == moved_on(final(self).p_1, old(self).seed),
    {
        let drawn = self.blum_blum_shub_variant(self.p_1, self.p_2, 100);
        let result = if min < max {
            drawn % (max - min) + min
        } else {
            drawn % max
        };
        proof {
            assert(divides(3, u128::MAX as int));
        }
        let first = next_prime(self.p_2 + (self.p_2 % self.seed));
        proof {
            lemma_next_prime_unique(
                (self.p_2 + self.p_2 % self.seed) as u128,
                first,
                next_prime_of((self.p_2 + self.p_2 % self.seed) as u128),
            );
        }
        self.p_1 = first + 1;
        let second = next_prime(self.p_1 + (self.p_1 % self.seed));
        proof {
            lemma_next_prime_unique(
                (self.p_1 + self.p_1 % self.seed) as u128,
                second,
                next_prime_of((self.p_1 + self.p_1 % self.seed) as u128),
            );
        }
        self.p_2 = second + 1;
        result
    }
}

/// The draw `v` as `random` hands it out: below `max`, and where `min` is below
/// `max`, in the range from `min` up to, but not including, `max`. There the
/// draw is reduced by the width of the range and `min` is added: reduced by
/// `max` alone it could fall below `min`. Where the range is empty, the draw is
/// reduced by `max`.
pub open spec fn ranged(v: u128, min: u128, max: u128) -> u128 {
    if min < max {
        (v % ((max - min) as u128) + min) as u128
    } else {
        v % max
    }
}

/// Where `random` moves a number on to, from the other number `p`: one more
/// than the prime that follows `p` plus its remainder by the seed.
pub open spec fn moved_on(p: u128, seed: u128) -> int {
    next_prime_of((p + p % seed) as u128) + 1
}

} // verus!
