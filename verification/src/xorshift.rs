//! A pseudorandom generator of the xorshift family with 256 bits of state.
use vstd::prelude::*;
use vstd::wrapping::u128_specs::{wrapping_add, wrapping_sub, wrapping_shl, wrapping_shr};
use crate::clock::{unix_time, MICROS_PER_SECOND};

verus! {

/// The generator: its two words of state.
pub struct Random {
    pub seed: [u128; 2],
}

/// The number of decimal digits of `x`; zero has one.
pub open spec fn digits_of(x: nat) -> nat
    decreases x,
{
    if x < 10 {
        1
    } else {
        1 + digits_of(x / 10)
    }
}

/// Ten to the power `k`.
pub open spec fn pow10(k: nat) -> nat
    decreases k,
{
    if k == 0 {
        1
    } else {
        10 * pow10((k - 1) as nat)
    }
}

/// A number below ten to the `k` has at most `k` digits.
pub proof fn lemma_digits_bound(x: nat, k: nat)
    requires
        k >= 1,
        x < pow10(k),
    ensures
        digits_of(x) <= k,
    decreases k,
{
    if x >= 10 {
        assert(pow10(1) == 10) by {
            reveal_with_fuel(pow10, 2);
        }
        lemma_digits_bound(x / 10, (k - 1) as nat);
    }
}

/// A `u128` has at most 39 decimal digits.
pub proof fn lemma_digits_of_u128(x: u128)
    ensures
        1 <= digits_of(x as nat) <= 39,
{
    assert(pow10(39) == 1_000_000_000_000_000_000_000_000_000_000_000_000_000nat) by {
        reveal_with_fuel(pow10, 40);
    }
    lemma_digits_bound(x as nat, 39);
}

/// The number of decimal digits of `x`.
pub fn decimal_digits(x: u128) -> (n: u32)
    ensures
        n == digits_of(x as nat),
        1 <= n <= 39,
{
    let mut rest = x;
    let mut n: u32 = 1;
    proof {
        lemma_digits_of_u128(x);
    }
    while rest >= 10
        invariant
            n >= 1,
            digits_of(x as nat) == (n - 1) + digits_of(rest as nat),
            digits_of(x as nat) <= 39,
        decreases rest,
    {
        rest = rest / 10;
        n += 1;
    }
    n
}

/// The seed as `set_seed` first scrambles it.
pub open spec fn scrambled(seed: u128) -> u128 {
    seed ^ wrapping_shl(seed, 11)
}

/// The two words of state that `set_seed` makes of a seed: the scrambled seed
/// shifted right by half the number of its decimal digits, and by that
/// number; each with its lowest bit set.
pub open spec fn state_of(seed: u128) -> (u128, u128) {
    let s = scrambled(seed);
    let length = digits_of(s as nat) as u32;
    (wrapping_shr(s, length / 2) | 1, wrapping_shr(s, length) | 1)
}

/// The seed that a generator starts from when the clock reads `secs` seconds
/// and `micros` microseconds: the microseconds, shifted left by the remainder
/// of the seconds by 11 and cut to 128 bits.
pub open spec fn clock_seed(secs: u128, micros: u128) -> u128 {
    wrapping_shl(micros, (secs % 11) as u32)
}

/// The number that a draw yields from the state `(x, y)`.
pub open spec fn drawn(x: u128, y: u128) -> u128 {
    let a = x ^ wrapping_shl(x, 23);
    let b = a ^ wrapping_shr(a, 17);
    b ^ y
}

impl Random {
    /// A generator seeded from one reading of the system clock: its
    /// microseconds and the seconds that they hold.
    pub fn new() -> (r: Self)
        ensures
            exists|micros: u128|
                (r.seed[0], r.seed[1]) == state_of(
                    #[trigger] clock_seed(micros / MICROS_PER_SECOND, micros),
                ),
    {
        let (secs, micros) = unix_time();
        let r = Self::from_clock(secs, micros);
        assert((r.seed[0], r.seed[1]) == state_of(
            clock_seed(micros / MICROS_PER_SECOND, micros),
        ));
        r
    }

    /// The generator that `new` makes when the clock reads `secs` seconds and
    /// `micros` microseconds: its state is made of the seed `clock_seed`.
    pub fn from_clock(secs: u128, micros: u128) -> (r: Self)
        ensures
            (r.seed[0], r.seed[1]) == state_of(clock_seed(secs, micros)),
    {
        let base = micros.wrapping_shl((secs % 11) as u32);
        let mut s = Random { seed: [0, 0] };
        s.set_seed(base);
        s
    }

    /// Replaces the state by the one made of `seed`.
    pub fn set_seed(&mut self, seed: u128)
        ensures
            (final(self).seed[0], final(self).seed[1]) == state_of(seed),
    {
        let seed = seed ^ seed.wrapping_shl(11);
        let length = decimal_digits(seed);
        self.seed = [seed.wrapping_shr(length / 2) | 1, seed.wrapping_shr(length) | 1];
    }

    /// One draw: the second word moves to the first place, and the sum of the
    /// number drawn and the second word, cut to 128 bits, takes the second.
    pub fn xorshiftr128plus(&mut self) -> (r: u128)
        ensures
            r == drawn(old(self).seed[0], old(self).seed[1]),
            final(self).seed[0] == old(self).seed[1],
            final(self).seed[1] == wrapping_add(r, old(self).seed[1]),
    {
        let mut x = self.seed[0];
        let y = self.seed[1];
        x ^= x.wrapping_shl(23);
        x ^= x.wrapping_shr(17);
        x ^= y;
        self.seed = [y, x.wrapping_add(y)];
        x
    }

    /// One draw, brought into the range from `min` up to, but not including,
    /// `max` where `min` is below `max`. The two must differ.
    pub fn random(&mut self, min: u128, max: u128) -> (r: u128)
        requires
            min != max,
        ensures
            r == wrapping_add(
                drawn(old(self).seed[0], old(self).seed[1]) % wrapping_sub(max, min),
                min,
            ),
            min < max ==> min <= r < max,
            final(self).seed[0] == old(self).seed[1],
            final(self).seed[1] == wrapping_add(
                drawn(old(self).seed[0], old(self).seed[1]),
                old(self).seed[1],
            ),
    {
        let result = self.xorshiftr128plus();
        (result % max.wrapping_sub(min)).wrapping_add(min)
    }
}

} // verus!
