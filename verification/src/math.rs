//! Elementary number theory: greatest common divisor, least common multiple,
//! primality by trial division and the next prime.
use vstd::prelude::*;
use vstd::arithmetic::div_mod::{lemma_fundamental_div_mod, lemma_mod_multiples_basic};
use vstd::arithmetic::mul::{lemma_mul_is_associative, lemma_mul_is_commutative};

verus! {

/// The positive number `d` divides `n`.
pub open spec fn divides(d: int, n: int) -> bool {
    d > 0 && n % d == 0
}

/// `n` is a prime number.
pub open spec fn prime(n: int) -> bool {
    n >= 2 && forall|d: int| 2 <= d < n ==> !#[trigger] divides(d, n)
}

/// No prime lies strictly between `lo` and `hi`.
pub open spec fn no_prime_between(lo: int, hi: int) -> bool {
    forall|k: int| lo < k < hi ==> !#[trigger] prime(k)
}

/// Absolute value.
pub open spec fn abs(x: int) -> int {
    if x < 0 {
        -x
    } else {
        x
    }
}

/// The remainder of the division that rounds toward zero: it has the sign of
/// the dividend.
pub open spec fn trunc_rem(a: int, b: int) -> int {
    if a >= 0 {
        a % b
    } else {
        -((-a) % b)
    }
}

/// The quotient of the division that rounds toward zero.
pub open spec fn trunc_div(a: int, b: int) -> int {
    if a >= 0 {
        a / b
    } else {
        -((-a) / b)
    }
}

/// Euclid's algorithm with remainders that take the sign of the dividend.
pub open spec fn gcd_of(a: int, b: int) -> int
    decreases abs(b),
{
    if b == 0 {
        a
    } else {
        gcd_of(b, trunc_rem(a, b))
    }
}

/// `g` is the greatest common divisor of `a` and `b`: it divides both, and
/// whatever divides both divides `g`. Of two zeros it is zero.
pub open spec fn is_gcd(g: int, a: int, b: int) -> bool {
    &&& g >= 0
    &&& if g == 0 {
        a == 0 && b == 0
    } else {
        &&& divides(g, a)
        &&& divides(g, b)
        &&& forall|d: int| #[trigger] divides(d, a) && divides(d, b) ==> divides(d, g)
    }
}

/// Divisibility is transitive.
pub proof fn lemma_divides_transitive(a: int, d: int, n: int)
    requires
        divides(a, d),
        divides(d, n),
    ensures
        divides(a, n),
{
    lemma_fundamental_div_mod(n, d);
    lemma_fundamental_div_mod(d, a);
    let k = n / d;
    let m = d / a;
    assert(n == d * k);
    assert(d == a * m);
    assert(n == (m * k) * a) by {
        lemma_mul_is_associative(a, m, k);
        lemma_mul_is_commutative(a, m * k);
    }
    lemma_mod_multiples_basic(m * k, a);
}

/// A multiple of `d` plus or minus a multiple of `d` is one.
pub proof fn lemma_divides_combination(d: int, x: int, y: int, k: int)
    requires
        divides(d, x),
        divides(d, y),
    ensures
        divides(d, x + k * y),
        divides(d, -x),
{
    lemma_fundamental_div_mod(x, d);
    lemma_fundamental_div_mod(y, d);
    let p = x / d;
    let q = y / d;
    assert(x + k * y == (p + k * q) * d) by (nonlinear_arith)
        requires
            x == d * p,
            y == d * q,
    ;
    lemma_mod_multiples_basic(p + k * q, d);
    assert(-x == (-p) * d) by (nonlinear_arith)
        requires
            x == d * p,
    ;
    lemma_mod_multiples_basic(-p, d);
}

/// The remainder is smaller than the divisor, and its size is the remainder
/// of the sizes.
pub proof fn lemma_trunc_rem(a: int, b: int)
    requires
        b != 0,
    ensures
        abs(trunc_rem(a, b)) < abs(b),
        abs(trunc_rem(a, b)) == abs(a) % abs(b),
{
    let x = abs(a);
    if b < 0 {
        assert(x % b == x % (-b)) by (nonlinear_arith)
            requires
                b < 0,
                x >= 0,
        ;
    }
    assert(0 <= x % abs(b) < abs(b)) by (nonlinear_arith)
        requires
            abs(b) > 0,
    ;
}

/// The size of the quotient is not above the size of the dividend.
pub proof fn lemma_trunc_div_bound(a: int, b: int)
    requires
        b != 0,
    ensures
        abs(trunc_div(a, b)) <= abs(a),
        a < 0 && b > 0 ==> trunc_div(a, b) <= 0,
        b < -1 ==> 2 * abs(trunc_div(a, b)) <= abs(a),
{
    let x = abs(a);
    assert(-x <= x / b <= x) by (nonlinear_arith)
        requires
            x >= 0,
            b != 0,
    ;
    if b > 0 {
        assert(x / b >= 0) by (nonlinear_arith)
            requires
                x >= 0,
                b > 0,
        ;
    }
    if b < -1 {
        assert(-x <= 2 * (x / b) <= 0) by (nonlinear_arith)
            requires
                x >= 0,
                b < -1,
        ;
    }
}

/// On natural numbers Euclid's algorithm yields the greatest common divisor.
pub proof fn lemma_gcd_of_naturals(a: int, b: int)
    requires
        a >= 0,
        b >= 0,
    ensures
        is_gcd(gcd_of(a, b), a, b),
    decreases b,
{
    if b == 0 {
        if a > 0 {
            lemma_mod_multiples_basic(1, a);
        }
    } else {
        let r = a % b;
        let q = a / b;
        lemma_fundamental_div_mod(a, b);
        assert(b * q == q * b) by (nonlinear_arith);
        lemma_gcd_of_naturals(b, r);
        let g = gcd_of(b, r);
        assert(gcd_of(a, b) == g);
        assert(g > 0);
        lemma_divides_combination(g, r, b, q);
        assert forall|d: int| #[trigger] divides(d, a) && divides(d, b) implies divides(d, g) by {
            lemma_divides_combination(d, a, b, -q);
            assert(a + (-q) * b == r) by (nonlinear_arith)
                requires
                    a == q * b + r,
            ;
        }
    }
}

/// Signs do not matter to the size of what Euclid's algorithm yields.
pub proof fn lemma_gcd_of_signs(a: int, b: int)
    ensures
        abs(gcd_of(a, b)) == gcd_of(abs(a), abs(b)),
    decreases abs(b),
{
    if b != 0 {
        lemma_trunc_rem(a, b);
        lemma_gcd_of_signs(b, trunc_rem(a, b));
    }
}

/// The size of what Euclid's algorithm yields is the greatest common divisor
/// of the sizes of its arguments.
pub proof fn lemma_gcd_of_is_gcd(a: int, b: int)
    ensures
        is_gcd(abs(gcd_of(a, b)), abs(a), abs(b)),
{
    lemma_gcd_of_signs(a, b);
    lemma_gcd_of_naturals(abs(a), abs(b));
}

/// The greatest common divisor of two natural numbers is a sum of multiples
/// of the two: the lemma yields the two factors.
pub proof fn lemma_bezout(a: int, b: int) -> (st: (int, int))
    requires
        a >= 0,
        b >= 0,
    ensures
        st.0 * a + st.1 * b == gcd_of(a, b),
    decreases b,
{
    if b == 0 {
        (1, 0)
    } else {
        let (s1, t1) = lemma_bezout(b, a % b);
        let q = a / b;
        let r = a % b;
        lemma_fundamental_div_mod(a, b);
        assert(t1 * a + (s1 - t1 * q) * b == s1 * b + t1 * r) by (nonlinear_arith)
            requires
                a == b * q + r,
        ;
        (t1, s1 - t1 * q)
    }
}

/// `m` is the least common multiple of the positive numbers `a` and `b`: a
/// positive multiple of both that divides every positive multiple of both.
pub open spec fn is_lcm(m: int, a: int, b: int) -> bool {
    &&& m > 0
    &&& divides(a, m)
    &&& divides(b, m)
    &&& forall|c: int| c > 0 && #[trigger] divides(a, c) && divides(b, c) ==> divides(m, c)
}

/// For positive numbers, the product divided by the greatest common divisor
/// is the least common multiple.
pub proof fn lemma_lcm_of_positives(a: int, b: int)
    requires
        a > 0,
        b > 0,
    ensures
        is_lcm(trunc_div(a * b, gcd_of(a, b)), a, b),
{
    let g = gcd_of(a, b);
    lemma_gcd_of_naturals(a, b);
    assert(g > 0);
    lemma_fundamental_div_mod(a, g);
    lemma_fundamental_div_mod(b, g);
    let a1 = a / g;
    let b1 = b / g;
    assert(a == g * a1 && b == g * b1);
    let m = a1 * b;
    assert(a1 > 0 && b1 > 0) by (nonlinear_arith)
        requires
            a == g * a1,
            b == g * b1,
            a > 0,
            b > 0,
            g > 0,
    ;
    assert(a * b == g * m && m == b1 * a && m > 0 && a * b > 0) by (nonlinear_arith)
        requires
            a == g * a1,
            b == g * b1,
            m == a1 * b,
            a1 > 0,
            b > 0,
            g > 0,
    ;
    vstd::arithmetic::div_mod::lemma_div_multiples_vanish(m, g);
    assert(g * m == m * g) by (nonlinear_arith);
    assert(trunc_div(a * b, g) == m);
    lemma_mod_multiples_basic(b1, a);
    lemma_mod_multiples_basic(a1, b);
    let (s, t) = lemma_bezout(a, b);
    assert forall|c: int| c > 0 && #[trigger] divides(a, c) && divides(b, c) implies divides(
        m,
        c,
    ) by {
        lemma_fundamental_div_mod(c, a);
        lemma_fundamental_div_mod(c, b);
        let x = c / a;
        let y = c / b;
        let k = s * y + t * x;
        let ab = a * b;
        let sa = s * a;
        let tb = t * b;
        assert(sa * c == ab * (s * y)) by (nonlinear_arith)
            requires
                c == b * y,
                ab == a * b,
                sa == s * a,
        ;
        assert(tb * c == ab * (t * x)) by (nonlinear_arith)
            requires
                c == a * x,
                ab == a * b,
                tb == t * b,
        ;
        assert(g * c == sa * c + tb * c) by (nonlinear_arith)
            requires
                sa + tb == g,
        ;
        assert(ab * (s * y) + ab * (t * x) == ab * k) by (nonlinear_arith)
            requires
                k == s * y + t * x,
        ;
        assert(ab * k == g * (k * m)) by (nonlinear_arith)
            requires
                ab == g * m,
        ;
        assert(c == k * m) by (nonlinear_arith)
            requires
                g * c == g * (k * m),
                g > 0,
        ;
        lemma_mod_multiples_basic(k, m);
    }
}

/// The greatest common divisor of `a` and `b` by Euclid's algorithm. Its size
/// is the greatest common divisor of `|a|` and `|b|`; its sign is that of the
/// last non-zero remainder. The two argument pairs on which the remainder of
/// `i64::MIN` by `-1` would be taken are left out.
pub fn gcd(a: i64, b: i64) -> (g: i64)
    requires
        !(a == i64::MIN && b == -1),
        !(a == -1 && b == i64::MIN),
    ensures
        g == gcd_of(a as int, b as int),
        is_gcd(abs(g as int), abs(a as int), abs(b as int)),
    decreases abs(b as int),
{
    proof {
        lemma_gcd_of_is_gcd(a as int, b as int);
    }
    if b == 0 {
        a
    } else {
        let r = a % b;
        proof {
            lemma_trunc_rem(a as int, b as int);
            assert(r == trunc_rem(a as int, b as int));
        }
        gcd(b, r)
    }
}

/// `a * b / gcd(a, b)`, the division rounding toward zero. For positive `a`
/// and `b` this is their least common multiple.
pub fn lcm(a: i64, b: i64) -> (m: i64)
    requires
        !(a == i64::MIN && b == -1),
        !(a == -1 && b == i64::MIN),
        !(a == 0 && b == 0),
        i64::MIN <= a * b <= i64::MAX,
        !(a * b == i64::MIN && gcd_of(a as int, b as int) == -1),
    ensures
        m == trunc_div(a * b, gcd_of(a as int, b as int)),
        a > 0 && b > 0 ==> is_lcm(m as int, a as int, b as int),
{
    proof {
        if a > 0 && b > 0 {
            lemma_lcm_of_positives(a as int, b as int);
        }
    }
    let g = gcd(a, b);
    let p = a * b;
    proof {
        lemma_trunc_div_bound(p as int, g as int);
    }
    p / g
}

/// A number with no divisor from 2 up to, but not including, some `i` whose
/// square exceeds it is prime.
proof fn lemma_prime_by_small_divisors(n: int, i: int)
    requires
        n >= 2,
        2 <= i,
        i * i > n,
        forall|d: int| 2 <= d < i ==> !#[trigger] divides(d, n),
    ensures
        prime(n),
{
    assert forall|d: int| 2 <= d < n implies !#[trigger] divides(d, n) by {
        if divides(d, n) && d >= i {
            let e = n / d;
            lemma_fundamental_div_mod(n, d);
            assert(2 <= e < i) by (nonlinear_arith)
                requires
                    n == d * e,
                    2 <= i <= d < n,
                    i * i > n,
            ;
            assert(n == d * e);
            lemma_mul_is_commutative(d, e);
            lemma_mod_multiples_basic(d, e);
            assert(divides(e, n));
        }
    }
}

/// Whether `num` is prime, by trial division: by 2 and 3, then by the numbers
/// on either side of the multiples of 6 while their square does not exceed
/// `num`.
pub fn is_prime(num: u128) -> (r: bool)
    ensures
        r == prime(num as int),
{
    if num <= 1 {
        return false;
    }
    if num <= 3 {
        return true;
    }
    if num % 2 == 0 || num % 3 == 0 {
        proof {
            assert(divides(2, num as int) || divides(3, num as int));
        }
        return false;
    }
    proof {
        if divides(4, num as int) {
            assert(divides(2, 4));
            lemma_divides_transitive(2, 4, num as int);
        }
    }
    let mut i: u128 = 5;
    while i <= num / i
        invariant
            num >= 5,
            5 <= i,
            i % 6 == 5,
            forall|d: int| 2 <= d < i ==> !#[trigger] divides(d, num as int),
        decreases num - i,
    {
        proof {
            lemma_fundamental_div_mod(num as int, i as int);
            assert(i * i <= num) by (nonlinear_arith)
                requires
                    num == i * (num / i) + num % i,
                    0 <= num % i,
                    i <= num / i,
                    i >= 5,
            ;
            assert(i + 6 < num) by (nonlinear_arith)
                requires
                    i * i <= num,
                    i >= 5,
            ;
        }
        if num % i == 0 || num % (i + 2) == 0 {
            proof {
                assert(divides(i as int, num as int) || divides(i + 2, num as int));
            }
            return false;
        }
        proof {
            assert forall|d: int| 2 <= d < i + 6 implies !#[trigger] divides(d, num as int) by {
                if d >= i && divides(d, num as int) {
                    if d == i + 4 {
                        assert(divides(3, d));
                        lemma_divides_transitive(3, d, num as int);
                        assert(divides(3, num as int));
                    } else {
                        assert(divides(2, d));
                        lemma_divides_transitive(2, d, num as int);
                        assert(divides(2, num as int));
                    }
                }
            }
        }
        i += 6;
    }
    proof {
        lemma_fundamental_div_mod(num as int, i as int);
        assert(i * i > num) by (nonlinear_arith)
            requires
                num == i * (num / i) + num % i,
                num % i < i,
                i > num / i,
                i >= 5,
        ;
        lemma_prime_by_small_divisors(num as int, i as int);
    }
    true
}

/// `p` is the prime that follows `num`: the least prime above `num`, or 2
/// where no `u128` above `num` is prime.
pub open spec fn is_next_prime(num: u128, p: u128) -> bool {
    &&& prime(p as int)
    &&& p > num ==> no_prime_between(num as int, p as int)
    &&& p <= num ==> p == 2 && no_prime_between(num as int, u128::MAX + 1)
}

/// The prime that follows `num`. The search counts up from `num + 1` and
/// starts over at zero after the largest number, so that it always ends.
pub fn next_prime(num: u128) -> (p: u128)
    ensures
        is_next_prime(num, p),
{
    let mut i = num.wrapping_add(1);
    let ghost mut wrapped = num == u128::MAX;
    proof {
        assert(prime(2));
    }
    while !is_prime(i)
        invariant
            !wrapped ==> i > num && no_prime_between(num as int, i as int),
            wrapped ==> i <= 2 && no_prime_between(num as int, u128::MAX + 1),
            prime(2),
        decreases (if wrapped { 2 - i } else { u128::MAX + 3 - i }),
    {
        proof {
            if i == u128::MAX {
                wrapped = true;
            }
        }
        i = i.wrapping_add(1);
    }
    proof {
        if wrapped && num < 2 {
            assert(prime(2));
        }
    }
    i
}

} // verus!
