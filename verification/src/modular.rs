//! Arithmetic modulo a positive integer: reduction into `[0, m)`, the extended
//! Euclidean algorithm, and the modular inverse built on it.

use crate::congruence::{
    congruent, lemma_congruent_cancel, lemma_congruent_ops, lemma_congruent_rem,
    lemma_congruent_shift, lemma_congruent_small, lemma_rem_decomposition,
};
use vstd::arithmetic::div_mod::{
    lemma_add_mod_noop, lemma_fundamental_div_mod, lemma_mod_bound, lemma_mod_multiples_basic,
    lemma_mod_self_0, lemma_mod_twice, lemma_mul_mod_noop_left, lemma_small_mod,
};
use vstd::prelude::*;

verus! {

/// `d` is a non-zero divisor of `n`.
pub open spec fn divides(d: int, n: int) -> bool {
    d != 0 && n % d == 0
}

/// `a` and `m` have no common divisor greater than one.
pub open spec fn coprime(a: int, m: int) -> bool {
    forall|d: int| d > 1 && #[trigger] divides(d, a) ==> !divides(d, m)
}

/// `p` is a prime number.
pub open spec fn is_prime(p: int) -> bool {
    p >= 2 && forall|d: int| 1 < d < p ==> !#[trigger] divides(d, p)
}

/// `g` is the greatest common divisor of the non-negative numbers `a` and `b`:
/// it divides both, and every positive common divisor divides it.  The
/// greatest common divisor of zero and zero is zero.
pub open spec fn is_gcd(g: int, a: int, b: int) -> bool {
    if a == 0 && b == 0 {
        g == 0
    } else {
        &&& g > 0
        &&& divides(g, a)
        &&& divides(g, b)
        &&& forall|d: int| d > 0 && #[trigger] divides(d, a) && divides(d, b) ==> divides(d, g)
    }
}

/// The larger of `n` and one: the bound that the Bezout coefficients obey.
pub open spec fn at_least_one(n: int) -> int {
    if n < 1 {
        1
    } else {
        n
    }
}

/// The triple `(g, x, y)` that the extended Euclidean algorithm yields for the
/// non-negative numbers `a` and `b`: `g` is their greatest common divisor and
/// `a * x + b * y == g`.
pub open spec fn bezout(a: int, b: int) -> (int, int, int)
    decreases a,
    via bezout_decreases
{
    if a <= 0 {
        (b, 0, 1)
    } else {
        let r = bezout(b % a, a);
        (r.0, r.2 - (b / a) * r.1, r.1)
    }
}

#[via_fn]
proof fn bezout_decreases(a: int, b: int) {
    if a > 0 {
        lemma_mod_bound(b, a);
    }
}

/// The value in `[0, m)` that the extended Euclidean algorithm yields as the
/// inverse of `a` modulo `m`: the Bezout coefficient of `a`, reduced.  It is an
/// inverse whenever `a` and `m` are coprime.
pub open spec fn inverse_mod(a: int, m: int) -> int {
    bezout(a % m, m).1 % m
}

/// A common divisor of two numbers divides every combination of them.
pub proof fn lemma_divides_combination(d: int, u: int, v: int, s: int, t: int)
    requires
        d > 0,
        divides(d, u),
        divides(d, v),
    ensures
        divides(d, u * s + v * t),
{
    lemma_mul_mod_noop_left(u, s, d);
    lemma_mul_mod_noop_left(v, t, d);
    assert(0 * s == 0 && 0 * t == 0);
    lemma_small_mod(0, d as nat);
    lemma_add_mod_noop(u * s, v * t, d);
}

/// What the extended Euclidean algorithm yields: the Bezout identity, the
/// greatest common divisor, and coefficients no larger than the arguments.
pub proof fn lemma_bezout(a: int, b: int)
    requires
        a >= 0,
        b >= 0,
    ensures
        a * bezout(a, b).1 + b * bezout(a, b).2 == bezout(a, b).0,
        is_gcd(bezout(a, b).0, a, b),
        -at_least_one(b) <= bezout(a, b).1 <= at_least_one(b),
        -at_least_one(a) <= bezout(a, b).2 <= at_least_one(a),
    decreases a,
{
    let (g, x, y) = bezout(a, b);
    if a == 0 {
        assert(a * x + b * y == g) by (nonlinear_arith)
            requires
                a == 0,
                x == 0,
                y == 1,
                g == b,
        ;
        if b > 0 {
            lemma_mod_self_0(b);
            lemma_small_mod(0, b as nat);
        }
    } else {
        let q: int = b / a;
        let r: int = b % a;
        lemma_mod_bound(b, a);
        lemma_fundamental_div_mod(b, a);
        lemma_bezout(r, a);
        let (g1, x1, y1) = bezout(r, a);
        assert(g == g1 && x == y1 - q * x1 && y == x1);
        assert(a * x + b * y == g) by (nonlinear_arith)
            requires
                b == a * q + r,
                r * x1 + a * y1 == g,
                x == y1 - q * x1,
                y == x1,
        ;
        lemma_divides_combination(g, a, r, q, 1);
        assert(a * q + r * 1 == b) by (nonlinear_arith)
            requires
                b == a * q + r,
        ;
        assert forall|d: int| d > 0 && #[trigger] divides(d, a) && divides(d, b) implies divides(
            d,
            g,
        ) by {
            lemma_divides_combination(d, a, b, x, y);
        }
        assert(q >= 0) by (nonlinear_arith)
            requires
                b == a * q + r,
                b >= 0,
                a > 0,
                r < a,
        ;
        if r == 0 {
            assert(bezout(0, a) == (a, 0int, 1int));
            assert(q * x1 == 0) by (nonlinear_arith)
                requires
                    x1 == 0,
            ;
        } else {
            assert(-(q * a) <= q * x1 <= q * a) by (nonlinear_arith)
                requires
                    q >= 0,
                    -a <= x1 <= a,
            ;
            assert(q * a == a * q) by (nonlinear_arith);
        }
    }
}

/// Modulo a prime, everything that is not a multiple of it is coprime to it.
pub proof fn lemma_prime_coprime(a: int, p: int)
    requires
        is_prime(p),
        a % p != 0,
    ensures
        coprime(a, p),
{
    assert forall|d: int| d > 1 && #[trigger] divides(d, a) implies !divides(d, p) by {
        if divides(d, p) {
            if d > p {
                lemma_small_mod(p as nat, d as nat);
            }
            assert(d == p);
        }
    }
}

/// For coprime `a` and `m`, `inverse_mod(a, m)` is an inverse of `a` modulo `m`.
pub proof fn lemma_inverse_mod(a: int, m: int)
    requires
        m > 0,
        coprime(a, m),
    ensures
        0 <= inverse_mod(a, m) < m,
        congruent(a * inverse_mod(a, m), 1, m),
{
    let a0: int = a % m;
    lemma_congruent_rem(a, m);
    lemma_bezout(a0, m);
    let (g, x, y) = bezout(a0, m);
    lemma_congruent_rem(x, m);
    // the divisor g of a % m and of m divides a as well
    lemma_rem_decomposition(a, m);
    lemma_divides_combination(g, m, a0, a / m, 1);
    assert(m * (a / m) + a0 * 1 == a) by (nonlinear_arith)
        requires
            a == (a / m) * m + a0,
    ;
    assert(g == 1);
    lemma_congruent_ops(a, a0, x % m, x, m);
    lemma_congruent_shift(1, -y, m);
    assert(a0 * x == 1 + (-y) * m) by (nonlinear_arith)
        requires
            a0 * x + m * y == 1,
    ;
}

/// The inverse of a number is that of its remainder.
pub proof fn lemma_inverse_mod_rem(a: int, m: int)
    requires
        m > 0,
    ensures
        inverse_mod(a % m, m) == inverse_mod(a, m),
{
    lemma_mod_twice(a, m);
}

/// The inverse modulo `m` is unique among the numbers in `[0, m)`.
pub proof fn lemma_inverse_unique(a: int, r1: int, r2: int, m: int)
    requires
        m > 0,
        0 <= r1 < m,
        0 <= r2 < m,
        congruent(a * r1, 1, m),
        congruent(a * r2, 1, m),
    ensures
        r1 == r2,
{
    assert(r1 * a == a * r1 && r2 * a == a * r2) by (nonlinear_arith);
    lemma_congruent_cancel(r1, r2, a, r1, m);
    lemma_congruent_small(r1, r2, m);
}

/// Euclid's lemma: a prime that divides a product divides one of the factors.
pub proof fn lemma_prime_divides_product(u: int, v: int, p: int)
    requires
        is_prime(p),
        congruent(u * v, 0, p),
    ensures
        u % p == 0 || v % p == 0,
{
    if u % p != 0 {
        lemma_prime_coprime(u, p);
        lemma_inverse_mod(u, p);
        let r: int = inverse_mod(u, p);
        assert(v * u == u * v) by (nonlinear_arith);
        assert(0 * u == 0);
        lemma_congruent_cancel(v, 0, u, r, p);
        lemma_small_mod(0, p as nat);
    }
}

/// The product of two numbers of at most 64 bits has at most 127 bits.
pub proof fn lemma_word_product(u: int, v: int)
    by (nonlinear_arith)
    requires
        -0x8000_0000_0000_0000 <= u <= 0x8000_0000_0000_0000,
        -0x8000_0000_0000_0000 <= v <= 0x8000_0000_0000_0000,
    ensures
        -0x4000_0000_0000_0000_0000_0000_0000_0000 <= u * v
            <= 0x4000_0000_0000_0000_0000_0000_0000_0000,
{
}

/// Reduces `v` into `[0, m)`: the remainder of the Euclidean division of `v` by `m`.
pub fn reduce(v: i128, m: i64) -> (r: i64)
    requires
        m > 0,
    ensures
        r == (v as int) % (m as int),
        0 <= r < m,
{
    let wide: i128 = m as i128;
    let t: i128 = v % wide;
    proof {
        // t is the truncated remainder: it has the sign of v
        lemma_mod_bound(v as int, m as int);
        if v < 0 {
            lemma_mod_bound(-(v as int), m as int);
            lemma_rem_decomposition(-(v as int), m as int);
            let k: int = (-(v as int)) / (m as int);
            assert(v as int == t + (-k) * m) by (nonlinear_arith)
                requires
                    -(v as int) == k * m - t,
            ;
            lemma_congruent_shift(t as int, -k, m as int);
            lemma_congruent_shift(t as int + m as int, -k - 1, m as int);
            assert(t + m + (-k - 1) * m == t + (-k) * m) by (nonlinear_arith);
            if t < 0 {
                lemma_small_mod((t + m) as nat, m as nat);
            } else {
                lemma_small_mod(t as nat, m as nat);
                lemma_congruent_shift(0, 1, m as int);
            }
        } else {
            lemma_small_mod(t as nat, m as nat);
            lemma_congruent_shift(t as int, 1, m as int);
        }
    }
    ((t + wide) % wide) as i64
}

/// The product of `u` and `v`, reduced into `[0, m)`.
pub fn mul_mod(u: i64, v: i64, m: i64) -> (r: i64)
    requires
        m > 0,
    ensures
        r == (u * v) % (m as int),
        0 <= r < m,
{
    proof {
        lemma_word_product(u as int, v as int);
    }
    reduce(u as i128 * v as i128, m)
}

/// The extended Euclidean algorithm on two non-negative numbers: returns
/// `(g, x, y)` where `g` is their greatest common divisor and `a * x + b * y == g`.
pub fn extended_gcd(a: i64, b: i64) -> (res: (i64, i64, i64))
    requires
        a >= 0,
        b >= 0,
    ensures
        (res.0 as int, res.1 as int, res.2 as int) == bezout(a as int, b as int),
        a * res.1 + b * res.2 == res.0,
        is_gcd(res.0 as int, a as int, b as int),
        -at_least_one(b as int) <= res.1 <= at_least_one(b as int),
        -at_least_one(a as int) <= res.2 <= at_least_one(a as int),
    decreases a,
{
    proof {
        lemma_bezout(a as int, b as int);
    }
    if a == 0 {
        (b, 0, 1)
    } else {
        let q: i64 = b / a;
        let r: i64 = b % a;
        proof {
            lemma_mod_bound(b as int, a as int);
            lemma_fundamental_div_mod(b as int, a as int);
            lemma_bezout(r as int, a as int);
            assert(q >= 0 && q * a <= b) by (nonlinear_arith)
                requires
                    b == a * q + r,
                    b >= 0,
                    a > 0,
                    0 <= r < a,
            ;
        }
        let (g, x1, y1) = extended_gcd(r, a);
        proof {
            assert(-(q * a) <= q * x1 <= q * a) by (nonlinear_arith)
                requires
                    q >= 0,
                    -a <= x1 <= a,
            ;
        }
        let x: i64 = y1 - q * x1;
        (g, x, x1)
    }
}

/// A number above one is prime if nothing from two up to its square root divides it.
proof fn lemma_prime_by_small_divisors(p: int, d: int)
    requires
        2 <= d <= p,
        p / d < d,
        forall|k: int| 1 < k < d ==> !#[trigger] divides(k, p),
    ensures
        is_prime(p),
{
    lemma_fundamental_div_mod(p, d);
    lemma_mod_bound(p, d);
    assert(p < d * d) by (nonlinear_arith)
        requires
            p == d * (p / d) + p % d,
            p % d < d,
            p / d < d,
            d >= 2,
    ;
    assert forall|k: int| 1 < k < p implies !#[trigger] divides(k, p) by {
        if divides(k, p) && k >= d {
            let q: int = p / k;
            lemma_fundamental_div_mod(p, k);
            assert(1 < q) by (nonlinear_arith)
                requires
                    p == k * q + 0,
                    0 < k < p,
            ;
            assert(q < d) by (nonlinear_arith)
                requires
                    p == k * q + 0,
                    2 <= d <= k,
                    p < d * d,
            ;
            lemma_mod_multiples_basic(k, q);
            assert(k * q == p) by (nonlinear_arith)
                requires
                    p == k * q + 0,
            ;
            assert(divides(q, p));
        }
    }
}

/// Whether `p` is a prime number, by trial division up to its square root.
pub fn check_prime(p: i64) -> (prime: bool)
    ensures
        prime == is_prime(p as int),
{
    if p < 2 {
        return false;
    }
    let mut d: i64 = 2;
    while d <= p / d
        invariant
            2 <= d <= p,
            forall|k: int| 1 < k < d ==> !#[trigger] divides(k, p as int),
        decreases p - d,
    {
        proof {
            lemma_fundamental_div_mod(p as int, d as int);
            lemma_mod_bound(p as int, d as int);
            assert(d + 1 <= p) by (nonlinear_arith)
                requires
                    p == d * (p / d) + p % d,
                    p % d >= 0,
                    p / d >= d,
                    d >= 2,
            ;
        }
        if p % d == 0 {
            assert(divides(d as int, p as int));
            return false;
        }
        d = d + 1;
    }
    proof {
        lemma_prime_by_small_divisors(p as int, d as int);
    }
    true
}

} // verus!
