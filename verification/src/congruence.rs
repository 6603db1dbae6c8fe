//! Congruence of integers modulo a positive modulus, and the handful of
//! facts about it that the rest of the crate builds on.

use vstd::arithmetic::div_mod::{
    lemma_add_mod_noop, lemma_fundamental_div_mod, lemma_mod_multiples_vanish, lemma_mod_twice,
    lemma_mul_mod_noop, lemma_small_mod, lemma_sub_mod_noop,
};
use vstd::prelude::*;

verus! {

/// `u` and `v` leave the same remainder on division by `m`.
pub open spec fn congruent(u: int, v: int, m: int) -> bool {
    u % m == v % m
}

/// Congruence is compatible with addition, subtraction and multiplication.
pub proof fn lemma_congruent_ops(u1: int, v1: int, u2: int, v2: int, m: int)
    requires
        m > 0,
        congruent(u1, v1, m),
        congruent(u2, v2, m),
    ensures
        congruent(u1 + u2, v1 + v2, m),
        congruent(u1 - u2, v1 - v2, m),
        congruent(u1 * u2, v1 * v2, m),
{
    lemma_add_mod_noop(u1, u2, m);
    lemma_add_mod_noop(v1, v2, m);
    lemma_sub_mod_noop(u1, u2, m);
    lemma_sub_mod_noop(v1, v2, m);
    lemma_mul_mod_noop(u1, u2, m);
    lemma_mul_mod_noop(v1, v2, m);
}

/// A remainder is congruent to the number it was taken from, and lies in `[0, m)`.
pub proof fn lemma_congruent_rem(u: int, m: int)
    requires
        m > 0,
    ensures
        congruent(u % m, u, m),
        0 <= u % m < m,
{
    lemma_mod_twice(u, m);
}

/// Two congruent numbers in `[0, m)` are equal.
pub proof fn lemma_congruent_small(u: int, v: int, m: int)
    requires
        m > 0,
        0 <= u < m,
        0 <= v < m,
        congruent(u, v, m),
    ensures
        u == v,
{
    lemma_small_mod(u as nat, m as nat);
    lemma_small_mod(v as nat, m as nat);
}

/// Adding a multiple of the modulus changes nothing.
pub proof fn lemma_congruent_shift(u: int, k: int, m: int)
    requires
        m > 0,
    ensures
        congruent(u + k * m, u, m),
        congruent(k * m, 0, m),
{
    lemma_mod_multiples_vanish(k, u, m);
    lemma_mod_multiples_vanish(k, 0, m);
    assert(m * k == k * m) by (nonlinear_arith);
}

/// Two numbers are congruent exactly when their difference is a multiple of the modulus.
pub proof fn lemma_congruent_difference(u: int, v: int, m: int)
    requires
        m > 0,
    ensures
        congruent(u, v, m) <==> congruent(u - v, 0, m),
{
    if congruent(u, v, m) {
        lemma_congruent_ops(u, v, v, v, m);
    }
    if congruent(u - v, 0, m) {
        lemma_congruent_ops(u - v, 0, v, v, m);
    }
}

/// A factor that has an inverse modulo `m` can be cancelled.
pub proof fn lemma_congruent_cancel(u: int, v: int, d: int, r: int, m: int)
    requires
        m > 0,
        congruent(d * r, 1, m),
        congruent(u * d, v * d, m),
    ensures
        congruent(u, v, m),
{
    lemma_congruent_ops(u * d, v * d, r, r, m);
    assert((u * d) * r == u * (d * r)) by (nonlinear_arith);
    assert((v * d) * r == v * (d * r)) by (nonlinear_arith);
    lemma_congruent_ops(u, u, d * r, 1, m);
    lemma_congruent_ops(v, v, d * r, 1, m);
}

/// A number differs from its remainder by a multiple of the modulus.
pub proof fn lemma_rem_decomposition(u: int, m: int)
    requires
        m > 0,
    ensures
        u == (u / m) * m + u % m,
{
    lemma_fundamental_div_mod(u, m);
    assert(m * (u / m) == (u / m) * m) by (nonlinear_arith);
}

} // verus!
