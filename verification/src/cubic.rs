//! The cubic `x^3 + a*x + b`, a line through a point, and the polynomial
//! identities behind the chord-and-tangent construction.

use vstd::prelude::*;

verus! {

/// The right-hand side of the curve equation at `x`.
pub open spec fn cubic(x: int, a: int, b: int) -> int {
    x * x * x + a * x + b
}

/// The height at `t` of the line of slope `l` through `(x1, y1)`.
pub open spec fn line(l: int, x1: int, y1: int, t: int) -> int {
    l * (t - x1) + y1
}

/// The cubic minus the square of the line: zero exactly where the line meets the curve.
pub open spec fn residual(l: int, x1: int, y1: int, a: int, b: int, t: int) -> int {
    cubic(t, a, b) - line(l, x1, y1, t) * line(l, x1, y1, t)
}

/// A monic cubic polynomial with coefficients `-sigma`, `alpha`, `beta`.
pub open spec fn monic(sigma: int, alpha: int, beta: int, t: int) -> int {
    t * t * t - sigma * (t * t) + alpha * t + beta
}

/// The residual is a monic cubic in `t` whose quadratic coefficient is `-l^2`.
pub proof fn lemma_residual_monic(l: int, x1: int, y1: int, a: int, b: int, t: int)
    ensures
        ({
            let c: int = y1 - l * x1;
            residual(l, x1, y1, a, b, t) == monic(l * l, a - 2 * (l * c), b - c * c, t)
        }),
{
    let c: int = y1 - l * x1;
    let u: int = l * t;
    assert(l * (t - x1) + y1 == u + c) by (nonlinear_arith)
        requires
            c == y1 - l * x1,
            u == l * t,
    ;
    assert((u + c) * (u + c) == u * u + 2 * (u * c) + c * c) by (nonlinear_arith);
    assert(u * u == (l * l) * (t * t)) by (nonlinear_arith)
        requires
            u == l * t,
    ;
    assert(u * c == (l * c) * t) by (nonlinear_arith)
        requires
            u == l * t,
    ;
    assert((a - 2 * (l * c)) * t == a * t - 2 * ((l * c) * t)) by (nonlinear_arith);
}

/// A linear polynomial is determined by two of its values.
proof fn lemma_linear_interpolation(alpha: int, beta: int, x1: int, x2: int, x3: int)
    ensures
        (x2 - x1) * (alpha * x3 + beta) == (alpha * x1 + beta) * (x2 - x3) + (alpha * x2 + beta)
            * (x3 - x1),
{
    assert((x2 - x1) * (alpha * x3 + beta) == (alpha * x1 + beta) * (x2 - x3) + (alpha * x2
        + beta) * (x3 - x1)) by (nonlinear_arith);
}

/// The part `t^3 - (x1 + x2 + x3) * t^2` of a cubic with roots `x1`, `x2`, `x3`
/// behaves under interpolation like a linear polynomial.
proof fn lemma_leading_interpolation(x1: int, x2: int, x3: int)
    ensures
        ({
            let sigma: int = x1 + x2 + x3;
            (x2 - x1) * monic(sigma, 0, 0, x3) == monic(sigma, 0, 0, x1) * (x2 - x3) + monic(
                sigma,
                0,
                0,
                x2,
            ) * (x3 - x1)
        }),
{
    let sigma: int = x1 + x2 + x3;
    let p1: int = x1 * x1;
    let p2: int = x2 * x2;
    let p3: int = x3 * x3;
    assert(monic(sigma, 0, 0, x1) == -(p1 * (x2 + x3))) by (nonlinear_arith)
        requires
            sigma == x1 + x2 + x3,
            p1 == x1 * x1,
            monic(sigma, 0, 0, x1) == x1 * x1 * x1 - sigma * (x1 * x1) + 0 * x1 + 0,
    ;
    assert(monic(sigma, 0, 0, x2) == -(p2 * (x1 + x3))) by (nonlinear_arith)
        requires
            sigma == x1 + x2 + x3,
            p2 == x2 * x2,
            monic(sigma, 0, 0, x2) == x2 * x2 * x2 - sigma * (x2 * x2) + 0 * x2 + 0,
    ;
    assert(monic(sigma, 0, 0, x3) == -(p3 * (x1 + x2))) by (nonlinear_arith)
        requires
            sigma == x1 + x2 + x3,
            p3 == x3 * x3,
            monic(sigma, 0, 0, x3) == x3 * x3 * x3 - sigma * (x3 * x3) + 0 * x3 + 0,
    ;
    assert((x2 - x1) * -(p3 * (x1 + x2)) == -(p3 * (p2 - p1))) by (nonlinear_arith)
        requires
            p1 == x1 * x1,
            p2 == x2 * x2,
    ;
    assert(-(p1 * (x2 + x3)) * (x2 - x3) == -(p1 * (p2 - p3))) by (nonlinear_arith)
        requires
            p2 == x2 * x2,
            p3 == x3 * x3,
    ;
    assert(-(p2 * (x1 + x3)) * (x3 - x1) == -(p2 * (p3 - p1))) by (nonlinear_arith)
        requires
            p1 == x1 * x1,
            p3 == x3 * x3,
    ;
    assert(-(p3 * (p2 - p1)) == -(p1 * (p2 - p3)) + -(p2 * (p3 - p1))) by (nonlinear_arith);
}

/// A cubic with roots summing to `x1 + x2 + x3` differs from the product of its
/// three linear factors by a linear polynomial, so it interpolates like one.
pub proof fn lemma_monic_interpolation(alpha: int, beta: int, x1: int, x2: int, x3: int)
    ensures
        ({
            let sigma: int = x1 + x2 + x3;
            (x2 - x1) * monic(sigma, alpha, beta, x3) == monic(sigma, alpha, beta, x1) * (x2 - x3)
                + monic(sigma, alpha, beta, x2) * (x3 - x1)
        }),
{
    let sigma: int = x1 + x2 + x3;
    let h1: int = monic(sigma, 0, 0, x1);
    let h2: int = monic(sigma, 0, 0, x2);
    let h3: int = monic(sigma, 0, 0, x3);
    let e1: int = alpha * x1 + beta;
    let e2: int = alpha * x2 + beta;
    let e3: int = alpha * x3 + beta;
    lemma_linear_interpolation(alpha, beta, x1, x2, x3);
    lemma_leading_interpolation(x1, x2, x3);
    assert(monic(sigma, alpha, beta, x1) == h1 + e1);
    assert(monic(sigma, alpha, beta, x2) == h2 + e2);
    assert(monic(sigma, alpha, beta, x3) == h3 + e3);
    assert((x2 - x1) * (h3 + e3) == (x2 - x1) * h3 + (x2 - x1) * e3) by (nonlinear_arith);
    assert((h1 + e1) * (x2 - x3) == h1 * (x2 - x3) + e1 * (x2 - x3)) by (nonlinear_arith);
    assert((h2 + e2) * (x3 - x1) == h2 * (x3 - x1) + e2 * (x3 - x1)) by (nonlinear_arith);
}

/// Taking `s * t^2` off a monic cubic moves `s` into its quadratic coefficient.
proof fn lemma_monic_shift(sigma: int, s: int, alpha: int, beta: int, t: int)
    ensures
        monic(sigma - s, alpha, beta, t) - s * (t * t) == monic(sigma, alpha, beta, t),
{
    assert((sigma - s) * (t * t) == sigma * (t * t) - s * (t * t)) by (nonlinear_arith);
}

/// The chord identity.  Along the line of slope `l` through `(x1, y1)`, write
/// `f(t)` for the residual at `t` and `s` for `x1 + x2 + x3 - l^2`.  Then
/// `(x2 - x1) * (f(x3) - s*x3^2)` is a combination of `f(x1) - s*x1^2` and
/// `f(x2) - s*x2^2`.
pub proof fn lemma_chord_identity(l: int, x1: int, y1: int, x2: int, x3: int, a: int, b: int)
    ensures
        ({
            let s: int = x1 + x2 + x3 - l * l;
            let f1: int = residual(l, x1, y1, a, b, x1);
            let f2: int = residual(l, x1, y1, a, b, x2);
            let f3: int = residual(l, x1, y1, a, b, x3);
            (x2 - x1) * (f3 - s * (x3 * x3)) == (f1 - s * (x1 * x1)) * (x2 - x3) + (f2 - s * (x2
                * x2)) * (x3 - x1)
        }),
{
    let sigma: int = x1 + x2 + x3;
    let s: int = sigma - l * l;
    let c: int = y1 - l * x1;
    let alpha: int = a - 2 * (l * c);
    let beta: int = b - c * c;
    lemma_residual_monic(l, x1, y1, a, b, x1);
    lemma_residual_monic(l, x1, y1, a, b, x2);
    lemma_residual_monic(l, x1, y1, a, b, x3);
    lemma_monic_shift(sigma, s, alpha, beta, x1);
    lemma_monic_shift(sigma, s, alpha, beta, x2);
    lemma_monic_shift(sigma, s, alpha, beta, x3);
    lemma_monic_interpolation(alpha, beta, x1, x2, x3);
}

/// The part `t^3 - (2*x1 + x3) * t^2` of a cubic with the double root `x1` and
/// the root `x3`, at `x3`, through its value and its derivative at `x1`.
proof fn lemma_leading_tangent(x1: int, x3: int)
    ensures
        ({
            let sigma: int = 2 * x1 + x3;
            monic(sigma, 0, 0, x3) == monic(sigma, 0, 0, x1) + (3 * (x1 * x1) - 2 * (sigma * x1))
                * (x3 - x1)
        }),
{
    let sigma: int = 2 * x1 + x3;
    let p1: int = x1 * x1;
    let p3: int = x3 * x3;
    let q: int = x1 * x3;
    assert(monic(sigma, 0, 0, x3) == -2 * (x1 * p3)) by (nonlinear_arith)
        requires
            sigma == 2 * x1 + x3,
            p3 == x3 * x3,
            monic(sigma, 0, 0, x3) == x3 * x3 * x3 - sigma * (x3 * x3) + 0 * x3 + 0,
    ;
    assert(monic(sigma, 0, 0, x1) == -(x1 * p1) - x3 * p1) by (nonlinear_arith)
        requires
            sigma == 2 * x1 + x3,
            p1 == x1 * x1,
            monic(sigma, 0, 0, x1) == x1 * x1 * x1 - sigma * (x1 * x1) + 0 * x1 + 0,
    ;
    assert(3 * p1 - 2 * (sigma * x1) == -p1 - 2 * q) by (nonlinear_arith)
        requires
            sigma == 2 * x1 + x3,
            p1 == x1 * x1,
            q == x1 * x3,
    ;
    assert((-p1 - 2 * q) * (x3 - x1) == x3 * p1 + x1 * p1 - 2 * (x1 * p3)) by (nonlinear_arith)
        requires
            p1 == x1 * x1,
            p3 == x3 * x3,
            q == x1 * x3,
    ;
}

/// The tangent identity.  Along the line of slope `l` through `(x1, y1)`, write
/// `f(t)` for the residual at `t`, `fp` for its derivative at `x1` and `s` for
/// `2*x1 + x3 - l^2`.  Then `f(x3) - s*x3^2` is `f(x1) - s*x1^2` plus
/// `(fp - 2*s*x1) * (x3 - x1)`.
pub proof fn lemma_tangent_identity(l: int, x1: int, y1: int, x3: int, a: int, b: int)
    ensures
        ({
            let s: int = 2 * x1 + x3 - l * l;
            let f1: int = residual(l, x1, y1, a, b, x1);
            let fp: int = 3 * (x1 * x1) + a - 2 * (y1 * l);
            let f3: int = residual(l, x1, y1, a, b, x3);
            f3 - s * (x3 * x3) == (f1 - s * (x1 * x1)) + (fp - 2 * (s * x1)) * (x3 - x1)
        }),
{
    let sigma: int = 2 * x1 + x3;
    let s: int = sigma - l * l;
    let c: int = y1 - l * x1;
    let alpha: int = a - 2 * (l * c);
    let beta: int = b - c * c;
    let fp: int = 3 * (x1 * x1) + a - 2 * (y1 * l);
    let dh: int = 3 * (x1 * x1) - 2 * (sigma * x1);
    lemma_residual_monic(l, x1, y1, a, b, x1);
    lemma_residual_monic(l, x1, y1, a, b, x3);
    lemma_monic_shift(sigma, s, alpha, beta, x1);
    lemma_monic_shift(sigma, s, alpha, beta, x3);
    lemma_leading_tangent(x1, x3);
    assert(monic(sigma, alpha, beta, x3) == monic(sigma, 0, 0, x3) + alpha * x3 + beta);
    assert(monic(sigma, alpha, beta, x1) == monic(sigma, 0, 0, x1) + alpha * x1 + beta);
    assert(alpha * x3 == alpha * x1 + alpha * (x3 - x1)) by (nonlinear_arith);
    assert(fp - 2 * (s * x1) == dh + alpha) by (nonlinear_arith)
        requires
            s == sigma - l * l,
            c == y1 - l * x1,
            alpha == a - 2 * (l * c),
            fp == 3 * (x1 * x1) + a - 2 * (y1 * l),
            dh == 3 * (x1 * x1) - 2 * (sigma * x1),
    ;
    assert((dh + alpha) * (x3 - x1) == dh * (x3 - x1) + alpha * (x3 - x1)) by (nonlinear_arith);
}

} // verus!
