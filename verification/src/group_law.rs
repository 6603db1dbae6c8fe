//! The laws of the addition of points: the point at infinity is neutral, every
//! point has an inverse, addition commutes, and the sum of two points of a
//! curve over a prime field lies on that curve again.

use crate::congruence::{
    congruent, lemma_congruent_cancel, lemma_congruent_difference, lemma_congruent_ops,
    lemma_congruent_rem, lemma_congruent_shift, lemma_congruent_small,
};
use crate::cubic::{cubic, lemma_chord_identity, lemma_tangent_identity, line, residual};
use crate::modular::{
    inverse_mod, is_prime, lemma_inverse_mod, lemma_prime_coprime, lemma_prime_divides_product,
};
use crate::point::{add_points, chord_slope, satisfies_equation, tangent_slope, PointView};
use vstd::arithmetic::div_mod::lemma_small_mod;
use vstd::prelude::*;

verus! {

/// A non-zero number strictly between `-m` and `m` is no multiple of `m`.
proof fn lemma_small_nonzero(d: int, m: int)
    requires
        -m < d < m,
        d != 0,
    ensures
        d % m != 0,
{
    if d > 0 {
        lemma_small_mod(d as nat, m as nat);
    } else {
        lemma_congruent_shift(d, 1, m);
        lemma_small_mod((d + m) as nat, m as nat);
    }
}

/// The chord slope `l` solves `l * (x2 - x1) == y2 - y1` modulo a prime `p`.
proof fn lemma_chord_slope(x1: int, y1: int, x2: int, y2: int, p: int)
    requires
        is_prime(p),
        0 <= x1 < p,
        0 <= x2 < p,
        x1 != x2,
    ensures
        0 <= chord_slope(x1, y1, x2, y2, p) < p,
        congruent(chord_slope(x1, y1, x2, y2, p) * (x2 - x1), y2 - y1, p),
        congruent((x2 - x1) * inverse_mod(x2 - x1, p), 1, p),
{
    let d: int = x2 - x1;
    let r: int = inverse_mod(d, p);
    let l: int = chord_slope(x1, y1, x2, y2, p);
    lemma_small_nonzero(d, p);
    lemma_prime_coprime(d, p);
    lemma_inverse_mod(d, p);
    lemma_congruent_rem((y2 - y1) * r, p);
    lemma_congruent_ops(l, (y2 - y1) * r, d, d, p);
    assert(((y2 - y1) * r) * d == (y2 - y1) * (d * r)) by (nonlinear_arith);
    lemma_congruent_ops(y2 - y1, y2 - y1, d * r, 1, p);
}

/// The tangent slope `l` solves `l * (2 * y) == 3 * x^2 + a` modulo a prime `p`.
proof fn lemma_tangent_slope(x: int, y: int, a: int, p: int)
    requires
        is_prime(p),
        (2 * y) % p != 0,
    ensures
        0 <= tangent_slope(x, y, a, p) < p,
        congruent(tangent_slope(x, y, a, p) * (2 * y), 3 * x * x + a, p),
{
    let d: int = 2 * y;
    let n: int = 3 * x * x + a;
    let r: int = inverse_mod(d, p);
    let l: int = tangent_slope(x, y, a, p);
    lemma_prime_coprime(d, p);
    lemma_inverse_mod(d, p);
    lemma_congruent_rem(n * r, p);
    lemma_congruent_ops(l, n * r, d, d, p);
    assert((n * r) * d == n * (d * r)) by (nonlinear_arith);
    lemma_congruent_ops(n, n, d * r, 1, p);
}

/// Two points of a curve over a prime field with the same abscissa are equal
/// or reflections of each other.
proof fn lemma_same_abscissa(x: int, y1: int, y2: int, a: int, b: int, p: int)
    requires
        is_prime(p),
        0 <= y1 < p,
        0 <= y2 < p,
        satisfies_equation(x, y1, a, b, p),
        satisfies_equation(x, y2, a, b, p),
    ensures
        y1 == y2 || (y1 + y2) % p == 0,
{
    lemma_congruent_difference(y1 * y1, y2 * y2, p);
    assert((y1 - y2) * (y1 + y2) == y1 * y1 - y2 * y2) by (nonlinear_arith);
    lemma_prime_divides_product(y1 - y2, y1 + y2, p);
    if y1 != y2 {
        lemma_small_nonzero(y1 - y2, p);
    }
}

/// Where the line of slope `l` through `(x1, y1)` meets the curve at the
/// abscissa `x3`, the reflection of the meeting point lies on the curve.
proof fn lemma_reflection_on_curve(l: int, x1: int, y1: int, x3: int, a: int, b: int, p: int)
    requires
        p > 0,
        congruent(residual(l, x1, y1, a, b, x3), 0, p),
    ensures
        satisfies_equation(x3, (l * (x1 - x3) - y1) % p, a, b, p),
{
    let w: int = line(l, x1, y1, x3);
    let y3: int = (l * (x1 - x3) - y1) % p;
    lemma_congruent_difference(cubic(x3, a, b), w * w, p);
    lemma_congruent_rem(l * (x1 - x3) - y1, p);
    assert(l * (x1 - x3) - y1 == -w) by (nonlinear_arith)
        requires
            w == l * (x3 - x1) + y1,
    ;
    lemma_congruent_ops(y3, -w, y3, -w, p);
    assert((-w) * (-w) == w * w) by (nonlinear_arith);
}

/// The residual along a line through `(x1, y1)` vanishes at `x1` if the point
/// lies on the curve.
proof fn lemma_residual_at_base(l: int, x1: int, y1: int, a: int, b: int, p: int)
    requires
        p > 0,
        satisfies_equation(x1, y1, a, b, p),
    ensures
        congruent(residual(l, x1, y1, a, b, x1), 0, p),
{
    assert(l * (x1 - x1) + y1 == y1) by (nonlinear_arith);
    lemma_congruent_difference(cubic(x1, a, b), y1 * y1, p);
}

/// The third point of the chord through two points of the curve with distinct
/// abscissas lies on the curve.
proof fn lemma_chord_closed(x1: int, y1: int, x2: int, y2: int, a: int, b: int, p: int)
    requires
        is_prime(p),
        0 <= x1 < p,
        0 <= x2 < p,
        x1 != x2,
        satisfies_equation(x1, y1, a, b, p),
        satisfies_equation(x2, y2, a, b, p),
    ensures
        ({
            let l: int = chord_slope(x1, y1, x2, y2, p);
            let x3: int = (l * l - x1 - x2) % p;
            satisfies_equation(x3, (l * (x1 - x3) - y1) % p, a, b, p)
        }),
{
    let d: int = x2 - x1;
    let r: int = inverse_mod(d, p);
    let l: int = chord_slope(x1, y1, x2, y2, p);
    let x3: int = (l * l - x1 - x2) % p;
    let s: int = x1 + x2 + x3 - l * l;
    let f1: int = residual(l, x1, y1, a, b, x1);
    let f2: int = residual(l, x1, y1, a, b, x2);
    let f3: int = residual(l, x1, y1, a, b, x3);
    let g1: int = f1 - s * (x1 * x1);
    let g2: int = f2 - s * (x2 * x2);
    let g3: int = f3 - s * (x3 * x3);
    lemma_chord_slope(x1, y1, x2, y2, p);
    // the abscissas sum to l^2
    lemma_congruent_rem(l * l - x1 - x2, p);
    lemma_congruent_difference(x3, l * l - x1 - x2, p);
    assert(congruent(s, 0, p));
    // the line meets the curve at x1 and at x2
    lemma_residual_at_base(l, x1, y1, a, b, p);
    let w2: int = line(l, x1, y1, x2);
    lemma_congruent_ops(l * d, y2 - y1, y1, y1, p);
    lemma_congruent_ops(w2, y2, w2, y2, p);
    lemma_congruent_difference(cubic(x2, a, b), w2 * w2, p);
    assert(congruent(f2, 0, p));
    // hence at x3
    lemma_chord_identity(l, x1, y1, x2, x3, a, b);
    lemma_congruent_ops(s, 0, x1 * x1, x1 * x1, p);
    lemma_congruent_ops(f1, 0, s * (x1 * x1), 0, p);
    lemma_congruent_ops(g1, 0, x2 - x3, x2 - x3, p);
    lemma_congruent_ops(s, 0, x2 * x2, x2 * x2, p);
    lemma_congruent_ops(f2, 0, s * (x2 * x2), 0, p);
    lemma_congruent_ops(g2, 0, x3 - x1, x3 - x1, p);
    lemma_congruent_ops(g1 * (x2 - x3), 0, g2 * (x3 - x1), 0, p);
    assert(d * g3 == g3 * d) by (nonlinear_arith);
    assert(congruent(g3 * d, 0 * d, p));
    lemma_congruent_cancel(g3, 0, d, r, p);
    lemma_congruent_ops(s, 0, x3 * x3, x3 * x3, p);
    lemma_congruent_ops(g3, 0, s * (x3 * x3), 0, p);
    assert(congruent(f3, 0, p));
    lemma_reflection_on_curve(l, x1, y1, x3, a, b, p);
}

/// The second point in which the tangent at a point of the curve meets the
/// curve lies on the curve.
proof fn lemma_tangent_closed(x1: int, y1: int, a: int, b: int, p: int)
    requires
        is_prime(p),
        (2 * y1) % p != 0,
        satisfies_equation(x1, y1, a, b, p),
    ensures
        ({
            let l: int = tangent_slope(x1, y1, a, p);
            let x3: int = (l * l - x1 - x1) % p;
            satisfies_equation(x3, (l * (x1 - x3) - y1) % p, a, b, p)
        }),
{
    let l: int = tangent_slope(x1, y1, a, p);
    let x3: int = (l * l - x1 - x1) % p;
    let s: int = 2 * x1 + x3 - l * l;
    let f1: int = residual(l, x1, y1, a, b, x1);
    let f3: int = residual(l, x1, y1, a, b, x3);
    let fp: int = 3 * (x1 * x1) + a - 2 * (y1 * l);
    let g1: int = f1 - s * (x1 * x1);
    let g3: int = f3 - s * (x3 * x3);
    lemma_tangent_slope(x1, y1, a, p);
    lemma_congruent_rem(l * l - x1 - x1, p);
    lemma_congruent_difference(x3, l * l - x1 - x1, p);
    assert(congruent(s, 0, p));
    lemma_residual_at_base(l, x1, y1, a, b, p);
    // the line is tangent at x1
    lemma_congruent_difference(3 * x1 * x1 + a, l * (2 * y1), p);
    assert(3 * x1 * x1 + a - l * (2 * y1) == fp) by (nonlinear_arith)
        requires
            fp == 3 * (x1 * x1) + a - 2 * (y1 * l),
    ;
    assert(congruent(fp, 0, p));
    // hence it meets the curve at x3
    lemma_tangent_identity(l, x1, y1, x3, a, b);
    lemma_congruent_ops(s, 0, x1 * x1, x1 * x1, p);
    lemma_congruent_ops(f1, 0, s * (x1 * x1), 0, p);
    lemma_congruent_ops(s, 0, x1, x1, p);
    lemma_congruent_ops(2, 2, s * x1, 0, p);
    lemma_congruent_ops(fp, 0, 2 * (s * x1), 0, p);
    lemma_congruent_ops(fp - 2 * (s * x1), 0, x3 - x1, x3 - x1, p);
    lemma_congruent_ops(g1, 0, (fp - 2 * (s * x1)) * (x3 - x1), 0, p);
    assert(congruent(g3, 0, p));
    lemma_congruent_ops(s, 0, x3 * x3, x3 * x3, p);
    lemma_congruent_ops(g3, 0, s * (x3 * x3), 0, p);
    assert(congruent(f3, 0, p));
    lemma_reflection_on_curve(l, x1, y1, x3, a, b, p);
}

/// Identity law: adding the point at infinity of its curve to a point, on
/// either side, gives that point.
pub proof fn lemma_add_identity(pt: PointView, zero: PointView)
    requires
        zero is Infinity,
        zero.same_curve(pt),
    ensures
        add_points(pt, zero) == pt,
        add_points(zero, pt) == pt,
{
}

/// Inverse law: an affine point and its reflection `(x, p - y)`, as the
/// constructor normalises it, add up to the point at infinity.
pub proof fn lemma_add_inverse(x: int, y: int, a: int, b: int, p: int)
    requires
        p > 0,
        0 <= x < p,
        0 <= y < p,
    ensures
        add_points(
            PointView::Affine { x, y, a, b, p },
            PointView::Affine { x: x % p, y: (p - y) % p, a, b, p },
        ) == (PointView::Infinity { a, b, p }),
        add_points(
            PointView::Affine { x: x % p, y: (p - y) % p, a, b, p },
            PointView::Affine { x, y, a, b, p },
        ) == (PointView::Infinity { a, b, p }),
{
    lemma_small_mod(x as nat, p as nat);
    lemma_congruent_rem(p - y, p);
    lemma_congruent_ops(y, y, (p - y) % p, p - y, p);
    lemma_congruent_shift(0, 1, p);
    lemma_small_mod(0, p as nat);
}

/// Closure: over a prime field, the sum of two points of a curve is a point
/// of that curve.
pub proof fn lemma_add_closed(lhs: PointView, rhs: PointView)
    requires
        is_prime(lhs.modulus()),
        lhs.on_curve(),
        rhs.on_curve(),
        lhs.same_curve(rhs),
    ensures
        add_points(lhs, rhs).on_curve(),
        add_points(lhs, rhs).same_curve(lhs),
{
    if let PointView::Affine { x: x1, y: y1, a, b, p } = lhs {
        if let PointView::Affine { x: x2, y: y2, .. } = rhs {
            if !(x1 == x2 && (y1 + y2) % p == 0) {
                let l: int = if x1 == x2 && y1 == y2 {
                    tangent_slope(x1, y1, a, p)
                } else {
                    chord_slope(x1, y1, x2, y2, p)
                };
                let x3: int = (l * l - x1 - x2) % p;
                lemma_congruent_rem(l * l - x1 - x2, p);
                lemma_congruent_rem(l * (x1 - x3) - y1, p);
                if x1 == x2 && y1 == y2 {
                    lemma_tangent_closed(x1, y1, a, b, p);
                } else {
                    if x1 == x2 {
                        lemma_same_abscissa(x1, y1, y2, a, b, p);
                    }
                    lemma_chord_closed(x1, y1, x2, y2, a, b, p);
                }
            }
        }
    }
}

/// Commutativity: over a prime field, the sum of two points of a curve does
/// not depend on their order.
pub proof fn lemma_add_commutative(lhs: PointView, rhs: PointView)
    requires
        is_prime(lhs.modulus()),
        lhs.on_curve(),
        rhs.on_curve(),
        lhs.same_curve(rhs),
    ensures
        add_points(lhs, rhs) == add_points(rhs, lhs),
{
    if let PointView::Affine { x: x1, y: y1, a, b, p } = lhs {
        if let PointView::Affine { x: x2, y: y2, .. } = rhs {
            if !(x1 == x2 && (y1 + y2) % p == 0) && !(x1 == x2 && y1 == y2) {
                if x1 == x2 {
                    lemma_same_abscissa(x1, y1, y2, a, b, p);
                }
                let d: int = x2 - x1;
                let l: int = chord_slope(x1, y1, x2, y2, p);
                let k: int = chord_slope(x2, y2, x1, y1, p);
                lemma_chord_slope(x1, y1, x2, y2, p);
                lemma_chord_slope(x2, y2, x1, y1, p);
                // both slopes solve the same equation
                lemma_congruent_ops(0, 0, k * (x1 - x2), y1 - y2, p);
                assert(0 - k * (x1 - x2) == k * d) by (nonlinear_arith)
                    requires
                        d == x2 - x1,
                ;
                lemma_congruent_cancel(l, k, d, inverse_mod(d, p), p);
                lemma_congruent_small(l, k, p);
                // so the third points have the same abscissa, and the same ordinate
                let x3: int = (l * l - x1 - x2) % p;
                let u: int = l * (x1 - x3) - y1;
                let v: int = l * (x2 - x3) - y2;
                lemma_congruent_difference(y2 - y1, l * d, p);
                assert(u - v == (y2 - y1) - l * d) by (nonlinear_arith)
                    requires
                        u == l * (x1 - x3) - y1,
                        v == l * (x2 - x3) - y2,
                        d == x2 - x1,
                ;
                lemma_congruent_difference(u, v, p);
            }
        }
    }
}

} // verus!
