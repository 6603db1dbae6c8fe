//! Points of the curve `y^2 = x^3 + a*x + b` modulo `p`, and the addition of
//! two of them by the chord-and-tangent rule.

use crate::congruence::{congruent, lemma_congruent_ops, lemma_congruent_rem};
use crate::cubic::cubic;
use crate::group_law::lemma_add_closed;
use crate::modular::{
    coprime, extended_gcd, inverse_mod, is_prime, lemma_inverse_mod, lemma_inverse_mod_rem,
    lemma_prime_coprime, lemma_word_product, mul_mod, reduce,
};
use std::ops::Add;
use vstd::arithmetic::div_mod::lemma_small_mod;
use vstd::prelude::*;
use vstd::std_specs::ops::AddSpecImpl;

verus! {

/// A point as a mathematical value: the point at infinity of a curve, or a
/// pair of coordinates, each with the parameters `(a, b, p)` of its curve.
pub enum PointView {
    Infinity { a: int, b: int, p: int },
    Affine { x: int, y: int, a: int, b: int, p: int },
}

/// `(x, y)` solves `y^2 = x^3 + a*x + b` modulo `p`.
pub open spec fn satisfies_equation(x: int, y: int, a: int, b: int, p: int) -> bool {
    congruent(y * y, cubic(x, a, b), p)
}

/// The slope of the tangent to the curve at `(x, y)`, modulo `p`.
pub open spec fn tangent_slope(x: int, y: int, a: int, p: int) -> int {
    ((3 * x * x + a) * inverse_mod(2 * y, p)) % p
}

/// The slope of the chord from `(x1, y1)` to `(x2, y2)`, modulo `p`.
pub open spec fn chord_slope(x1: int, y1: int, x2: int, y2: int, p: int) -> int {
    ((y2 - y1) * inverse_mod(x2 - x1, p)) % p
}

impl PointView {
    /// The modulus of the point's curve.
    pub open spec fn modulus(self) -> int {
        match self {
            PointView::Infinity { p, .. } => p,
            PointView::Affine { p, .. } => p,
        }
    }

    /// The coefficients `(a, b)` of the point's curve.
    pub open spec fn coefficients(self) -> (int, int) {
        match self {
            PointView::Infinity { a, b, .. } => (a, b),
            PointView::Affine { a, b, .. } => (a, b),
        }
    }

    /// Both points carry the same curve parameters.
    pub open spec fn same_curve(self, other: PointView) -> bool {
        self.modulus() == other.modulus() && self.coefficients() == other.coefficients()
    }

    /// The modulus is positive and the coordinates, if any, lie in `[0, p)`.
    pub open spec fn wf(self) -> bool {
        match self {
            PointView::Infinity { p, .. } => p > 0,
            PointView::Affine { x, y, p, .. } => p > 0 && 0 <= x < p && 0 <= y < p,
        }
    }

    /// The point is well formed and, if affine, solves the equation of its curve.
    pub open spec fn on_curve(self) -> bool {
        self.wf() && match self {
            PointView::Infinity { .. } => true,
            PointView::Affine { x, y, a, b, p } => satisfies_equation(x, y, a, b, p),
        }
    }
}

/// The group law.  The point at infinity is neutral; two affine points with
/// the same abscissa and ordinates that sum to zero give the point at
/// infinity; otherwise the line through the two points (their tangent, where
/// they are equal) meets the curve in a third point, whose reflection is the sum.
/// The curve parameters of the result are those of the left operand, unless it
/// is the point at infinity.
pub open spec fn add_points(lhs: PointView, rhs: PointView) -> PointView {
    match lhs {
        PointView::Infinity { .. } => rhs,
        PointView::Affine { x: x1, y: y1, a, b, p } => match rhs {
            PointView::Infinity { .. } => lhs,
            PointView::Affine { x: x2, y: y2, .. } => {
                if x1 == x2 && (y1 + y2) % p == 0 {
                    PointView::Infinity { a, b, p }
                } else {
                    let l: int = if x1 == x2 && y1 == y2 {
                        tangent_slope(x1, y1, a, p)
                    } else {
                        chord_slope(x1, y1, x2, y2, p)
                    };
                    let x3: int = (l * l - x1 - x2) % p;
                    let y3: int = (l * (x1 - x3) - y1) % p;
                    PointView::Affine { x: x3, y: y3, a, b, p }
                }
            },
        },
    }
}

/// A point of an elliptic curve over the integers modulo `p`: the point at
/// infinity, or an affine point with coordinates in `[0, p)`.
#[derive(Clone, Copy, Debug, PartialEq, Eq, Structural)]
pub enum Point {
    Infinity { a: i64, b: i64, p: i64 },
    Affine { x: i64, y: i64, a: i64, b: i64, p: i64 },
}

impl View for Point {
    type V = PointView;

    open spec fn view(&self) -> PointView {
        match *self {
            Point::Infinity { a, b, p } => PointView::Infinity {
                a: a as int,
                b: b as int,
                p: p as int,
            },
            Point::Affine { x, y, a, b, p } => PointView::Affine {
                x: x as int,
                y: y as int,
                a: a as int,
                b: b as int,
                p: p as int,
            },
        }
    }
}

impl Point {
    /// The point whose view is `v`, where the numbers of `v` fit the machine word.
    pub open spec fn of_view(v: PointView) -> Point {
        match v {
            PointView::Infinity { a, b, p } => Point::Infinity {
                a: a as i64,
                b: b as i64,
                p: p as i64,
            },
            PointView::Affine { x, y, a, b, p } => Point::Affine {
                x: x as i64,
                y: y as i64,
                a: a as i64,
                b: b as i64,
                p: p as i64,
            },
        }
    }

    /// The affine point `(x mod p, y mod p)` of the curve with parameters `(a, b, p)`.
    pub fn new(x: i64, y: i64, a: i64, b: i64, p: i64) -> (pt: Point)
        requires
            p > 0,
        ensures
            pt@ == (PointView::Affine {
                x: (x as int) % (p as int),
                y: (y as int) % (p as int),
                a: a as int,
                b: b as int,
                p: p as int,
            }),
            pt@.wf(),
    {
        Point::Affine { x: reduce(x as i128, p), y: reduce(y as i128, p), a, b, p }
    }

    /// The point at infinity of the curve with parameters `(a, b, p)`.
    pub fn infinity(a: i64, b: i64, p: i64) -> (pt: Point)
        ensures
            pt@ == (PointView::Infinity { a: a as int, b: b as int, p: p as int }),
    {
        Point::Infinity { a, b, p }
    }

    /// The inverse of `a` modulo `p` by the extended Euclidean algorithm: for
    /// `a` coprime to `p`, the one number `r` in `[0, p)` with `a * r == 1`
    /// modulo `p`.
    pub fn mod_inverse(a: i64, p: i64) -> (r: i64)
        requires
            p > 0,
        ensures
            r == inverse_mod(a as int, p as int),
            0 <= r < p,
            coprime(a as int, p as int) ==> congruent(a * r, 1, p as int),
            is_prime(p as int) && (a as int) % (p as int) != 0 ==> congruent(a * r, 1, p as int),
    {
        let (_, x, _) = extended_gcd(reduce(a as i128, p), p);
        proof {
            if is_prime(p as int) && (a as int) % (p as int) != 0 {
                lemma_prime_coprime(a as int, p as int);
            }
            if coprime(a as int, p as int) {
                lemma_inverse_mod(a as int, p as int);
            }
        }
        reduce(x as i128, p)
    }
}

/// Two points with the same view are the same point.
pub proof fn lemma_view_injective(pt: Point, other: Point)
    ensures
        pt@ == other@ <==> pt == other,
{
}

impl AddSpecImpl for Point {
    open spec fn obeys_add_spec() -> bool {
        true
    }

    open spec fn add_req(self, other: Point) -> bool {
        self@.wf() && other@.wf()
    }

    open spec fn add_spec(self, other: Point) -> Point {
        Point::of_view(add_points(self@, other@))
    }
}

impl Add for Point {
    type Output = Point;

    /// The sum of two points by the group law.  Over a prime field the sum
    /// of two points of one curve is a point of that curve.
    fn add(self, other: Point) -> (sum: Point)
        ensures
            sum@ == add_points(self@, other@),
            sum@.wf(),
            is_prime(self@.modulus()) && self@.on_curve() && other@.on_curve()
                && self@.same_curve(other@) ==> sum@.on_curve(),
    {
        proof {
            if is_prime(self@.modulus()) && self@.on_curve() && other@.on_curve()
                && self@.same_curve(other@) {
                lemma_add_closed(self@, other@);
            }
        }
        match self {
            Point::Infinity { .. } => other,
            Point::Affine { x: x1, y: y1, a, b, p } => match other {
                Point::Infinity { .. } => self,
                Point::Affine { x: x2, y: y2, .. } => {
                    if x1 == x2 && reduce(y1 as i128 + y2 as i128, p) == 0 {
                        return Point::infinity(a, b, p);
                    }
                    let lambda: i64 = if x1 == x2 && y1 == y2 {
                        let square: i64 = mul_mod(x1, x1, p);
                        let numerator: i64 = reduce(3 * (square as i128) + a as i128, p);
                        let inverse: i64 = Point::mod_inverse(reduce(2 * (y1 as i128), p), p);
                        proof {
                            let m: int = p as int;
                            lemma_inverse_mod_rem(2 * y1, m);
                            lemma_congruent_rem(x1 * x1, m);
                            lemma_congruent_ops(3, 3, square as int, x1 * x1, m);
                            lemma_congruent_ops(3 * square, 3 * (x1 * x1), a as int, a as int, m);
                            lemma_congruent_rem(3 * square + a, m);
                            assert(3 * (x1 * x1) == 3 * x1 * x1) by (nonlinear_arith);
                            lemma_congruent_ops(
                                numerator as int,
                                3 * x1 * x1 + a,
                                inverse as int,
                                inverse as int,
                                m,
                            );
                        }
                        mul_mod(numerator, inverse, p)
                    } else {
                        let rise: i64 = reduce(y2 as i128 - y1 as i128, p);
                        let inverse: i64 = Point::mod_inverse(
                            reduce(x2 as i128 - x1 as i128, p),
                            p,
                        );
                        proof {
                            let m: int = p as int;
                            lemma_inverse_mod_rem(x2 - x1, m);
                            lemma_congruent_rem(y2 - y1, m);
                            lemma_congruent_ops(
                                rise as int,
                                y2 - y1,
                                inverse as int,
                                inverse as int,
                                m,
                            );
                        }
                        mul_mod(rise, inverse, p)
                    };
                    proof {
                        lemma_word_product(lambda as int, lambda as int);
                    }
                    let x3: i64 = reduce(
                        lambda as i128 * lambda as i128 - x1 as i128 - x2 as i128,
                        p,
                    );
                    proof {
                        lemma_word_product(lambda as int, x1 - x3);
                    }
                    let y3: i64 = reduce(
                        lambda as i128 * (x1 as i128 - x3 as i128) - y1 as i128,
                        p,
                    );
                    proof {
                        lemma_small_mod(x3 as nat, p as nat);
                        lemma_small_mod(y3 as nat, p as nat);
                    }
                    Point::new(x3, y3, a, b, p)
                },
            },
        }
    }
}

} // verus!
