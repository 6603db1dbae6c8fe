//! The enumeration of all affine points of a curve.

use crate::congruence::{lemma_congruent_ops, lemma_congruent_rem};
use crate::cubic::cubic;
use crate::modular::{mul_mod, reduce};
use crate::point::{lemma_view_injective, satisfies_equation, Point, PointView};
use vstd::arithmetic::div_mod::lemma_small_mod;
use vstd::prelude::*;

verus! {

/// `pt` is an affine point of the curve with parameters `(a, b, p)`: its
/// coordinates lie in `[0, p)` and solve the equation.
pub open spec fn is_solution(pt: PointView, a: int, b: int, p: int) -> bool {
    &&& pt is Affine
    &&& pt.on_curve()
    &&& pt.modulus() == p
    &&& pt.coefficients() == (a, b)
}

/// `pt` is an affine point that comes before the place `(x, y)` when the
/// plane is read by increasing abscissa and, within one abscissa, by
/// increasing ordinate.
pub open spec fn comes_before(pt: PointView, x: int, y: int) -> bool {
    pt matches PointView::Affine { x: px, y: py, .. } && (px < x || (px == x && py < y))
}

/// `pt` comes before the affine point `other` in that reading order.
pub open spec fn precedes(pt: PointView, other: PointView) -> bool {
    other matches PointView::Affine { x, y, .. } && comes_before(pt, x, y)
}

/// `points` holds the affine point `(x, y)` of the curve with parameters `(a, b, p)`.
pub open spec fn lists(points: Seq<Point>, x: int, y: int, a: int, b: int, p: int) -> bool {
    exists|i: int|
        0 <= i < points.len() && (#[trigger] points[i])@ == (PointView::Affine { x, y, a, b, p })
}

/// `points` is the enumeration of the curve as far as the place `(x, y)`: it
/// holds, in reading order and once each, exactly the solutions that come
/// before that place.
pub open spec fn enumerates_before(
    points: Seq<Point>,
    a: int,
    b: int,
    p: int,
    x: int,
    y: int,
) -> bool {
    &&& forall|i: int|
        0 <= i < points.len() ==> is_solution((#[trigger] points[i])@, a, b, p) && comes_before(
            points[i]@,
            x,
            y,
        )
    &&& forall|i: int, j: int|
        0 <= i < j < points.len() ==> precedes((#[trigger] points[i])@, (#[trigger] points[j])@)
    &&& forall|u: int, v: int|
        0 <= u < p && 0 <= v < p && (u < x || (u == x && v < y)) && #[trigger] satisfies_equation(
            u,
            v,
            a,
            b,
            p,
        ) ==> lists(points, u, v, a, b, p)
}

/// `points` is the enumeration of the curve with parameters `(a, b, p)`: every
/// entry is a solution, the entries stand in reading order, and every solution
/// is listed.
pub open spec fn is_enumeration(points: Seq<Point>, a: int, b: int, p: int) -> bool {
    &&& forall|i: int| 0 <= i < points.len() ==> is_solution((#[trigger] points[i])@, a, b, p)
    &&& forall|i: int, j: int|
        0 <= i < j < points.len() ==> precedes((#[trigger] points[i])@, (#[trigger] points[j])@)
    &&& forall|x: int, y: int|
        0 <= x < p && 0 <= y < p && #[trigger] satisfies_equation(x, y, a, b, p) ==> lists(
            points,
            x,
            y,
            a,
            b,
            p,
        )
}

/// Two enumerations of one curve agree on their first `n` entries.
proof fn lemma_enumerations_agree(
    first: Seq<Point>,
    second: Seq<Point>,
    a: int,
    b: int,
    p: int,
    n: nat,
)
    requires
        is_enumeration(first, a, b, p),
        is_enumeration(second, a, b, p),
        n <= first.len(),
        n <= second.len(),
    ensures
        forall|k: int| 0 <= k < n ==> first[k] == second[k],
    decreases n,
{
    if n > 0 {
        let i: int = n - 1;
        lemma_enumerations_agree(first, second, a, b, p, i as nat);
        let j: int = lemma_listed(first[i], second, a, b, p);
        let k: int = lemma_listed(second[i], first, a, b, p);
        if j < i {
            assert(first[j] == second[j]);
            assert(precedes(first[j]@, first[i]@));
        }
        if k < i {
            assert(first[k] == second[k]);
            assert(precedes(second[k]@, second[i]@));
        }
        if j > i {
            assert(precedes(second[i]@, second[j]@));
            if k > i {
                assert(precedes(first[i]@, first[k]@));
            }
        }
        assert(first[i] == second[i]);
    }
}

/// A solution of the curve stands in every enumeration of it.
proof fn lemma_listed(pt: Point, points: Seq<Point>, a: int, b: int, p: int) -> (i: int)
    requires
        is_solution(pt@, a, b, p),
        is_enumeration(points, a, b, p),
    ensures
        0 <= i < points.len(),
        points[i] == pt,
{
    let x: int = pt@->x;
    let y: int = pt@->y;
    assert(satisfies_equation(x, y, a, b, p));
    assert(lists(points, x, y, a, b, p));
    let i: int = choose|i: int|
        0 <= i < points.len() && (#[trigger] points[i])@ == (PointView::Affine { x, y, a, b, p });
    lemma_view_injective(points[i], pt);
    i
}

/// A curve has one enumeration only.
pub proof fn lemma_enumeration_unique(
    first: Seq<Point>,
    second: Seq<Point>,
    a: int,
    b: int,
    p: int,
)
    requires
        is_enumeration(first, a, b, p),
        is_enumeration(second, a, b, p),
    ensures
        first == second,
{
    if first.len() <= second.len() {
        lemma_enumerations_agree(first, second, a, b, p, first.len());
        if first.len() < second.len() {
            let n: int = first.len() as int;
            let k: int = lemma_listed(second[n], first, a, b, p);
            assert(first[k] == second[k]);
            assert(precedes(second[k]@, second[n]@));
        }
    } else {
        lemma_enumerations_agree(first, second, a, b, p, second.len());
        let n: int = second.len() as int;
        let k: int = lemma_listed(first[n], second, a, b, p);
        assert(first[k] == second[k]);
        assert(precedes(first[k]@, first[n]@));
    }
    assert(first =~= second);
}

/// All affine points of the curve `y^2 = x^3 + a*x + b` modulo `p`, by
/// increasing `x` and, for one `x`, by increasing `y`.  For `p <= 0` there
/// are none.
pub fn find_points(a: i64, b: i64, p: i64) -> (points: Vec<Point>)
    ensures
        is_enumeration(points@, a as int, b as int, p as int),
        forall|i: int, j: int|
            0 <= i < j < points@.len() ==> #[trigger] points@[i] != #[trigger] points@[j],
        p <= 0 ==> points@.len() == 0,
{
    let mut points: Vec<Point> = Vec::new();
    if p <= 0 {
        return points;
    }
    let mut x: i64 = 0;
    while x < p
        invariant
            0 <= x <= p,
            enumerates_before(points@, a as int, b as int, p as int, x as int, 0),
        decreases p - x,
    {
        let square: i64 = mul_mod(x, x, p);
        let cube: i64 = mul_mod(square, x, p);
        let linear: i64 = mul_mod(a, x, p);
        let rhs: i64 = reduce(cube as i128 + linear as i128 + b as i128, p);
        proof {
            let m: int = p as int;
            lemma_congruent_rem(x * x, m);
            lemma_congruent_ops(square as int, x * x, x as int, x as int, m);
            lemma_congruent_rem(square * x, m);
            lemma_congruent_rem(a * x, m);
            lemma_congruent_ops(cube as int, x * x * x, linear as int, a * x, m);
            lemma_congruent_ops(cube + linear, x * x * x + a * x, b as int, b as int, m);
            assert(rhs == cubic(x as int, a as int, b as int) % m);
        }
        let mut y: i64 = 0;
        while y < p
            invariant
                0 <= x < p,
                0 <= y <= p,
                rhs == cubic(x as int, a as int, b as int) % (p as int),
                enumerates_before(points@, a as int, b as int, p as int, x as int, y as int),
            decreases p - y,
        {
            if mul_mod(y, y, p) == rhs {
                let ghost before = points@;
                let pt = Point::new(x, y, a, b, p);
                points.push(pt);
                proof {
                    lemma_small_mod(x as nat, p as nat);
                    lemma_small_mod(y as nat, p as nat);
                    let last: int = before.len() as int;
                    assert(points@[last] == pt);
                    assert forall|i: int| 0 <= i < before.len() implies points@[i] == before[i] by {}
                    assert forall|u: int, v: int|
                        0 <= u < p && 0 <= v < p && (u < x || (u == x && v < y + 1))
                            && #[trigger] satisfies_equation(
                            u,
                            v,
                            a as int,
                            b as int,
                            p as int,
                        ) implies lists(points@, u, v, a as int, b as int, p as int) by {
                        if u == x && v == y {
                            assert(points@[last]@ == (PointView::Affine {
                                x: u,
                                y: v,
                                a: a as int,
                                b: b as int,
                                p: p as int,
                            }));
                        } else {
                            assert(lists(before, u, v, a as int, b as int, p as int));
                            let i = choose|i: int|
                                0 <= i < before.len() && (#[trigger] before[i])@ == (
                                PointView::Affine {
                                    x: u,
                                    y: v,
                                    a: a as int,
                                    b: b as int,
                                    p: p as int,
                                });
                            assert(points@[i] == before[i]);
                        }
                    }
                }
            }
            y = y + 1;
        }
        x = x + 1;
    }
    points
}

} // verus!
