//! The repeated doubling of a point: `2 * base`, `4 * base`, `8 * base` and so on.

use crate::group_law::lemma_add_closed;
use crate::modular::is_prime;
use crate::point::{add_points, lemma_view_injective, Point, PointView};
use vstd::prelude::*;

verus! {

/// The point reached from `base` by `n` doublings: `2^n` times `base`.
pub open spec fn doubled(base: PointView, n: nat) -> PointView
    decreases n,
{
    if n == 0 {
        base
    } else {
        let half: PointView = doubled(base, (n - 1) as nat);
        add_points(half, half)
    }
}

/// Over a prime field, every doubling of a point of a curve is a point of that curve.
pub proof fn lemma_doubled_on_curve(base: PointView, n: nat)
    requires
        is_prime(base.modulus()),
        base.on_curve(),
    ensures
        doubled(base, n).on_curve(),
        doubled(base, n).same_curve(base),
    decreases n,
{
    if n > 0 {
        let half: PointView = doubled(base, (n - 1) as nat);
        lemma_doubled_on_curve(base, (n - 1) as nat);
        lemma_add_closed(half, half);
    }
}

/// `steps` is the trace of the successive doublings of `base`: the entry at
/// index `k` is `base` doubled `k + 1` times.
pub open spec fn is_doubling_trace(steps: Seq<Point>, base: PointView) -> bool {
    forall|k: int| 0 <= k < steps.len() ==> (#[trigger] steps[k])@ == doubled(base, (k + 1) as nat)
}

/// A point has one trace of doublings of a given length only.
pub proof fn lemma_doubling_trace_unique(first: Seq<Point>, second: Seq<Point>, base: PointView)
    requires
        is_doubling_trace(first, base),
        is_doubling_trace(second, base),
        first.len() == second.len(),
    ensures
        first == second,
{
    assert forall|k: int| 0 <= k < first.len() implies first[k] == second[k] by {
        lemma_view_injective(first[k], second[k]);
    }
    assert(first =~= second);
}

/// The trace of `count` successive doublings of `base`: the points `2 * base`,
/// `4 * base`, `8 * base` and so on.
pub fn doubling_steps(base: Point, count: usize) -> (steps: Vec<Point>)
    requires
        base@.wf(),
    ensures
        steps@.len() == count,
        is_doubling_trace(steps@, base@),
        forall|k: int| 0 <= k < count ==> (#[trigger] steps@[k])@.wf(),
        is_prime(base@.modulus()) && base@.on_curve() ==> forall|k: int|
            0 <= k < count ==> (#[trigger] steps@[k])@.on_curve(),
{
    let mut steps: Vec<Point> = Vec::new();
    let mut point: Point = base;
    let mut done: usize = 0;
    while done < count
        invariant
            done <= count,
            steps@.len() == done,
            point@.wf(),
            point@ == doubled(base@, done as nat),
            is_doubling_trace(steps@, base@),
            forall|k: int| 0 <= k < done ==> (#[trigger] steps@[k])@.wf(),
            is_prime(base@.modulus()) && base@.on_curve() ==> forall|k: int|
                0 <= k < done ==> (#[trigger] steps@[k])@.on_curve(),
        decreases count - done,
    {
        point = point + point;
        proof {
            if is_prime(base@.modulus()) && base@.on_curve() {
                lemma_doubled_on_curve(base@, (done + 1) as nat);
            }
        }
        steps.push(point);
        done = done + 1;
    }
    steps
}

} // verus!
