//! The checks that curves and surfaces share.
use crate::basis::non_decreasing;
use crate::rational::{values, Rational};
use vstd::prelude::*;

verus! {

/// Whether no weight is below zero.
pub open spec fn non_negative(weights: Seq<real>) -> bool {
    forall|i: int| 0 <= i < weights.len() ==> #[trigger] weights[i] >= 0real
}

/// Whether `t` lies from the first knot to the last.
pub open spec fn in_range(knots: Seq<real>, t: real) -> bool {
    knots.len() > 0 && knots[0] <= t <= knots[knots.len() - 1]
}

/// Whether a vector of `count` knots fits `points` control points at the given degree: it
/// has `points + degree + 1` knots.
pub open spec fn knot_count_fits(count: nat, points: nat, degree: nat) -> bool {
    count == points + degree + 1
}

/// Tests whether a knot vector has the length that the control points and the degree ask
/// for.
pub fn has_knot_count(count: usize, points: usize, degree: usize) -> (r: bool)
    ensures
        r == knot_count_fits(count as nat, points as nat, degree as nat),
{
    count > degree && count - degree - 1 == points
}

/// Tests whether no knot is above the one that follows it.
pub fn is_non_decreasing(knots: &[Rational]) -> (r: bool)
    ensures
        r == non_decreasing(values(knots@)),
{
    let n = knots.len();
    let mut i: usize = 1;
    while i < n
        invariant
            1 <= i,
            n == knots@.len(),
            forall|j: int| 0 <= j < i - 1 ==> #[trigger] values(knots@)[j] <= values(knots@)[j + 1],
        decreases n - i,
    {
        if knots[i].lt(&knots[i - 1]) {
            assert(!(values(knots@)[i - 1] <= values(knots@)[i - 1 + 1]));
            return false;
        }
        i += 1;
    }
    true
}

/// Tests whether no weight is below zero.
pub fn is_non_negative(weights: &[Rational]) -> (r: bool)
    ensures
        r == non_negative(values(weights@)),
{
    let n = weights.len();
    let mut i: usize = 0;
    while i < n
        invariant
            i <= n,
            n == weights@.len(),
            forall|j: int| 0 <= j < i ==> #[trigger] values(weights@)[j] >= 0real,
        decreases n - i,
    {
        if weights[i].is_negative() {
            assert(!(values(weights@)[i as int] >= 0real));
            return false;
        }
        i += 1;
    }
    true
}

/// Tests whether `t` lies from the first knot to the last.
pub fn is_in_range(knots: &[Rational], t: &Rational) -> (r: bool)
    ensures
        r == in_range(values(knots@), t@),
{
    let n = knots.len();
    n > 0 && knots[0].le(t) && t.le(&knots[n - 1])
}

} // verus!
