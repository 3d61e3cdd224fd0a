//! A validated NURBS curve.
use crate::basis::non_decreasing;
use crate::error::NurbsError;
use crate::nurbs::checks::{
    has_knot_count,
    in_range,
    is_in_range,
    is_non_decreasing,
    is_non_negative,
    knot_count_fits,
    non_negative,
};
use crate::point::{curve_point, nurbs_curve_point};
use crate::rational::{grid_values, values, Rational};
use crate::rational_basis::{columns, rectangular};
use vstd::prelude::*;

verus! {

/// What a curve is made of, as numbers.
pub struct CurveModel {
    pub degree: nat,
    pub knots: Seq<real>,
    pub weights: Seq<real>,
    pub control_points: Seq<Seq<real>>,
}

impl CurveModel {
    /// The first reason, in the order of the checks, for which these parts make no curve;
    /// `None` where they make one.
    pub open spec fn defect(self) -> Option<NurbsError> {
        if self.degree == 0 {
            Some(NurbsError::InvalidDegree)
        } else if self.weights.len() != self.control_points.len() {
            Some(NurbsError::LengthMismatch)
        } else if !knot_count_fits(self.knots.len(), self.control_points.len(), self.degree) {
            Some(NurbsError::KnotCountMismatch)
        } else if !non_decreasing(self.knots) {
            Some(NurbsError::KnotsNotSorted)
        } else if !non_negative(self.weights) {
            Some(NurbsError::NegativeWeight)
        } else if !rectangular(self.control_points) {
            Some(NurbsError::DimensionMismatch)
        } else {
            None
        }
    }

    /// The point of the curve at `t`.
    pub open spec fn point(self, t: real) -> Seq<real> {
        curve_point(self.knots, self.weights, self.control_points, self.degree, t)
    }
}

/// Tests whether all control points have the dimension of the first.
fn is_rectangular(control_points: &[Vec<Rational>]) -> (r: bool)
    ensures
        r == rectangular(grid_values(control_points@)),
{
    let ghost grid = grid_values(control_points@);
    let n = control_points.len();
    let mut i: usize = 0;
    while i < n
        invariant
            i <= n,
            n == control_points@.len(),
            grid == grid_values(control_points@),
            forall|j: int| 0 <= j < i ==> (#[trigger] grid[j]).len() == columns(grid),
        decreases n - i,
    {
        if control_points[i].len() != control_points[0].len() {
            assert(grid[i as int].len() != columns(grid));
            return false;
        }
        i += 1;
    }
    true
}

/// A NURBS curve: a degree, knots, weights and control points that fit together.
pub struct NURBSCurve {
    degree: usize,
    knots: Vec<Rational>,
    weights: Vec<Rational>,
    control_points: Vec<Vec<Rational>>,
}

impl View for NURBSCurve {
    type V = CurveModel;

    closed spec fn view(&self) -> CurveModel {
        CurveModel {
            degree: self.degree as nat,
            knots: values(self.knots@),
            weights: values(self.weights@),
            control_points: grid_values(self.control_points@),
        }
    }
}

impl NURBSCurve {
    #[verifier::type_invariant]
    spec fn valid(self) -> bool {
        self@.defect() is None
    }

    /// Builds a curve from its parts, or says by which check they fail. The checks run in
    /// this order: the degree is not zero; the weights are as many as the control points;
    /// the knots are one more than the control points and the degree together; no knot is
    /// above the next; no weight is below zero; the control points all have one dimension.
    pub fn new(
        degree: usize,
        knots: Vec<Rational>,
        weights: Vec<Rational>,
        control_points: Vec<Vec<Rational>>,
    ) -> (r: Result<NURBSCurve, NurbsError>)
        ensures
            match r {
                Ok(curve) => curve@.defect() is None && curve@ == (CurveModel {
                    degree: degree as nat,
                    knots: values(knots@),
                    weights: values(weights@),
                    control_points: grid_values(control_points@),
                }),
                Err(e) => (CurveModel {
                    degree: degree as nat,
                    knots: values(knots@),
                    weights: values(weights@),
                    control_points: grid_values(control_points@),
                }).defect() == Some(e),
            },
    {
        if degree == 0 {
            return Err(NurbsError::InvalidDegree);
        }
        if weights.len() != control_points.len() {
            return Err(NurbsError::LengthMismatch);
        }
        if !has_knot_count(knots.len(), control_points.len(), degree) {
            return Err(NurbsError::KnotCountMismatch);
        }
        if !is_non_decreasing(knots.as_slice()) {
            return Err(NurbsError::KnotsNotSorted);
        }
        if !is_non_negative(weights.as_slice()) {
            return Err(NurbsError::NegativeWeight);
        }
        if !is_rectangular(control_points.as_slice()) {
            return Err(NurbsError::DimensionMismatch);
        }
        Ok(NURBSCurve { degree, knots, weights, control_points })
    }

    /// Evaluates the curve at `t`, which must lie from the first knot to the last.
    pub fn eval(&self, t: &Rational) -> (r: Result<Vec<Rational>, NurbsError>)
        ensures
            self@.defect() is None,
            match r {
                Ok(point) => in_range(self@.knots, t@) && values(point@) == self@.point(t@),
                Err(e) => !in_range(self@.knots, t@) && e == NurbsError::ParameterOutOfRange,
            },
    {
        proof {
            use_type_invariant(self);
        }
        if !is_in_range(self.knots.as_slice(), t) {
            return Err(NurbsError::ParameterOutOfRange);
        }
        Ok(
            nurbs_curve_point(
                t,
                self.control_points.as_slice(),
                self.weights.as_slice(),
                self.knots.as_slice(),
                self.degree,
            ),
        )
    }
}

} // verus!
