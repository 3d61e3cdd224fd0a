//! A validated NURBS surface.
use crate::basis::non_decreasing;
use crate::error::NurbsError;
use crate::nurbs::checks::{
    has_knot_count,
    in_range,
    is_in_range,
    is_non_decreasing,
    is_non_negative,
    knot_count_fits,
    non_negative,
};
use crate::point::{depth, nurbs_surface_point, same_shape, surface_point, uniform};
use crate::rational::{grid_values, space_values, values, Rational};
use crate::rational_basis::{columns, rectangular};
use vstd::prelude::*;

verus! {

/// What a surface is made of, as numbers.
pub struct SurfaceModel {
    pub degree_u: nat,
    pub degree_v: nat,
    pub knots_u: Seq<real>,
    pub knots_v: Seq<real>,
    pub weights: Seq<Seq<real>>,
    pub control_points: Seq<Seq<Seq<real>>>,
}

/// Whether no weight of the grid is below zero.
pub open spec fn grid_non_negative(weights: Seq<Seq<real>>) -> bool {
    forall|a: int| 0 <= a < weights.len() ==> non_negative(#[trigger] weights[a])
}

impl SurfaceModel {
    /// The first reason, in the order of the checks, for which these parts make no surface;
    /// `None` where they make one.
    pub open spec fn defect(self) -> Option<NurbsError> {
        if self.degree_u == 0 || self.degree_v == 0 {
            Some(NurbsError::InvalidDegree)
        } else if !knot_count_fits(
            self.knots_u.len(),
            self.control_points.len(),
            self.degree_u,
        ) {
            Some(NurbsError::KnotCountMismatch)
        } else if !knot_count_fits(
            self.knots_v.len(),
            columns(self.control_points) as nat,
            self.degree_v,
        ) {
            Some(NurbsError::KnotCountMismatch)
        } else if !(rectangular(self.control_points) && same_shape(
            self.weights,
            self.control_points,
        )) {
            Some(NurbsError::LengthMismatch)
        } else if !(non_decreasing(self.knots_u) && non_decreasing(self.knots_v)) {
            Some(NurbsError::KnotsNotSorted)
        } else if !grid_non_negative(self.weights) {
            Some(NurbsError::NegativeWeight)
        } else if !uniform(self.control_points) {
            Some(NurbsError::DimensionMismatch)
        } else {
            None
        }
    }

    /// The point of the surface at `(u, v)`.
    pub open spec fn point(self, u: real, v: real) -> Seq<real> {
        surface_point(
            self.knots_u,
            self.knots_v,
            self.weights,
            self.control_points,
            self.degree_u,
            self.degree_v,
            u,
            v,
        )
    }
}

/// Tests whether the control points form a grid, and the weights one of the same shape.
fn has_grid_shape(weights: &[Vec<Rational>], control_points: &[Vec<Vec<Rational>>]) -> (r: bool)
    ensures
        r == (rectangular(space_values(control_points@)) && same_shape(
            grid_values(weights@),
            space_values(control_points@),
        )),
{
    let ghost grid = grid_values(weights@);
    let ghost space = space_values(control_points@);
    let n = control_points.len();
    if weights.len() != n {
        return false;
    }
    let mut a: usize = 0;
    while a < n
        invariant
            a <= n,
            n == control_points@.len(),
            n == weights@.len(),
            grid == grid_values(weights@),
            space == space_values(control_points@),
            forall|c: int| 0 <= c < a ==> (#[trigger] space[c]).len() == columns(space),
            forall|c: int| 0 <= c < a ==> (#[trigger] grid[c]).len() == space[c].len(),
        decreases n - a,
    {
        if control_points[a].len() != control_points[0].len() {
            assert(space[a as int].len() != columns(space));
            return false;
        }
        if weights[a].len() != control_points[a].len() {
            assert(grid[a as int].len() != space[a as int].len());
            return false;
        }
        a += 1;
    }
    true
}

/// Tests whether no weight of the grid is below zero.
fn is_grid_non_negative(weights: &[Vec<Rational>]) -> (r: bool)
    ensures
        r == grid_non_negative(grid_values(weights@)),
{
    let ghost grid = grid_values(weights@);
    let n = weights.len();
    let mut a: usize = 0;
    while a < n
        invariant
            a <= n,
            n == weights@.len(),
            grid == grid_values(weights@),
            forall|c: int| 0 <= c < a ==> non_negative(#[trigger] grid[c]),
        decreases n - a,
    {
        if !is_non_negative(weights[a].as_slice()) {
            assert(!non_negative(grid[a as int]));
            return false;
        }
        a += 1;
    }
    true
}

/// Tests whether all control points of a grid have the dimension of the first.
fn is_uniform(control_points: &[Vec<Vec<Rational>>]) -> (r: bool)
    requires
        rectangular(space_values(control_points@)),
    ensures
        r == uniform(space_values(control_points@)),
{
    let ghost space = space_values(control_points@);
    let n = control_points.len();
    if n == 0 {
        return true;
    }
    let m = control_points[0].len();
    assert(space[0].len() == m);
    if m == 0 {
        assert forall|a: int, b: int|
            0 <= a < space.len() && 0 <= b < space[a].len() implies (#[trigger] space[a][b]).len()
            == depth(space) by {
            assert(space[a].len() == columns(space));
        }
        return true;
    }
    let d = control_points[0][0].len();
    assert(space[0][0].len() == d);
    let mut a: usize = 0;
    while a < n
        invariant
            a <= n,
            0 < m,
            n == control_points@.len(),
            space == space_values(control_points@),
            rectangular(space),
            columns(space) == m,
            depth(space) == d,
            forall|c: int, b: int|
                0 <= c < a && 0 <= b < m ==> (#[trigger] space[c][b]).len() == d,
        decreases n - a,
    {
        assert(space[a as int].len() == m);
        let mut b: usize = 0;
        while b < m
            invariant
                b <= m,
                a < n,
                n == control_points@.len(),
                space == space_values(control_points@),
                control_points@[a as int]@.len() == m,
                columns(space) == m,
                depth(space) == d,
                forall|c: int, e: int|
                    0 <= c < a && 0 <= e < m ==> (#[trigger] space[c][e]).len() == d,
                forall|e: int| 0 <= e < b ==> (#[trigger] space[a as int][e]).len() == d,
            decreases m - b,
        {
            if control_points[a][b].len() != d {
                assert(space[a as int][b as int].len() != depth(space));
                return false;
            }
            b += 1;
        }
        a += 1;
    }
    assert forall|a: int, b: int|
        0 <= a < space.len() && 0 <= b < space[a].len() implies (#[trigger] space[a][b]).len()
        == depth(space) by {
        assert(space[a].len() == columns(space));
    }
    true
}

/// A NURBS surface: two degrees, two knot vectors, and grids of weights and control points
/// that fit together.
pub struct NURBSSurface {
    degree_u: usize,
    degree_v: usize,
    knots_u: Vec<Rational>,
    knots_v: Vec<Rational>,
    weights: Vec<Vec<Rational>>,
    control_points: Vec<Vec<Vec<Rational>>>,
}

impl View for NURBSSurface {
    type V = SurfaceModel;

    closed spec fn view(&self) -> SurfaceModel {
        SurfaceModel {
            degree_u: self.degree_u as nat,
            degree_v: self.degree_v as nat,
            knots_u: values(self.knots_u@),
            knots_v: values(self.knots_v@),
            weights: grid_values(self.weights@),
            control_points: space_values(self.control_points@),
        }
    }
}

impl NURBSSurface {
    #[verifier::type_invariant]
    spec fn valid(self) -> bool {
        self@.defect() is None
    }

    /// Builds a surface from its parts, or says by which check they fail. The checks run in
    /// this order: neither degree is zero; along each axis the knots are one more than the
    /// control points and the degree together; the control points form a grid and the
    /// weights one of the same shape; in neither vector a knot is above the next; no weight
    /// is below zero; the control points all have one dimension.
    pub fn new(
        degree_u: usize,
        degree_v: usize,
        knots_u: Vec<Rational>,
        knots_v: Vec<Rational>,
        weights: Vec<Vec<Rational>>,
        control_points: Vec<Vec<Vec<Rational>>>,
    ) -> (r: Result<NURBSSurface, NurbsError>)
        ensures
            match r {
                Ok(surface) => surface@.defect() is None && surface@ == (SurfaceModel {
                    degree_u: degree_u as nat,
                    degree_v: degree_v as nat,
                    knots_u: values(knots_u@),
                    knots_v: values(knots_v@),
                    weights: grid_values(weights@),
                    control_points: space_values(control_points@),
                }),
                Err(e) => (SurfaceModel {
                    degree_u: degree_u as nat,
                    degree_v: degree_v as nat,
                    knots_u: values(knots_u@),
                    knots_v: values(knots_v@),
                    weights: grid_values(weights@),
                    control_points: space_values(control_points@),
                }).defect() == Some(e),
            },
    {
        if degree_u == 0 || degree_v == 0 {
            return Err(NurbsError::InvalidDegree);
        }
        if !has_knot_count(knots_u.len(), control_points.len(), degree_u) {
            return Err(NurbsError::KnotCountMismatch);
        }
        let across: usize = if control_points.len() == 0 {
            0
        } else {
            control_points[0].len()
        };
        assert(across == columns(space_values(control_points@))) by {
            if control_points@.len() > 0 {
                assert(space_values(control_points@)[0].len() == control_points@[0]@.len());
            }
        }
        if !has_knot_count(knots_v.len(), across, degree_v) {
            return Err(NurbsError::KnotCountMismatch);
        }
        if !has_grid_shape(weights.as_slice(), control_points.as_slice()) {
            return Err(NurbsError::LengthMismatch);
        }
        if !is_non_decreasing(knots_u.as_slice()) || !is_non_decreasing(knots_v.as_slice()) {
            return Err(NurbsError::KnotsNotSorted);
        }
        if !is_grid_non_negative(weights.as_slice()) {
            return Err(NurbsError::NegativeWeight);
        }
        if !is_uniform(control_points.as_slice()) {
            return Err(NurbsError::DimensionMismatch);
        }
        Ok(NURBSSurface { degree_u, degree_v, knots_u, knots_v, weights, control_points })
    }

    /// Evaluates the surface at `(u, v)`, each of which must lie from the first knot of its
    /// axis to the last.
    pub fn eval(&self, u: &Rational, v: &Rational) -> (r: Result<Vec<Rational>, NurbsError>)
        ensures
            self@.defect() is None,
            match r {
                Ok(point) => in_range(self@.knots_u, u@) && in_range(self@.knots_v, v@) && values(
                    point@,
                ) == self@.point(u@, v@),
                Err(e) => !(in_range(self@.knots_u, u@) && in_range(self@.knots_v, v@)) && e
                    == NurbsError::ParameterOutOfRange,
            },
    {
        proof {
            use_type_invariant(self);
        }
        if !is_in_range(self.knots_u.as_slice(), u) {
            return Err(NurbsError::ParameterOutOfRange);
        }
        if !is_in_range(self.knots_v.as_slice(), v) {
            return Err(NurbsError::ParameterOutOfRange);
        }
        Ok(
            nurbs_surface_point(
                self.control_points.as_slice(),
                self.weights.as_slice(),
                self.knots_u.as_slice(),
                self.knots_v.as_slice(),
                self.degree_u,
                self.degree_v,
                u,
                v,
            ),
        )
    }
}

} // verus!
