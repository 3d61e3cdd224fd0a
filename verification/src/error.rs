//! The ways in which building or evaluating a curve or a surface can fail.
use vstd::prelude::*;

verus! {

/// Why a curve or a surface was not built, or a point not evaluated.
#[derive(Clone, Copy, Debug, PartialEq, Eq, Structural)]
pub enum NurbsError {
    /// A degree is zero.
    InvalidDegree,
    /// The weights do not have the shape of the control points.
    LengthMismatch,
    /// A knot vector does not have one knot more than the control points and the degree
    /// together.
    KnotCountMismatch,
    /// A knot is above the one that follows it.
    KnotsNotSorted,
    /// A weight is below zero.
    NegativeWeight,
    /// The control points do not all have the same dimension.
    DimensionMismatch,
    /// A parameter lies outside the knots.
    ParameterOutOfRange,
}

} // verus!
