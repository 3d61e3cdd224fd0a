//! Exact evaluation of NURBS curves and surfaces over rational numbers.
pub mod basis;
pub mod bigint;
pub mod bignat;
pub mod equality;
pub mod error;
pub mod nurbs;
pub mod point;
pub mod rational;
pub mod rational_basis;

pub use basis::bspline_basis;
pub use bigint::BigInt;
pub use bignat::BigNat;
pub use error::NurbsError;
pub use point::{nurbs_curve_point, nurbs_surface_point};
pub use rational::Rational;
pub use rational_basis::{rational_bspline_basis_curve, rational_bspline_basis_surface};
