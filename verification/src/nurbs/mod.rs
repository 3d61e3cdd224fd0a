//! Validated curves and surfaces.
pub mod checks;
pub mod nurbs_curve;
pub mod nurbs_surface;

pub use nurbs_curve::NURBSCurve;
pub use nurbs_surface::NURBSSurface;
