use bsfun::nurbs::NURBSCurve;
use bsfun::{nurbs_curve_point, NurbsError, Rational};

fn whole(values: &[i64]) -> Vec<Rational> {
    values.iter().map(|&x| Rational::from_i64(x)).collect()
}

fn parabola() -> NURBSCurve {
    let degree = 2;
    let knots = whole(&[0, 0, 0, 1, 1, 1]);
    let weights = whole(&[1, 1, 1]);
    let control_points = vec![
        whole(&[0, 0]),
        vec![Rational::from_ratio(1, 2), Rational::from_ratio(1, 2)],
        whole(&[1, 0]),
    ];
    NURBSCurve::new(degree, knots, weights, control_points).unwrap()
}

#[test]
fn curve_takes_exact_values() {
    let curve = parabola();
    // B0 = (1-t)^2, B1 = 2t(1-t), B2 = t^2; x = B1/2 + B2, y = B1/2.
    let quarter = curve.eval(&Rational::from_ratio(1, 4)).unwrap();
    assert_eq!(quarter, vec![Rational::from_ratio(1, 4), Rational::from_ratio(3, 16)]);
    let half = curve.eval(&Rational::from_ratio(1, 2)).unwrap();
    assert_eq!(half, vec![Rational::from_ratio(1, 2), Rational::from_ratio(1, 4)]);
}

#[test]
fn curve_starts_at_first_control_point() {
    let curve = parabola();
    let start = curve.eval(&Rational::from_i64(0)).unwrap();
    assert_eq!(start, whole(&[0, 0]));
    let lifted = NURBSCurve::new(
        1,
        whole(&[2, 2, 5, 5]),
        whole(&[3, 1]),
        vec![whole(&[7, -4, 9]), whole(&[1, 1, 1])],
    )
    .unwrap();
    assert_eq!(lifted.eval(&Rational::from_i64(2)).unwrap(), whole(&[7, -4, 9]));
}

#[test]
fn curve_is_zero_at_last_knot() {
    let curve = parabola();
    let end = curve.eval(&Rational::from_i64(1)).unwrap();
    assert_eq!(end, whole(&[0, 0]));
}

#[test]
fn degree_zero_curve_ends_at_last_control_point() {
    let knots = whole(&[0, 1, 2, 3]);
    let weights = whole(&[1, 1, 1]);
    let control_points = vec![whole(&[4]), whole(&[5]), whole(&[6])];
    let end = nurbs_curve_point(&Rational::from_i64(3), &control_points, &weights, &knots, 0);
    assert_eq!(end, whole(&[6]));
    let start = nurbs_curve_point(&Rational::from_i64(0), &control_points, &weights, &knots, 0);
    assert_eq!(start, whole(&[4]));
    let inner = nurbs_curve_point(&Rational::from_i64(1), &control_points, &weights, &knots, 0);
    assert_eq!(inner, whole(&[5]));
}

#[test]
fn weighted_curve_point() {
    // Degree 1 over [0, 0, 1, 1]: B0 = 1 - t, B1 = t. With weights 1 and 3 at t = 1/2 the
    // shares are 1/4 and 3/4.
    let knots = whole(&[0, 0, 1, 1]);
    let weights = whole(&[1, 3]);
    let control_points = vec![whole(&[0, 8]), whole(&[4, 0])];
    let point =
        nurbs_curve_point(&Rational::from_ratio(1, 2), &control_points, &weights, &knots, 1);
    assert_eq!(point, whole(&[3, 2]));
}

#[test]
fn curve_point_without_control_points_is_empty() {
    let knots = whole(&[0, 1]);
    let point = nurbs_curve_point(&Rational::from_i64(0), &[], &[], &knots, 1);
    assert!(point.is_empty());
}

#[test]
fn curve_rejects_degree_zero() {
    let r = NURBSCurve::new(0, whole(&[0, 1, 2]), whole(&[1, 1]), vec![whole(&[0]), whole(&[1])]);
    assert_eq!(r.err(), Some(NurbsError::InvalidDegree));
}

#[test]
fn curve_rejects_mismatched_weights() {
    let r = NURBSCurve::new(
        1,
        whole(&[0, 0, 1, 1]),
        whole(&[1, 1, 1]),
        vec![whole(&[0]), whole(&[1])],
    );
    assert_eq!(r.err(), Some(NurbsError::LengthMismatch));
}

#[test]
fn curve_rejects_wrong_knot_count() {
    let r = NURBSCurve::new(
        1,
        whole(&[0, 0, 1, 1, 1]),
        whole(&[1, 1]),
        vec![whole(&[0]), whole(&[1])],
    );
    assert_eq!(r.err(), Some(NurbsError::KnotCountMismatch));
    let short = NURBSCurve::new(3, whole(&[0, 1]), whole(&[1]), vec![whole(&[0])]);
    assert_eq!(short.err(), Some(NurbsError::KnotCountMismatch));
}

#[test]
fn curve_rejects_unsorted_knots() {
    let r = NURBSCurve::new(
        1,
        whole(&[0, 2, 1, 3]),
        whole(&[1, 1]),
        vec![whole(&[0]), whole(&[1])],
    );
    assert_eq!(r.err(), Some(NurbsError::KnotsNotSorted));
}

#[test]
fn curve_rejects_negative_weight() {
    let r = NURBSCurve::new(
        1,
        whole(&[0, 0, 1, 1]),
        whole(&[1, -1]),
        vec![whole(&[0]), whole(&[1])],
    );
    assert_eq!(r.err(), Some(NurbsError::NegativeWeight));
}

#[test]
fn curve_rejects_mixed_dimensions() {
    let r = NURBSCurve::new(
        1,
        whole(&[0, 0, 1, 1]),
        whole(&[1, 1]),
        vec![whole(&[0]), whole(&[1, 2])],
    );
    assert_eq!(r.err(), Some(NurbsError::DimensionMismatch));
}

#[test]
fn curve_reports_first_failing_check() {
    // Weights too many, knots unsorted and dimensions mixed: the count of weights is
    // checked first.
    let r = NURBSCurve::new(
        1,
        whole(&[3, 2, 1, 0]),
        whole(&[1, -1, 1]),
        vec![whole(&[0]), whole(&[1, 2])],
    );
    assert_eq!(r.err(), Some(NurbsError::LengthMismatch));
    // Knots unsorted and a weight negative: the knots are checked first.
    let r = NURBSCurve::new(
        1,
        whole(&[3, 2, 1, 0]),
        whole(&[1, -1]),
        vec![whole(&[0]), whole(&[1, 2])],
    );
    assert_eq!(r.err(), Some(NurbsError::KnotsNotSorted));
}

#[test]
fn curve_eval_rejects_parameter_out_of_range() {
    let curve = parabola();
    assert_eq!(curve.eval(&Rational::from_ratio(-1, 100)).err(), Some(NurbsError::ParameterOutOfRange));
    assert_eq!(curve.eval(&Rational::from_ratio(101, 100)).err(), Some(NurbsError::ParameterOutOfRange));
    assert!(curve.eval(&Rational::from_i64(0)).is_ok());
    assert!(curve.eval(&Rational::from_i64(1)).is_ok());
}
