use bsfun::nurbs::NURBSCurve;
use bsfun::{bspline_basis, nurbs_curve_point, rational_bspline_basis_curve, Rational};

fn whole(values: &[i64]) -> Vec<Rational> {
    values.iter().map(|&x| Rational::from_i64(x)).collect()
}

fn basis_total(knots: &[Rational], degree: usize, t: &Rational) -> Rational {
    let mut total = Rational::zero();
    for i in 0..knots.len() - degree - 1 {
        total = total.add(&bspline_basis(i, degree, knots, t));
    }
    total
}

#[test]
fn basis_functions_sum_to_one_inside_the_domain() {
    let knots = whole(&[0, 0, 0, 1, 2, 4, 4, 5, 7, 7, 7]);
    for degree in 0..=3 {
        let mut inside = 0;
        for step in 0..28 {
            let t = Rational::from_ratio(step, 4);
            if t.ge(&knots[degree]) && t.lt(&knots[knots.len() - degree - 1]) {
                assert_eq!(basis_total(&knots, degree, &t), Rational::one());
                inside += 1;
            }
        }
        assert!(inside >= 16);
    }
}

#[test]
fn basis_functions_need_not_sum_to_one_before_the_domain() {
    let knots = whole(&[0, 1, 2, 3]);
    let t = Rational::from_ratio(1, 2);
    assert_eq!(basis_total(&knots, 1, &t), Rational::from_ratio(1, 2));
}

#[test]
fn basis_functions_are_never_negative() {
    let knots = whole(&[0, 0, 1, 3, 3, 4, 6]);
    for degree in 0..=2 {
        for i in 0..knots.len() - degree - 1 {
            for step in -4..=28 {
                let t = Rational::from_ratio(step, 4);
                assert!(!bspline_basis(i, degree, &knots, &t).is_negative());
            }
        }
    }
}

#[test]
fn basis_functions_vanish_outside_their_span() {
    let knots = whole(&[0, 1, 2, 3, 4, 5]);
    let zero = Rational::zero();
    assert_eq!(bspline_basis(1, 2, &knots, &Rational::from_ratio(1, 2)), zero);
    assert_eq!(bspline_basis(1, 2, &knots, &Rational::from_i64(1)), zero);
    assert_eq!(bspline_basis(1, 2, &knots, &Rational::from_i64(4)), zero);
    assert_eq!(bspline_basis(1, 2, &knots, &Rational::from_ratio(9, 2)), zero);
    assert!(bspline_basis(1, 2, &knots, &Rational::from_ratio(5, 2)).gt(&zero));
}

#[test]
fn degree_zero_is_the_indicator_of_the_span() {
    let knots = whole(&[0, 0, 1, 2, 3, 3, 3]);
    for i in 0..6 {
        for step in 0..12 {
            let t = Rational::from_ratio(step, 4);
            let inside = t.ge(&knots[i]) && t.lt(&knots[i + 1]);
            let expected = if inside { Rational::one() } else { Rational::zero() };
            assert_eq!(bspline_basis(i, 0, &knots, &t), expected);
        }
    }
    // An inner knot belongs to the function on its right.
    let one = Rational::from_i64(1);
    assert_eq!(bspline_basis(1, 0, &knots, &one), Rational::zero());
    assert_eq!(bspline_basis(2, 0, &knots, &one), Rational::one());
    // The last knot belongs to the last function.
    let last = Rational::from_i64(3);
    for i in 0..5 {
        assert_eq!(bspline_basis(i, 0, &knots, &last), Rational::zero());
    }
    assert_eq!(bspline_basis(5, 0, &knots, &last), Rational::one());
}

#[test]
fn quadratic_basis_takes_exact_values() {
    let knots = whole(&[0, 0, 0, 1, 1, 1]);
    let t = Rational::from_ratio(1, 4);
    assert_eq!(bspline_basis(0, 2, &knots, &t), Rational::from_ratio(9, 16));
    assert_eq!(bspline_basis(1, 2, &knots, &t), Rational::from_ratio(6, 16));
    assert_eq!(bspline_basis(2, 2, &knots, &t), Rational::from_ratio(1, 16));
    let uniform = whole(&[0, 1, 2, 3]);
    let mid = Rational::from_ratio(3, 2);
    assert_eq!(bspline_basis(0, 2, &uniform, &mid), Rational::from_ratio(3, 4));
}

#[test]
fn repeated_knots_contribute_nothing() {
    let knots = whole(&[0, 0, 0, 0, 1]);
    let t = Rational::from_ratio(1, 2);
    assert_eq!(bspline_basis(0, 1, &knots, &t), Rational::zero());
    assert_eq!(bspline_basis(1, 1, &knots, &t), Rational::zero());
    assert_eq!(bspline_basis(2, 1, &knots, &t), Rational::from_ratio(1, 2));
}

#[test]
fn rational_basis_functions_sum_to_one() {
    let knots = whole(&[0, 0, 0, 1, 2, 3, 3, 3]);
    let weights = vec![
        Rational::from_i64(1),
        Rational::from_ratio(1, 3),
        Rational::from_i64(0),
        Rational::from_i64(7),
        Rational::from_ratio(5, 2),
    ];
    for step in 0..12 {
        let t = Rational::from_ratio(step, 4);
        let mut total = Rational::zero();
        for i in 0..weights.len() {
            total = total.add(&rational_bspline_basis_curve(i, 2, &knots, &weights, &t));
        }
        assert_eq!(total, Rational::one());
    }
}

#[test]
fn rational_basis_is_zero_where_the_sum_is_below_epsilon() {
    let knots = whole(&[0, 0, 1, 1]);
    let t = Rational::from_ratio(1, 2);
    let tiny = Rational::from_ratio(1, 4503599627370497);
    let weights = vec![tiny.clone(), tiny];
    assert_eq!(rational_bspline_basis_curve(0, 1, &knots, &weights, &t), Rational::zero());
    let edge = Rational::from_ratio(1, 4503599627370496);
    let weights = vec![edge.clone(), edge];
    assert_eq!(
        rational_bspline_basis_curve(0, 1, &knots, &weights, &t),
        Rational::from_ratio(1, 2)
    );
    let none = whole(&[0, 0]);
    assert_eq!(rational_bspline_basis_curve(1, 1, &knots, &none, &t), Rational::zero());
}

#[test]
fn equal_weights_leave_the_basis_unchanged() {
    let knots = whole(&[0, 0, 0, 1, 2, 2, 2]);
    let weights = vec![Rational::from_ratio(7, 3); 4];
    for step in 0..8 {
        let t = Rational::from_ratio(step, 4);
        for i in 0..weights.len() {
            assert_eq!(
                rational_bspline_basis_curve(i, 2, &knots, &weights, &t),
                bspline_basis(i, 2, &knots, &t)
            );
        }
    }
}

#[test]
fn clamped_curve_starts_at_its_first_control_point() {
    let knots = whole(&[1, 1, 1, 1, 2, 3, 3, 3, 3]);
    let weights = whole(&[2, 1, 1, 1, 5]);
    let control_points =
        vec![whole(&[3, -1]), whole(&[0, 0]), whole(&[1, 1]), whole(&[2, 5]), whole(&[9, 9])];
    let start = nurbs_curve_point(&Rational::from_i64(1), &control_points, &weights, &knots, 3);
    assert_eq!(start, whole(&[3, -1]));
    let curve = NURBSCurve::new(3, knots, weights, control_points).unwrap();
    assert_eq!(curve.eval(&Rational::from_i64(1)).unwrap(), whole(&[3, -1]));
    assert_eq!(curve.eval(&Rational::from_i64(3)).unwrap(), whole(&[0, 0]));
}
