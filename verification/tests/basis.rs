use bsfun::{bspline_basis, rational_bspline_basis_curve, Rational};

fn whole(values: &[i64]) -> Vec<Rational> {
    values.iter().map(|&x| Rational::from_i64(x)).collect()
}

fn tolerance() -> Rational {
    Rational::from_ratio(1, 1000000)
}

fn machine_epsilon() -> Rational {
    Rational::from_ratio(1, 4503599627370496)
}

fn close(result: &Rational, expected: &Rational) -> bool {
    result.gt(&expected.sub(&tolerance())) && result.lt(&expected.add(&tolerance()))
}

#[test]
fn degree_zero_on_hundredths() {
    let knots = whole(&[0, 0, 0, 1, 2, 3, 3, 3]);
    for i in 0..knots.len() - 1 {
        for t in 0..=100 {
            let t = Rational::from_ratio(t, 100);
            let result = bspline_basis(i, 0, &knots, &t);
            if t.ge(&knots[i]) && t.lt(&knots[i + 1]) {
                assert!(result.sub(&Rational::one()).abs().lt(&machine_epsilon()));
            } else {
                assert!(result.abs().lt(&machine_epsilon()));
            }
        }
    }
}

#[test]
fn degree_one_on_hundredths() {
    let knots = whole(&[0, 0, 1, 2, 3, 3]);
    let one = Rational::one();

    for i in 0..knots.len() - 2 {
        for t in 0..=100 {
            let t = Rational::from_ratio(t, 100);
            let result = bspline_basis(i, 1, &knots, &t);
            if t.ge(&knots[i]) && t.lt(&knots[i + 1]) {
                let expected = one.sub(&knots[i + 1].sub(&t));
                assert!(close(&result, &expected));
            } else if t.ge(&knots[i + 1]) && t.lt(&knots[i + 2]) {
                let expected = knots[i + 2].sub(&t);
                assert!(close(&result, &expected));
            } else {
                assert!(close(&result, &Rational::zero()));
            }
        }
    }
}

#[test]
fn rational_degree_zero_on_hundredths() {
    let knots = whole(&[0, 0, 1, 2, 3, 3]);
    let weights = whole(&[1, 1, 1, 1, 1]);

    for i in 0..knots.len() - 1 {
        for t in 0..=100 {
            let t = Rational::from_ratio(t, 100);
            let result = rational_bspline_basis_curve(i, 0, &knots, &weights, &t);
            if t.ge(&knots[i]) && t.lt(&knots[i + 1]) {
                assert!(close(&result, &Rational::one()));
            } else {
                assert!(close(&result, &Rational::zero()));
            }
        }
    }
}

#[test]
fn rational_degree_one_on_hundredths() {
    let knots = whole(&[0, 0, 1, 2, 3, 3]);
    let weights = whole(&[1, 2, 3, 4]);
    for i in 0..knots.len() - 2 - 1 {
        for t in 0..=100 {
            let t = Rational::from_ratio(t, 100);
            let result = rational_bspline_basis_curve(i, 1, &knots, &weights, &t);
            let mut total = Rational::zero();
            for j in 0..weights.len() {
                total = total.add(&weights[j].mul(&bspline_basis(j, 1, &knots, &t)));
            }
            if total.abs().gt(&tolerance()) {
                let expected = weights[i].mul(&bspline_basis(i, 1, &knots, &t)).div(&total);
                assert!(close(&result, &expected));
            } else {
                assert!(close(&result, &Rational::zero()));
            }
        }
    }
}
