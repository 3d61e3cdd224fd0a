//! Rational basis functions: weighted basis values, normalised to sum to one.
use crate::basis::{basis, basis_sum, bspline_basis, law_partition_of_unity, non_decreasing};
use crate::rational::{abs, grid_values, lemma_ratio_sign, ratio, values, Rational};
use vstd::prelude::*;

verus! {

/// The bound below which a normalising sum counts as zero: 2 to the power -52.
pub open spec fn epsilon() -> real {
    ratio(1, 4503599627370496)
}

/// The bound is above zero.
pub proof fn lemma_epsilon_positive()
    ensures
        epsilon() > 0real,
{
    lemma_ratio_sign(1, 4503599627370496);
}

/// `numerator / denominator`, and zero where the denominator is within `epsilon()` of zero.
pub open spec fn normalized(numerator: real, denominator: real) -> real {
    if abs(denominator) < epsilon() {
        0real
    } else {
        numerator / denominator
    }
}

/// The sum of `weights[j] * basis(knots, j, degree, t)` over the first `n` indices.
pub open spec fn weighted_sum(
    knots: Seq<real>,
    weights: Seq<real>,
    degree: nat,
    t: real,
    n: int,
) -> real
    decreases n,
{
    if n <= 0 {
        0real
    } else {
        weighted_sum(knots, weights, degree, t, n - 1) + weights[n - 1] * basis(
            knots,
            n - 1,
            degree,
            t,
        )
    }
}

/// The rational basis function of index `i` for a curve: its weighted basis value over the
/// sum of all of them.
pub open spec fn rational_basis_curve(
    knots: Seq<real>,
    weights: Seq<real>,
    i: int,
    degree: nat,
    t: real,
) -> real {
    normalized(
        weights[i] * basis(knots, i, degree, t),
        weighted_sum(knots, weights, degree, t, weights.len() as int),
    )
}

/// Divides by the normalising sum, unless that sum is within `epsilon()` of zero.
fn normalize(numerator: &Rational, denominator: &Rational) -> (r: Rational)
    ensures
        r@ == normalized(numerator@, denominator@),
{
    let bound = Rational::from_ratio(1, 4503599627370496);
    proof {
        lemma_epsilon_positive();
    }
    if denominator.abs().lt(&bound) {
        Rational::zero()
    } else {
        numerator.div(denominator)
    }
}

/// Evaluates the rational basis function of index `i` of a curve at `t`.
pub fn rational_bspline_basis_curve(
    i: usize,
    degree: usize,
    knots: &[Rational],
    weights: &[Rational],
    t: &Rational,
) -> (r: Rational)
    requires
        i < weights@.len(),
        weights@.len() + degree < knots@.len(),
    ensures
        r@ == rational_basis_curve(values(knots@), values(weights@), i as int, degree as nat, t@),
{
    let count = knots.len();
    let numerator = weights[i].mul(&bspline_basis(i, degree, knots, t));
    let mut denominator = Rational::zero();
    let mut j: usize = 0;
    while j < weights.len()
        invariant
            j <= weights@.len(),
            weights@.len() + degree < knots@.len(),
            denominator@ == weighted_sum(
                values(knots@),
                values(weights@),
                degree as nat,
                t@,
                j as int,
            ),
        decreases weights@.len() - j,
    {
        let term = weights[j].mul(&bspline_basis(j, degree, knots, t));
        denominator = denominator.add(&term);
        j += 1;
    }
    normalize(&numerator, &denominator)
}

/// The sum of `row[b] * across * basis(knots_v, b, degree_v, v)` over the first `m` indices:
/// one row of the normalising sum of a surface.
pub open spec fn row_sum(
    knots_v: Seq<real>,
    row: Seq<real>,
    across: real,
    degree_v: nat,
    v: real,
    m: int,
) -> real
    decreases m,
{
    if m <= 0 {
        0real
    } else {
        row_sum(knots_v, row, across, degree_v, v, m - 1) + row[m - 1] * across * basis(
            knots_v,
            m - 1,
            degree_v,
            v,
        )
    }
}

/// The sum of `weights[a][b] * basis(knots_u, a, degree_u, u) * basis(knots_v, b, degree_v, v)`
/// over the first `n` rows and the first `m` columns.
pub open spec fn grid_sum(
    knots_u: Seq<real>,
    knots_v: Seq<real>,
    weights: Seq<Seq<real>>,
    degree_u: nat,
    degree_v: nat,
    u: real,
    v: real,
    n: int,
    m: int,
) -> real
    decreases n,
{
    if n <= 0 {
        0real
    } else {
        grid_sum(knots_u, knots_v, weights, degree_u, degree_v, u, v, n - 1, m) + row_sum(
            knots_v,
            weights[n - 1],
            basis(knots_u, n - 1, degree_u, u),
            degree_v,
            v,
            m,
        )
    }
}

/// The number of columns of a grid: the length of its first row, and zero where it has no
/// row.
pub open spec fn columns<T>(grid: Seq<Seq<T>>) -> int {
    if grid.len() == 0 {
        0
    } else {
        grid[0].len() as int
    }
}

/// Whether every row of the grid has as many entries as the first.
pub open spec fn rectangular<T>(grid: Seq<Seq<T>>) -> bool {
    forall|a: int| 0 <= a < grid.len() ==> (#[trigger] grid[a]).len() == columns(grid)
}

/// The rational basis function of index `(i, j)` for a surface: its weighted product of basis
/// values over the sum of all of them.
pub open spec fn rational_basis_surface(
    knots_u: Seq<real>,
    knots_v: Seq<real>,
    weights: Seq<Seq<real>>,
    i: int,
    j: int,
    degree_u: nat,
    degree_v: nat,
    u: real,
    v: real,
) -> real {
    normalized(
        weights[i][j] * basis(knots_u, i, degree_u, u) * basis(knots_v, j, degree_v, v),
        grid_sum(
            knots_u,
            knots_v,
            weights,
            degree_u,
            degree_v,
            u,
            v,
            weights.len() as int,
            columns(weights),
        ),
    )
}

/// Evaluates the rational basis function of index `(i, j)` of a surface at `(u, v)`.
pub fn rational_bspline_basis_surface(
    i: usize,
    j: usize,
    degree_u: usize,
    degree_v: usize,
    knots_u: &[Rational],
    knots_v: &[Rational],
    weights: &[Vec<Rational>],
    u: &Rational,
    v: &Rational,
) -> (r: Rational)
    requires
        rectangular(grid_values(weights@)),
        i < weights@.len(),
        j < columns(grid_values(weights@)),
        weights@.len() + degree_u < knots_u@.len(),
        columns(grid_values(weights@)) + degree_v < knots_v@.len(),
    ensures
        r@ == rational_basis_surface(
            values(knots_u@),
            values(knots_v@),
            grid_values(weights@),
            i as int,
            j as int,
            degree_u as nat,
            degree_v as nat,
            u@,
            v@,
        ),
{
    let count_u = knots_u.len();
    let count_v = knots_v.len();
    let ghost grid = grid_values(weights@);
    let n = weights.len();
    let m = weights[0].len();
    proof {
        assert(grid[0].len() == m);
        assert(grid[i as int].len() == m);
        assert(grid[i as int][j as int] == weights@[i as int]@[j as int]@);
    }
    let numerator = weights[i][j].mul(&bspline_basis(i, degree_u, knots_u, u)).mul(
        &bspline_basis(j, degree_v, knots_v, v),
    );
    let mut denominator = Rational::zero();
    let mut a: usize = 0;
    while a < n
        invariant
            a <= n,
            n == weights@.len(),
            m == columns(grid),
            grid == grid_values(weights@),
            rectangular(grid),
            n + degree_u < knots_u@.len(),
            m + degree_v < knots_v@.len(),
            denominator@ == grid_sum(
                values(knots_u@),
                values(knots_v@),
                grid,
                degree_u as nat,
                degree_v as nat,
                u@,
                v@,
                a as int,
                m as int,
            ),
        decreases n - a,
    {
        let across = bspline_basis(a, degree_u, knots_u, u);
        let ghost before = denominator@;
        let mut b: usize = 0;
        proof {
            assert(grid[a as int].len() == m);
        }
        while b < m
            invariant
                b <= m,
                a < n,
                n == weights@.len(),
                grid == grid_values(weights@),
                weights@[a as int]@.len() == m,
                m + degree_v < knots_v@.len(),
                denominator@ == before + row_sum(
                    values(knots_v@),
                    grid[a as int],
                    across@,
                    degree_v as nat,
                    v@,
                    b as int,
                ),
            decreases m - b,
        {
            let along = bspline_basis(b, degree_v, knots_v, v);
            let term = weights[a][b].mul(&across).mul(&along);
            proof {
                assert(grid[a as int][b as int] == weights@[a as int]@[b as int]@);
            }
            denominator = denominator.add(&term);
            b += 1;
        }
        a += 1;
    }
    normalize(&numerator, &denominator)
}

/// The sum of the rational basis functions of a curve over the first `n` indices.
pub open spec fn rational_sum(
    knots: Seq<real>,
    weights: Seq<real>,
    degree: nat,
    t: real,
    n: int,
) -> real
    decreases n,
{
    if n <= 0 {
        0real
    } else {
        rational_sum(knots, weights, degree, t, n - 1) + rational_basis_curve(
            knots,
            weights,
            n - 1,
            degree,
            t,
        )
    }
}

proof fn lemma_rational_sum(knots: Seq<real>, weights: Seq<real>, degree: nat, t: real, n: int)
    requires
        0 <= n <= weights.len(),
        abs(weighted_sum(knots, weights, degree, t, weights.len() as int)) >= epsilon(),
    ensures
        rational_sum(knots, weights, degree, t, n) == weighted_sum(knots, weights, degree, t, n)
            / weighted_sum(knots, weights, degree, t, weights.len() as int),
    decreases n,
{
    let total = weighted_sum(knots, weights, degree, t, weights.len() as int);
    lemma_epsilon_positive();
    if n <= 0 {
        assert(0real / total == 0real) by (nonlinear_arith)
            requires
                total != 0real,
        ;
    } else {
        lemma_rational_sum(knots, weights, degree, t, n - 1);
        let before = weighted_sum(knots, weights, degree, t, n - 1);
        let term = weights[n - 1] * basis(knots, n - 1, degree, t);
        assert(rational_basis_curve(knots, weights, n - 1, degree, t) == term / total);
        assert(before / total + term / total == (before + term) / total) by (nonlinear_arith)
            requires
                total != 0real,
        ;
    }
}

/// The rational basis functions of a curve sum to one wherever their normalising sum is at
/// least `epsilon()` away from zero.
pub proof fn law_rational_partition(knots: Seq<real>, weights: Seq<real>, degree: nat, t: real)
    requires
        abs(weighted_sum(knots, weights, degree, t, weights.len() as int)) >= epsilon(),
    ensures
        rational_sum(knots, weights, degree, t, weights.len() as int) == 1real,
{
    let total = weighted_sum(knots, weights, degree, t, weights.len() as int);
    lemma_epsilon_positive();
    lemma_rational_sum(knots, weights, degree, t, weights.len() as int);
    assert(total / total == 1real) by (nonlinear_arith)
        requires
            total != 0real,
    ;
}

proof fn lemma_equal_weights_sum(
    knots: Seq<real>,
    weights: Seq<real>,
    w: real,
    degree: nat,
    t: real,
    n: int,
)
    requires
        0 <= n <= weights.len(),
        forall|j: int| 0 <= j < weights.len() ==> weights[j] == w,
    ensures
        weighted_sum(knots, weights, degree, t, n) == w * basis_sum(knots, degree, t, 0, n),
    decreases n,
{
    if n <= 0 {
        assert(w * 0real == 0real) by (nonlinear_arith);
    } else {
        lemma_equal_weights_sum(knots, weights, w, degree, t, n - 1);
        let before = basis_sum(knots, degree, t, 0, n - 1);
        let b = basis(knots, n - 1, degree, t);
        assert(basis_sum(knots, degree, t, 0, n) == before + b);
        assert(w * before + w * b == w * (before + b)) by (nonlinear_arith);
    }
}

/// Weight invariance: where every weight is the same `w`, at least `epsilon()` away from
/// zero, each rational basis function of a curve equals its basis function, at every `t`
/// from knot `degree` up to, not including, the knot that follows the last function's index.
pub proof fn law_weight_invariance(
    knots: Seq<real>,
    weights: Seq<real>,
    w: real,
    i: int,
    degree: nat,
    t: real,
)
    requires
        non_decreasing(knots),
        weights.len() + degree + 1 == knots.len(),
        forall|j: int| 0 <= j < weights.len() ==> weights[j] == w,
        abs(w) >= epsilon(),
        0 <= i < weights.len(),
        knots[degree as int] <= t < knots[weights.len() as int],
    ensures
        rational_basis_curve(knots, weights, i, degree, t) == basis(knots, i, degree, t),
{
    lemma_epsilon_positive();
    lemma_equal_weights_sum(knots, weights, w, degree, t, weights.len() as int);
    law_partition_of_unity(knots, degree, t);
    let total = weighted_sum(knots, weights, degree, t, weights.len() as int);
    let b = basis(knots, i, degree, t);
    assert(total == w) by (nonlinear_arith)
        requires
            total == w * 1real,
    ;
    assert(w * b / w == b) by (nonlinear_arith)
        requires
            w != 0real,
    ;
}

} // verus!
