//! Points of a curve or a surface: control points weighted by the rational basis functions.
use crate::basis::{
    basis,
    clamped_start,
    law_basis_at_clamped_start,
    law_degree_zero_at_last_knot,
    law_zero_at_last_knot,
    non_decreasing,
};
use crate::rational::{abs, grid_values, space_values, values, Rational};
use crate::rational_basis::{
    columns,
    epsilon,
    lemma_epsilon_positive,
    normalized,
    weighted_sum,
    rational_basis_curve,
    rational_basis_surface,
    rational_bspline_basis_curve,
    rational_bspline_basis_surface,
    rectangular,
};
use vstd::prelude::*;

verus! {

/// Coordinate `k` of the sum of the first `n` control points of a curve, each weighted by
/// its rational basis function at `t`.
pub open spec fn curve_coordinate(
    knots: Seq<real>,
    weights: Seq<real>,
    control_points: Seq<Seq<real>>,
    degree: nat,
    t: real,
    k: int,
    n: int,
) -> real
    decreases n,
{
    if n <= 0 {
        0real
    } else {
        curve_coordinate(knots, weights, control_points, degree, t, k, n - 1)
            + rational_basis_curve(knots, weights, n - 1, degree, t) * control_points[n - 1][k]
    }
}

/// The point of a curve at `t`. It has the dimension of the first control point, and none
/// where there is no control point.
pub open spec fn curve_point(
    knots: Seq<real>,
    weights: Seq<real>,
    control_points: Seq<Seq<real>>,
    degree: nat,
    t: real,
) -> Seq<real> {
    Seq::new(
        columns(control_points) as nat,
        |k: int|
            curve_coordinate(
                knots,
                weights,
                control_points,
                degree,
                t,
                k,
                control_points.len() as int,
            ),
    )
}

/// A vector of `d` zeros.
fn origin(d: usize) -> (point: Vec<Rational>)
    ensures
        point@.len() == d,
        forall|k: int| 0 <= k < d ==> (#[trigger] point@[k])@ == 0real,
{
    let mut point: Vec<Rational> = Vec::new();
    let mut k: usize = 0;
    while k < d
        invariant
            k <= d,
            point@.len() == k,
            forall|j: int| 0 <= j < k ==> (#[trigger] point@[j])@ == 0real,
        decreases d - k,
    {
        point.push(Rational::zero());
        k += 1;
    }
    point
}

/// Evaluates the point of a curve at `t`.
///
/// The weights are as many as the control points, the control points all have one dimension,
/// and the knots are more than the control points and the degree together.
pub fn nurbs_curve_point(
    t: &Rational,
    control_points: &[Vec<Rational>],
    weights: &[Rational],
    knots: &[Rational],
    degree: usize,
) -> (point: Vec<Rational>)
    requires
        weights@.len() == control_points@.len(),
        control_points@.len() == 0 || control_points@.len() + degree < knots@.len(),
        rectangular(grid_values(control_points@)),
    ensures
        point@.len() == columns(grid_values(control_points@)),
        values(point@) == curve_point(
            values(knots@),
            values(weights@),
            grid_values(control_points@),
            degree as nat,
            t@,
        ),
{
    let ghost grid = grid_values(control_points@);
    let n = control_points.len();
    if n == 0 {
        let point: Vec<Rational> = Vec::new();
        assert(values(point@) =~= curve_point(
            values(knots@),
            values(weights@),
            grid,
            degree as nat,
            t@,
        ));
        return point;
    }
    let d = control_points[0].len();
    assert(grid[0].len() == d);
    let mut point = origin(d);
    let mut i: usize = 0;
    while i < n
        invariant
            i <= n,
            n == control_points@.len(),
            n == weights@.len(),
            n + degree < knots@.len(),
            grid == grid_values(control_points@),
            rectangular(grid),
            columns(grid) == d,
            point@.len() == d,
            forall|k: int|
                0 <= k < d ==> (#[trigger] point@[k])@ == curve_coordinate(
                    values(knots@),
                    values(weights@),
                    grid,
                    degree as nat,
                    t@,
                    k,
                    i as int,
                ),
        decreases n - i,
    {
        let share = rational_bspline_basis_curve(i, degree, knots, weights, t);
        assert(grid[i as int].len() == d);
        let mut k: usize = 0;
        while k < d
            invariant
                k <= d,
                i < n,
                n == control_points@.len(),
                grid == grid_values(control_points@),
                control_points@[i as int]@.len() == d,
                point@.len() == d,
                share@ == rational_basis_curve(
                    values(knots@),
                    values(weights@),
                    i as int,
                    degree as nat,
                    t@,
                ),
                forall|j: int|
                    0 <= j < k ==> (#[trigger] point@[j])@ == curve_coordinate(
                        values(knots@),
                        values(weights@),
                        grid,
                        degree as nat,
                        t@,
                        j,
                        i + 1,
                    ),
                forall|j: int|
                    k <= j < d ==> (#[trigger] point@[j])@ == curve_coordinate(
                        values(knots@),
                        values(weights@),
                        grid,
                        degree as nat,
                        t@,
                        j,
                        i as int,
                    ),
            decreases d - k,
        {
            let moved = point[k].add(&share.mul(&control_points[i][k]));
            proof {
                assert(grid[i as int][k as int] == control_points@[i as int]@[k as int]@);
            }
            point.set(k, moved);
            k += 1;
        }
        i += 1;
    }
    assert(values(point@) =~= curve_point(
        values(knots@),
        values(weights@),
        grid,
        degree as nat,
        t@,
    ));
    point
}

/// The dimension of the control points of a surface: that of the first one, and zero where
/// there is none.
pub open spec fn depth(control_points: Seq<Seq<Seq<real>>>) -> int {
    if control_points.len() == 0 || control_points[0].len() == 0 {
        0
    } else {
        control_points[0][0].len() as int
    }
}

/// Whether every control point of a surface has the dimension of the first.
pub open spec fn uniform(control_points: Seq<Seq<Seq<real>>>) -> bool {
    forall|a: int, b: int|
        0 <= a < control_points.len() && 0 <= b < control_points[a].len() ==> (
        #[trigger] control_points[a][b]).len() == depth(control_points)
}

/// Whether row for row the grid of weights has as many entries as the grid of control points.
pub open spec fn same_shape(weights: Seq<Seq<real>>, control_points: Seq<Seq<Seq<real>>>) -> bool {
    &&& weights.len() == control_points.len()
    &&& forall|a: int|
        0 <= a < weights.len() ==> (#[trigger] weights[a]).len() == control_points[a].len()
}

/// Coordinate `k` of the sum of the first `m` control points of row `a` of a surface, each
/// weighted by its rational basis function at `(u, v)`.
pub open spec fn surface_row_coordinate(
    knots_u: Seq<real>,
    knots_v: Seq<real>,
    weights: Seq<Seq<real>>,
    control_points: Seq<Seq<Seq<real>>>,
    degree_u: nat,
    degree_v: nat,
    u: real,
    v: real,
    k: int,
    a: int,
    m: int,
) -> real
    decreases m,
{
    if m <= 0 {
        0real
    } else {
        surface_row_coordinate(
            knots_u,
            knots_v,
            weights,
            control_points,
            degree_u,
            degree_v,
            u,
            v,
            k,
            a,
            m - 1,
        ) + rational_basis_surface(knots_u, knots_v, weights, a, m - 1, degree_u, degree_v, u, v)
            * control_points[a][m - 1][k]
    }
}

/// Coordinate `k` of the sum of the control points in the first `n` rows and the first `m`
/// columns of a surface, each weighted by its rational basis function at `(u, v)`.
pub open spec fn surface_coordinate(
    knots_u: Seq<real>,
    knots_v: Seq<real>,
    weights: Seq<Seq<real>>,
    control_points: Seq<Seq<Seq<real>>>,
    degree_u: nat,
    degree_v: nat,
    u: real,
    v: real,
    k: int,
    n: int,
    m: int,
) -> real
    decreases n,
{
    if n <= 0 {
        0real
    } else {
        surface_coordinate(
            knots_u,
            knots_v,
            weights,
            control_points,
            degree_u,
            degree_v,
            u,
            v,
            k,
            n - 1,
            m,
        ) + surface_row_coordinate(
            knots_u,
            knots_v,
            weights,
            control_points,
            degree_u,
            degree_v,
            u,
            v,
            k,
            n - 1,
            m,
        )
    }
}

/// The point of a surface at `(u, v)`. It has the dimension of the first control point, and
/// none where there is no control point.
pub open spec fn surface_point(
    knots_u: Seq<real>,
    knots_v: Seq<real>,
    weights: Seq<Seq<real>>,
    control_points: Seq<Seq<Seq<real>>>,
    degree_u: nat,
    degree_v: nat,
    u: real,
    v: real,
) -> Seq<real> {
    Seq::new(
        depth(control_points) as nat,
        |k: int|
            surface_coordinate(
                knots_u,
                knots_v,
                weights,
                control_points,
                degree_u,
                degree_v,
                u,
                v,
                k,
                control_points.len() as int,
                columns(control_points),
            ),
    )
}

/// Evaluates the point of a surface at `(u, v)`.
///
/// The control points form a grid and all have one dimension, the weights form a grid of
/// the same shape, and along each axis the knots are more than the control points and the
/// degree together.
pub fn nurbs_surface_point(
    control_points: &[Vec<Vec<Rational>>],
    weights: &[Vec<Rational>],
    knots_u: &[Rational],
    knots_v: &[Rational],
    degree_u: usize,
    degree_v: usize,
    u: &Rational,
    v: &Rational,
) -> (point: Vec<Rational>)
    requires
        rectangular(space_values(control_points@)),
        uniform(space_values(control_points@)),
        same_shape(grid_values(weights@), space_values(control_points@)),
        control_points@.len() == 0 || control_points@.len() + degree_u < knots_u@.len(),
        columns(space_values(control_points@)) == 0 || columns(space_values(control_points@))
            + degree_v < knots_v@.len(),
    ensures
        point@.len() == depth(space_values(control_points@)),
        values(point@) == surface_point(
            values(knots_u@),
            values(knots_v@),
            grid_values(weights@),
            space_values(control_points@),
            degree_u as nat,
            degree_v as nat,
            u@,
            v@,
        ),
{
    let ghost space = space_values(control_points@);
    let ghost grid = grid_values(weights@);
    let n = control_points.len();
    let m = if n == 0 {
        0
    } else {
        control_points[0].len()
    };
    proof {
        if n > 0 {
            assert(space[0].len() == m);
        }
    }
    if m == 0 {
        let point: Vec<Rational> = Vec::new();
        assert(values(point@) =~= surface_point(
            values(knots_u@),
            values(knots_v@),
            grid,
            space,
            degree_u as nat,
            degree_v as nat,
            u@,
            v@,
        ));
        return point;
    }
    let d = control_points[0][0].len();
    proof {
        assert(space[0][0].len() == d);
        assert(grid[0].len() == space[0].len());
        assert forall|a: int| 0 <= a < grid.len() implies (#[trigger] grid[a]).len() == columns(
            grid,
        ) by {
            assert(space[a].len() == m);
        }
    }
    let mut point = origin(d);
    let mut i: usize = 0;
    while i < n
        invariant
            i <= n,
            0 < m,
            n == control_points@.len(),
            space == space_values(control_points@),
            grid == grid_values(weights@),
            rectangular(space),
            rectangular(grid),
            uniform(space),
            same_shape(grid, space),
            columns(space) == m,
            columns(grid) == m,
            depth(space) == d,
            n + degree_u < knots_u@.len(),
            m + degree_v < knots_v@.len(),
            point@.len() == d,
            forall|k: int|
                0 <= k < d ==> (#[trigger] point@[k])@ == surface_coordinate(
                    values(knots_u@),
                    values(knots_v@),
                    grid,
                    space,
                    degree_u as nat,
                    degree_v as nat,
                    u@,
                    v@,
                    k,
                    i as int,
                    m as int,
                ),
        decreases n - i,
    {
        let ghost before = values(point@);
        assert(space[i as int].len() == m);
        let mut j: usize = 0;
        while j < m
            invariant
                j <= m,
                i < n,
                n == control_points@.len(),
                space == space_values(control_points@),
                grid == grid_values(weights@),
                rectangular(grid),
                uniform(space),
                same_shape(grid, space),
                control_points@[i as int]@.len() == m,
                columns(grid) == m,
                depth(space) == d,
                n + degree_u < knots_u@.len(),
                m + degree_v < knots_v@.len(),
                point@.len() == d,
                before.len() == d,
                forall|k: int|
                    0 <= k < d ==> (#[trigger] point@[k])@ == before[k] + surface_row_coordinate(
                        values(knots_u@),
                        values(knots_v@),
                        grid,
                        space,
                        degree_u as nat,
                        degree_v as nat,
                        u@,
                        v@,
                        k,
                        i as int,
                        j as int,
                    ),
            decreases m - j,
        {
            let share = rational_bspline_basis_surface(
                i,
                j,
                degree_u,
                degree_v,
                knots_u,
                knots_v,
                weights,
                u,
                v,
            );
            let ghost row = values(point@);
            assert(space[i as int][j as int].len() == d);
            let mut k: usize = 0;
            while k < d
                invariant
                    k <= d,
                    i < n,
                    j < m,
                    n == control_points@.len(),
                    space == space_values(control_points@),
                    control_points@[i as int]@.len() == m,
                    control_points@[i as int]@[j as int]@.len() == d,
                    point@.len() == d,
                    row.len() == d,
                    forall|c: int|
                        0 <= c < k ==> (#[trigger] point@[c])@ == row[c] + share@
                            * space[i as int][j as int][c],
                    forall|c: int| k <= c < d ==> (#[trigger] point@[c])@ == row[c],
                decreases d - k,
            {
                let moved = point[k].add(&share.mul(&control_points[i][j][k]));
                proof {
                    assert(space[i as int][j as int][k as int]
                        == control_points@[i as int]@[j as int]@[k as int]@);
                }
                point.set(k, moved);
                k += 1;
            }
            j += 1;
        }
        i += 1;
    }
    assert(values(point@) =~= surface_point(
        values(knots_u@),
        values(knots_v@),
        grid,
        space,
        degree_u as nat,
        degree_v as nat,
        u@,
        v@,
    ));
    point
}

/// Whether at `t` the basis function of index `c` is one and every other of the first `n` is
/// zero.
spec fn only_one(knots: Seq<real>, degree: nat, t: real, c: int, n: int) -> bool {
    forall|j: int|
        0 <= j < n ==> #[trigger] basis(knots, j, degree, t) == if j == c {
            1real
        } else {
            0real
        }
}

proof fn lemma_only_weight(
    knots: Seq<real>,
    weights: Seq<real>,
    degree: nat,
    t: real,
    c: int,
    n: int,
)
    requires
        0 <= c,
        0 <= n <= weights.len(),
        only_one(knots, degree, t, c, weights.len() as int),
    ensures
        weighted_sum(knots, weights, degree, t, n) == if c < n {
            weights[c]
        } else {
            0real
        },
    decreases n,
{
    if n > 0 {
        lemma_only_weight(knots, weights, degree, t, c, n - 1);
        let b = basis(knots, n - 1, degree, t);
        let w = weights[n - 1];
        assert(w * b == if n - 1 == c {
            w
        } else {
            0real
        }) by (nonlinear_arith)
            requires
                b == if n - 1 == c {
                    1real
                } else {
                    0real
                },
        ;
    }
}

proof fn lemma_only_point(
    knots: Seq<real>,
    weights: Seq<real>,
    control_points: Seq<Seq<real>>,
    degree: nat,
    t: real,
    c: int,
    k: int,
    n: int,
)
    requires
        0 <= c < weights.len(),
        0 <= n <= weights.len(),
        only_one(knots, degree, t, c, weights.len() as int),
        abs(weights[c]) >= epsilon(),
    ensures
        curve_coordinate(knots, weights, control_points, degree, t, k, n) == if c < n {
            control_points[c][k]
        } else {
            0real
        },
    decreases n,
{
    if n > 0 {
        lemma_only_point(knots, weights, control_points, degree, t, c, k, n - 1);
        lemma_only_weight(knots, weights, degree, t, c, weights.len() as int);
        lemma_epsilon_positive();
        let b = basis(knots, n - 1, degree, t);
        let w = weights[n - 1];
        let total = weights[c];
        let x = control_points[n - 1][k];
        let share = rational_basis_curve(knots, weights, n - 1, degree, t);
        assert(share == normalized(w * b, total));
        assert(share * x == if n - 1 == c {
            x
        } else {
            0real
        }) by (nonlinear_arith)
            requires
                share == (w * b) / total,
                total != 0real,
                n - 1 == c ==> w == total,
                b == if n - 1 == c {
                    1real
                } else {
                    0real
                },
        ;
    }
}

/// Where at `t` one basis function is one and the others are zero, and the weight of that
/// one is at least `epsilon()` away from zero, the curve passes through its control point.
proof fn lemma_passes_through(
    knots: Seq<real>,
    weights: Seq<real>,
    control_points: Seq<Seq<real>>,
    degree: nat,
    t: real,
    c: int,
)
    requires
        weights.len() == control_points.len(),
        rectangular(control_points),
        0 <= c < weights.len(),
        only_one(knots, degree, t, c, weights.len() as int),
        abs(weights[c]) >= epsilon(),
    ensures
        curve_point(knots, weights, control_points, degree, t) == control_points[c],
{
    let point = curve_point(knots, weights, control_points, degree, t);
    assert(control_points[c].len() == columns(control_points));
    assert forall|k: int| 0 <= k < point.len() implies point[k] == control_points[c][k] by {
        lemma_only_point(
            knots,
            weights,
            control_points,
            degree,
            t,
            c,
            k,
            control_points.len() as int,
        );
    }
    assert(point =~= control_points[c]);
}

/// Interpolation at the start: over a knot vector clamped at its start, a curve takes the
/// value of its first control point at the first knot, where the weight of that point is at
/// least `epsilon()` away from zero.
pub proof fn law_interpolates_first_point(
    knots: Seq<real>,
    weights: Seq<real>,
    control_points: Seq<Seq<real>>,
    degree: nat,
)
    requires
        non_decreasing(knots),
        clamped_start(knots, degree),
        weights.len() == control_points.len(),
        0 < control_points.len(),
        control_points.len() + degree < knots.len(),
        rectangular(control_points),
        abs(weights[0]) >= epsilon(),
    ensures
        curve_point(knots, weights, control_points, degree, knots[0]) == control_points[0],
{
    assert forall|j: int| 0 <= j < weights.len() implies #[trigger] basis(
        knots,
        j,
        degree,
        knots[0],
    ) == if j == 0 {
        1real
    } else {
        0real
    } by {
        law_basis_at_clamped_start(knots, degree, j, degree);
    }
    lemma_passes_through(knots, weights, control_points, degree, knots[0], 0);
}

/// Interpolation at the end, for degree zero: at the last knot a curve of degree zero takes
/// the value of its last control point, where the weight of that point is at least
/// `epsilon()` away from zero.
pub proof fn law_interpolates_last_point(
    knots: Seq<real>,
    weights: Seq<real>,
    control_points: Seq<Seq<real>>,
)
    requires
        non_decreasing(knots),
        weights.len() == control_points.len(),
        0 < control_points.len(),
        control_points.len() + 1 == knots.len(),
        rectangular(control_points),
        abs(weights[weights.len() - 1]) >= epsilon(),
    ensures
        curve_point(knots, weights, control_points, 0, knots[knots.len() - 1])
            == control_points[control_points.len() - 1],
{
    let last = weights.len() - 1;
    assert forall|j: int| 0 <= j < weights.len() implies #[trigger] basis(
        knots,
        j,
        0,
        knots[knots.len() - 1],
    ) == if j == last {
        1real
    } else {
        0real
    } by {
        law_degree_zero_at_last_knot(knots, j);
    }
    lemma_passes_through(knots, weights, control_points, 0, knots[knots.len() - 1], last);
}

proof fn lemma_weightless(knots: Seq<real>, weights: Seq<real>, degree: nat, t: real, n: int)
    requires
        0 <= n <= weights.len(),
        forall|j: int| 0 <= j < weights.len() ==> #[trigger] basis(knots, j, degree, t) == 0real,
    ensures
        weighted_sum(knots, weights, degree, t, n) == 0real,
    decreases n,
{
    if n > 0 {
        lemma_weightless(knots, weights, degree, t, n - 1);
        assert(weights[n - 1] * basis(knots, n - 1, degree, t) == 0real) by (nonlinear_arith)
            requires
                basis(knots, n - 1, degree, t) == 0real,
        ;
    }
}

proof fn lemma_pointless(
    knots: Seq<real>,
    weights: Seq<real>,
    control_points: Seq<Seq<real>>,
    degree: nat,
    t: real,
    k: int,
    n: int,
)
    requires
        0 <= n <= weights.len(),
        forall|j: int| 0 <= j < weights.len() ==> #[trigger] basis(knots, j, degree, t) == 0real,
    ensures
        curve_coordinate(knots, weights, control_points, degree, t, k, n) == 0real,
    decreases n,
{
    if n > 0 {
        lemma_pointless(knots, weights, control_points, degree, t, k, n - 1);
        lemma_weightless(knots, weights, degree, t, weights.len() as int);
        lemma_epsilon_positive();
        let share = rational_basis_curve(knots, weights, n - 1, degree, t);
        assert(share == 0real);
        assert(share * control_points[n - 1][k] == 0real) by (nonlinear_arith)
            requires
                share == 0real,
        ;
    }
}

/// At the last knot a curve of degree one or more is at the origin: every basis function is
/// zero there, and so is the normalising sum.
pub proof fn law_origin_at_last_knot(
    knots: Seq<real>,
    weights: Seq<real>,
    control_points: Seq<Seq<real>>,
    degree: nat,
    k: int,
)
    requires
        non_decreasing(knots),
        degree >= 1,
        weights.len() == control_points.len(),
        control_points.len() + degree < knots.len(),
        0 <= k < columns(control_points),
    ensures
        curve_point(knots, weights, control_points, degree, knots[knots.len() - 1])[k] == 0real,
{
    let t = knots[knots.len() - 1];
    assert forall|j: int| 0 <= j < weights.len() implies #[trigger] basis(knots, j, degree, t)
        == 0real by {
        law_zero_at_last_knot(knots, j, degree);
    }
    lemma_pointless(knots, weights, control_points, degree, t, k, control_points.len() as int);
}

} // verus!
