//! The B-spline basis functions of a knot vector, by the Cox-de Boor recursion.
use crate::rational::{values, Rational};
use vstd::prelude::*;

verus! {

/// One term of the recursion: `num / den * lower`, and zero where `den` is zero.
pub open spec fn blend(num: real, den: real, lower: real) -> real {
    if den == 0real {
        0real
    } else {
        num / den * lower
    }
}

/// The basis function of index `i` and the given degree over `knots`, at `t`.
///
/// At degree zero it is the indicator of the half-open span from knot `i` to knot `i + 1`, and
/// of the last knot itself where the span is the last one.
pub open spec fn basis(knots: Seq<real>, i: int, degree: nat, t: real) -> real
    decreases degree,
{
    if degree == 0 {
        if (knots[i] <= t && t < knots[i + 1]) || (i + 1 == knots.len() - 1 && t == knots[i + 1]) {
            1real
        } else {
            0real
        }
    } else {
        let lower = (degree - 1) as nat;
        blend(t - knots[i], knots[i + degree] - knots[i], basis(knots, i, lower, t)) + blend(
            knots[i + degree + 1] - t,
            knots[i + degree + 1] - knots[i + 1],
            basis(knots, i + 1, lower, t),
        )
    }
}

/// Evaluates the basis function of index `i` and the given degree over `knots` at `t`.
pub fn bspline_basis(i: usize, degree: usize, knots: &[Rational], t: &Rational) -> (r: Rational)
    requires
        i + degree + 1 < knots@.len(),
    ensures
        r@ == basis(values(knots@), i as int, degree as nat, t@),
    decreases degree,
{
    let last = knots.len() - 1;
    if degree == 0 {
        let from = &knots[i];
        let to = &knots[i + 1];
        if (from.le(t) && t.lt(to)) || (i + 1 == last && t.equals(to)) {
            Rational::one()
        } else {
            Rational::zero()
        }
    } else {
        let span = knots[i + degree].sub(&knots[i]);
        let left = if span.is_zero() {
            Rational::zero()
        } else {
            let lower = bspline_basis(i, degree - 1, knots, t);
            t.sub(&knots[i]).div(&span).mul(&lower)
        };
        let next_span = knots[i + degree + 1].sub(&knots[i + 1]);
        let right = if next_span.is_zero() {
            Rational::zero()
        } else {
            let lower = bspline_basis(i + 1, degree - 1, knots, t);
            knots[i + degree + 1].sub(t).div(&next_span).mul(&lower)
        };
        left.add(&right)
    }
}

/// Whether no knot is above the one that follows it.
pub open spec fn non_decreasing(knots: Seq<real>) -> bool {
    forall|i: int| 0 <= i < knots.len() - 1 ==> #[trigger] knots[i] <= knots[i + 1]
}

/// In a non-decreasing knot vector an earlier knot is at most a later one.
pub proof fn lemma_knots_ordered(knots: Seq<real>, i: int, j: int)
    requires
        non_decreasing(knots),
        0 <= i <= j < knots.len(),
    ensures
        knots[i] <= knots[j],
    decreases j - i,
{
    if i < j {
        lemma_knots_ordered(knots, i, j - 1);
        assert(knots[j - 1] <= knots[j - 1 + 1]);
    }
}

/// At degree zero the basis function is one on its span and zero elsewhere. The span is
/// half-open, and closed at the last knot of the vector.
pub proof fn law_degree_zero_indicator(knots: Seq<real>, i: int, t: real)
    ensures
        basis(knots, i, 0, t) == 1real <==> (knots[i] <= t < knots[i + 1] || (i + 1 == knots.len()
            - 1 && t == knots[i + 1])),
        basis(knots, i, 0, t) == 0real <==> !(knots[i] <= t < knots[i + 1] || (i + 1
            == knots.len() - 1 && t == knots[i + 1])),
{
}

/// A basis function is zero outside the knots it spans: where it is not zero, `t` lies from
/// knot `i` up to knot `i + degree + 1`, and reaches that knot only where it is the last of
/// the vector.
pub proof fn law_local_support(knots: Seq<real>, i: int, degree: nat, t: real)
    requires
        non_decreasing(knots),
        0 <= i,
        i + degree + 1 < knots.len(),
        basis(knots, i, degree, t) != 0real,
    ensures
        knots[i] <= t,
        t <= knots[i + degree + 1],
        t < knots[i + degree + 1] || i + degree + 1 == knots.len() - 1,
    decreases degree,
{
    if degree == 0 {
        lemma_knots_ordered(knots, i, i + 1);
    } else {
        let lower = (degree - 1) as nat;
        let left = blend(t - knots[i], knots[i + degree] - knots[i], basis(knots, i, lower, t));
        let right = blend(
            knots[i + degree + 1] - t,
            knots[i + degree + 1] - knots[i + 1],
            basis(knots, i + 1, lower, t),
        );
        assert(basis(knots, i, degree, t) == left + right);
        lemma_knots_ordered(knots, i, i + 1);
        lemma_knots_ordered(knots, i + degree, i + degree + 1);
        if basis(knots, i, lower, t) != 0real {
            law_local_support(knots, i, lower, t);
        } else {
            assert(left == 0real) by (nonlinear_arith)
                requires
                    left == blend(t - knots[i], knots[i + degree] - knots[i], 0real),
            ;
            assert(basis(knots, i + 1, lower, t) != 0real) by (nonlinear_arith)
                requires
                    left == 0real,
                    left + right != 0real,
                    right == blend(
                        knots[i + degree + 1] - t,
                        knots[i + degree + 1] - knots[i + 1],
                        basis(knots, i + 1, lower, t),
                    ),
            ;
            law_local_support(knots, i + 1, lower, t);
        }
    }
}

/// No basis function of a non-decreasing knot vector is negative anywhere.
pub proof fn law_non_negative(knots: Seq<real>, i: int, degree: nat, t: real)
    requires
        non_decreasing(knots),
        0 <= i,
        i + degree + 1 < knots.len(),
    ensures
        basis(knots, i, degree, t) >= 0real,
    decreases degree,
{
    if degree > 0 {
        let lower = (degree - 1) as nat;
        let b0 = basis(knots, i, lower, t);
        let b1 = basis(knots, i + 1, lower, t);
        let n0 = t - knots[i];
        let d0 = knots[i + degree] - knots[i];
        let n1 = knots[i + degree + 1] - t;
        let d1 = knots[i + degree + 1] - knots[i + 1];
        law_non_negative(knots, i, lower, t);
        law_non_negative(knots, i + 1, lower, t);
        lemma_knots_ordered(knots, i, i + degree);
        lemma_knots_ordered(knots, i + 1, i + degree + 1);
        if b0 != 0real {
            law_local_support(knots, i, lower, t);
        }
        if b1 != 0real {
            law_local_support(knots, i + 1, lower, t);
        }
        assert(blend(n0, d0, b0) >= 0real) by (nonlinear_arith)
            requires
                d0 >= 0real,
                b0 >= 0real,
                b0 != 0real ==> n0 >= 0real,
        ;
        assert(blend(n1, d1, b1) >= 0real) by (nonlinear_arith)
            requires
                d1 >= 0real,
                b1 >= 0real,
                b1 != 0real ==> n1 >= 0real,
        ;
    }
}

/// The sum of the basis functions of one degree with index from `lo` up to, not including,
/// `hi`.
pub open spec fn basis_sum(knots: Seq<real>, degree: nat, t: real, lo: int, hi: int) -> real
    decreases hi - lo,
{
    if hi <= lo {
        0real
    } else {
        basis_sum(knots, degree, t, lo, hi - 1) + basis(knots, hi - 1, degree, t)
    }
}

proof fn lemma_sum_split(knots: Seq<real>, degree: nat, t: real, lo: int, mid: int, hi: int)
    requires
        lo <= mid <= hi,
    ensures
        basis_sum(knots, degree, t, lo, hi) == basis_sum(knots, degree, t, lo, mid) + basis_sum(
            knots,
            degree,
            t,
            mid,
            hi,
        ),
    decreases hi - mid,
{
    if mid < hi {
        lemma_sum_split(knots, degree, t, lo, mid, hi - 1);
    }
}

proof fn lemma_sum_of_zeros(knots: Seq<real>, degree: nat, t: real, lo: int, hi: int)
    requires
        forall|i: int| lo <= i < hi ==> basis(knots, i, degree, t) == 0real,
    ensures
        basis_sum(knots, degree, t, lo, hi) == 0real,
    decreases hi - lo,
{
    if lo < hi {
        lemma_sum_of_zeros(knots, degree, t, lo, hi - 1);
    }
}

/// Between two knots that enclose `t` lies a span that holds it.
proof fn lemma_find_span(knots: Seq<real>, lo: int, hi: int, t: real) -> (j: int)
    requires
        0 <= lo < hi < knots.len(),
        knots[lo] <= t < knots[hi],
    ensures
        lo <= j < hi,
        knots[j] <= t < knots[j + 1],
    decreases hi - lo,
{
    if t < knots[hi - 1] {
        lemma_find_span(knots, lo, hi - 1, t)
    } else {
        hi - 1
    }
}

/// With `t` in the span that starts at knot `j`, the functions of degree `degree` up to index
/// `m` sum to those of the degree below, and the part of function `m` that rests on its
/// successor.
proof fn lemma_sum_lowers(knots: Seq<real>, j: int, degree: nat, t: real, m: int)
    requires
        non_decreasing(knots),
        degree >= 1,
        0 <= j - degree <= m <= j,
        j + degree + 1 < knots.len(),
        knots[j] <= t < knots[j + 1],
    ensures
        basis_sum(knots, degree, t, j - degree, m + 1) == basis_sum(
            knots,
            (degree - 1) as nat,
            t,
            j - degree + 1,
            m + 1,
        ) + blend(
            knots[m + degree + 1] - t,
            knots[m + degree + 1] - knots[m + 1],
            basis(knots, m + 1, (degree - 1) as nat, t),
        ),
    decreases m - (j - degree),
{
    let lower = (degree - 1) as nat;
    let first = j - degree;
    let left = blend(t - knots[m], knots[m + degree] - knots[m], basis(knots, m, lower, t));
    let right = blend(
        knots[m + degree + 1] - t,
        knots[m + degree + 1] - knots[m + 1],
        basis(knots, m + 1, lower, t),
    );
    assert(basis(knots, m, degree, t) == left + right);
    assert(basis_sum(knots, degree, t, first, m + 1) == basis_sum(knots, degree, t, first, m)
        + basis(knots, m, degree, t));
    if m == first {
        assert(basis_sum(knots, degree, t, first, first) == 0real);
        assert(basis_sum(knots, lower, t, first + 1, first + 1) == 0real);
        if basis(knots, first, lower, t) != 0real {
            law_local_support(knots, first, lower, t);
        }
        assert(left == 0real) by (nonlinear_arith)
            requires
                left == blend(t - knots[m], knots[m + degree] - knots[m], 0real),
        ;
    } else {
        lemma_sum_lowers(knots, j, degree, t, m - 1);
        let carried = blend(
            knots[m + degree] - t,
            knots[m + degree] - knots[m],
            basis(knots, m, lower, t),
        );
        assert(basis_sum(knots, lower, t, first + 1, m + 1) == basis_sum(
            knots,
            lower,
            t,
            first + 1,
            m,
        ) + basis(knots, m, lower, t));
        lemma_knots_ordered(knots, m, j);
        lemma_knots_ordered(knots, j + 1, m + degree);
        let b = basis(knots, m, lower, t);
        let u = knots[m];
        let v = knots[m + degree];
        assert(carried + left == b) by (nonlinear_arith)
            requires
                u < v,
                carried == blend(v - t, v - u, b),
                left == blend(t - u, v - u, b),
        ;
    }
}

/// With `t` in the span that starts at knot `j`, the `degree + 1` functions of degree `degree`
/// that end at index `j` sum to one.
proof fn lemma_span_sums_to_one(knots: Seq<real>, j: int, degree: nat, t: real)
    requires
        non_decreasing(knots),
        0 <= j - degree,
        j + degree + 1 < knots.len(),
        knots[j] <= t < knots[j + 1],
    ensures
        basis_sum(knots, degree, t, j - degree, j + 1) == 1real,
    decreases degree,
{
    if degree == 0 {
        assert(basis_sum(knots, 0, t, j, j + 1) == basis_sum(knots, 0, t, j, j) + basis(
            knots,
            j,
            0,
            t,
        ));
        assert(basis_sum(knots, 0, t, j, j) == 0real);
    } else {
        let lower = (degree - 1) as nat;
        lemma_sum_lowers(knots, j, degree, t, j);
        lemma_span_sums_to_one(knots, j, lower, t);
        if basis(knots, j + 1, lower, t) != 0real {
            law_local_support(knots, j + 1, lower, t);
        }
        let rest = blend(
            knots[j + degree + 1] - t,
            knots[j + degree + 1] - knots[j + 1],
            basis(knots, j + 1, lower, t),
        );
        assert(rest == 0real) by (nonlinear_arith)
            requires
                rest == blend(knots[j + degree + 1] - t, knots[j + degree + 1] - knots[j + 1], 0real),
        ;
    }
}

/// Partition of unity: over a non-decreasing knot vector, the basis functions of one degree
/// sum to one at every `t` from knot `degree` up to, not including, the knot that follows
/// the last function's index.
pub proof fn law_partition_of_unity(knots: Seq<real>, degree: nat, t: real)
    requires
        non_decreasing(knots),
        degree + 1 < knots.len(),
        knots[degree as int] <= t < knots[knots.len() - degree - 1],
    ensures
        basis_sum(knots, degree, t, 0, knots.len() - degree - 1) == 1real,
{
    let n = knots.len() - degree - 1;
    if degree as int >= n {
        lemma_knots_ordered(knots, n, degree as int);
    }
    let j = lemma_find_span(knots, degree as int, n, t);
    lemma_span_sums_to_one(knots, j, degree, t);
    assert forall|i: int| 0 <= i < j - degree implies basis(knots, i, degree, t) == 0real by {
        if basis(knots, i, degree, t) != 0real {
            law_local_support(knots, i, degree, t);
            lemma_knots_ordered(knots, i + degree + 1, j);
        }
    }
    assert forall|i: int| j + 1 <= i < n implies basis(knots, i, degree, t) == 0real by {
        if basis(knots, i, degree, t) != 0real {
            law_local_support(knots, i, degree, t);
            lemma_knots_ordered(knots, j + 1, i);
        }
    }
    lemma_sum_of_zeros(knots, degree, t, 0, j - degree);
    lemma_sum_of_zeros(knots, degree, t, j + 1, n);
    lemma_sum_split(knots, degree, t, 0, j - degree, n);
    lemma_sum_split(knots, degree, t, j - degree, j + 1, n);
}

/// Whether the knot vector is clamped at its start for the given degree: its first
/// `degree + 1` knots are equal, and the next one lies above them.
pub open spec fn clamped_start(knots: Seq<real>, degree: nat) -> bool {
    &&& degree + 1 < knots.len()
    &&& forall|i: int| 0 <= i <= degree ==> #[trigger] knots[i] == knots[0]
    &&& knots[0] < knots[degree as int + 1]
}

/// At the first knot of a vector clamped at its start for degree `clamp`, the basis function
/// of index `clamp - degree` is one and every other of that degree is zero, for each degree
/// up to `clamp`.
pub proof fn law_basis_at_clamped_start(knots: Seq<real>, clamp: nat, i: int, degree: nat)
    requires
        non_decreasing(knots),
        clamped_start(knots, clamp),
        degree <= clamp,
        0 <= i,
        i + degree + 1 < knots.len(),
    ensures
        basis(knots, i, degree, knots[0]) == if i == clamp - degree {
            1real
        } else {
            0real
        },
    decreases degree,
{
    let t = knots[0];
    if degree == 0 {
        if i < clamp {
            assert(knots[i + 1] == t);
        } else if i > clamp {
            lemma_knots_ordered(knots, clamp as int + 1, i);
            lemma_knots_ordered(knots, i, i + 1);
        } else {
            assert(knots[clamp as int] == t);
        }
    } else {
        let lower = (degree - 1) as nat;
        law_basis_at_clamped_start(knots, clamp, i, lower);
        law_basis_at_clamped_start(knots, clamp, i + 1, lower);
        let b0 = basis(knots, i, lower, t);
        let b1 = basis(knots, i + 1, lower, t);
        let left = blend(t - knots[i], knots[i + degree] - knots[i], b0);
        let right = blend(knots[i + degree + 1] - t, knots[i + degree + 1] - knots[i + 1], b1);
        assert(basis(knots, i, degree, t) == left + right);
        if i == clamp - degree {
            assert(knots[i + 1] == t);
            let span = knots[clamp as int + 1] - t;
            assert(left == 0real) by (nonlinear_arith)
                requires
                    left == blend(t - knots[i], knots[i + degree] - knots[i], 0real),
            ;
            assert(right == 1real) by (nonlinear_arith)
                requires
                    right == blend(span, span, 1real),
                    span > 0real,
            ;
        } else if i == clamp - degree + 1 {
            assert(knots[i] == t);
            assert(left == 0real) by (nonlinear_arith)
                requires
                    left == blend(0real, knots[i + degree] - knots[i], b0),
            ;
            assert(right == 0real) by (nonlinear_arith)
                requires
                    right == blend(
                        knots[i + degree + 1] - t,
                        knots[i + degree + 1] - knots[i + 1],
                        0real,
                    ),
            ;
        } else {
            assert(left == 0real) by (nonlinear_arith)
                requires
                    left == blend(t - knots[i], knots[i + degree] - knots[i], 0real),
            ;
            assert(right == 0real) by (nonlinear_arith)
                requires
                    right == blend(
                        knots[i + degree + 1] - t,
                        knots[i + degree + 1] - knots[i + 1],
                        0real,
                    ),
            ;
        }
    }
}

/// At the last knot of a non-decreasing vector, the basis function of degree zero on the
/// last span is one, and every other of that degree is zero.
pub proof fn law_degree_zero_at_last_knot(knots: Seq<real>, i: int)
    requires
        non_decreasing(knots),
        0 <= i,
        i + 1 < knots.len(),
    ensures
        basis(knots, i, 0, knots[knots.len() - 1]) == if i + 1 == knots.len() - 1 {
            1real
        } else {
            0real
        },
{
    lemma_knots_ordered(knots, i + 1, knots.len() - 1);
}

/// At the last knot of a non-decreasing vector every basis function of degree one or more
/// is zero.
pub proof fn law_zero_at_last_knot(knots: Seq<real>, i: int, degree: nat)
    requires
        non_decreasing(knots),
        degree >= 1,
        0 <= i,
        i + degree + 1 < knots.len(),
    ensures
        basis(knots, i, degree, knots[knots.len() - 1]) == 0real,
{
    let t = knots[knots.len() - 1];
    let lower = (degree - 1) as nat;
    let b0 = basis(knots, i, lower, t);
    let b1 = basis(knots, i + 1, lower, t);
    let left = blend(t - knots[i], knots[i + degree] - knots[i], b0);
    let right = blend(knots[i + degree + 1] - t, knots[i + degree + 1] - knots[i + 1], b1);
    assert(basis(knots, i, degree, t) == left + right);
    lemma_knots_ordered(knots, i + degree, knots.len() - 1);
    lemma_knots_ordered(knots, i + degree + 1, knots.len() - 1);
    if b0 != 0real {
        law_local_support(knots, i, lower, t);
    }
    assert(left == 0real) by (nonlinear_arith)
        requires
            left == blend(t - knots[i], knots[i + degree] - knots[i], 0real),
    ;
    if b1 != 0real {
        law_local_support(knots, i + 1, lower, t);
        assert(knots[i + degree + 1] - t == 0real);
    }
    assert(right == 0real) by (nonlinear_arith)
        requires
            right == blend(knots[i + degree + 1] - t, knots[i + degree + 1] - knots[i + 1], b1),
            b1 == 0real || knots[i + degree + 1] - t == 0real,
    ;
}

} // verus!
