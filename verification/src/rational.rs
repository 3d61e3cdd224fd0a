//! Rational numbers of unbounded size, viewed as the real numbers they stand for.
use crate::bigint::BigInt;
use crate::bignat::BigNat;
use vstd::prelude::*;

verus! {

/// The real number `n / d`.
pub open spec fn ratio(n: int, d: int) -> real {
    (n as real) / (d as real)
}

/// The real numbers that a sequence of rationals stands for.
pub open spec fn values(s: Seq<Rational>) -> Seq<real> {
    Seq::new(s.len(), |j: int| s[j]@)
}

/// The rows of real numbers that a sequence of rows of rationals stands for.
pub open spec fn grid_values(s: Seq<Vec<Rational>>) -> Seq<Seq<real>> {
    Seq::new(s.len(), |j: int| values(s[j]@))
}

/// The grid of rows of real numbers that a sequence of grids of rationals stands for.
pub open spec fn space_values(s: Seq<Vec<Vec<Rational>>>) -> Seq<Seq<Seq<real>>> {
    Seq::new(s.len(), |j: int| grid_values(s[j]@))
}

/// The absolute value of a real number.
pub open spec fn abs(x: real) -> real {
    if x < 0real {
        -x
    } else {
        x
    }
}

/// The real number of a product is the product of the real numbers.
proof fn lemma_cast_mul(x: int, y: int)
    ensures
        (x * y) as real == (x as real) * (y as real),
{
    assert((x * y) as real == (x as real) * (y as real)) by (nonlinear_arith);
}

/// Fractions add by cross-multiplying.
pub proof fn lemma_ratio_add(an: int, ad: int, bn: int, bd: int)
    requires
        ad != 0,
        bd != 0,
    ensures
        ratio(an * bd + bn * ad, ad * bd) == ratio(an, ad) + ratio(bn, bd),
{
    let x = an as real;
    let y = ad as real;
    let z = bn as real;
    let w = bd as real;
    lemma_cast_mul(an, bd);
    lemma_cast_mul(bn, ad);
    lemma_cast_mul(ad, bd);
    assert((an * bd + bn * ad) as real == x * w + z * y);
    assert((x * w + z * y) / (y * w) == x / y + z / w) by (nonlinear_arith)
        requires
            y != 0real,
            w != 0real,
    ;
}

/// Fractions multiply part by part.
pub proof fn lemma_ratio_mul(an: int, ad: int, bn: int, bd: int)
    requires
        ad != 0,
        bd != 0,
    ensures
        ratio(an * bn, ad * bd) == ratio(an, ad) * ratio(bn, bd),
{
    let x = an as real;
    let y = ad as real;
    let z = bn as real;
    let w = bd as real;
    lemma_cast_mul(an, bn);
    lemma_cast_mul(ad, bd);
    assert((x * z) / (y * w) == (x / y) * (z / w)) by (nonlinear_arith)
        requires
            y != 0real,
            w != 0real,
    ;
}

/// Dividing by a fraction multiplies by it turned over.
pub proof fn lemma_ratio_div(an: int, ad: int, bn: int, bd: int)
    requires
        ad != 0,
        bd != 0,
        bn != 0,
    ensures
        ratio(an * bd, ad * bn) == ratio(an, ad) / ratio(bn, bd),
{
    let x = an as real;
    let y = ad as real;
    let z = bn as real;
    let w = bd as real;
    lemma_cast_mul(an, bd);
    lemma_cast_mul(ad, bn);
    assert((x * w) / (y * z) == (x / y) / (z / w)) by (nonlinear_arith)
        requires
            y != 0real,
            w != 0real,
            z != 0real,
    ;
}

/// A sign moves between a fraction and either of its parts.
pub proof fn lemma_ratio_neg(n: int, d: int)
    requires
        d != 0,
    ensures
        ratio(-n, d) == -ratio(n, d),
        ratio(n, -d) == -ratio(n, d),
{
    let x = n as real;
    let y = d as real;
    assert((-n) as real == -x);
    assert((-d) as real == -y);
    assert((-x) / y == -(x / y)) by (nonlinear_arith)
        requires
            y != 0real,
    ;
    assert(x / (-y) == -(x / y)) by (nonlinear_arith)
        requires
            y != 0real,
    ;
}

/// Fractions with positive denominators compare by cross-multiplying.
pub proof fn lemma_ratio_le(an: int, ad: int, bn: int, bd: int)
    requires
        ad > 0,
        bd > 0,
    ensures
        (an * bd <= bn * ad) == (ratio(an, ad) <= ratio(bn, bd)),
{
    let x = an as real;
    let y = ad as real;
    let z = bn as real;
    let w = bd as real;
    lemma_cast_mul(an, bd);
    lemma_cast_mul(bn, ad);
    assert((an * bd <= bn * ad) == (x * w <= z * y));
    assert((x * w <= z * y) == (x / y <= z / w)) by (nonlinear_arith)
        requires
            y > 0real,
            w > 0real,
    ;
}

/// A fraction with a positive denominator has the sign of its numerator.
pub proof fn lemma_ratio_sign(n: int, d: int)
    requires
        d > 0,
    ensures
        (n < 0) == (ratio(n, d) < 0real),
        (n == 0) == (ratio(n, d) == 0real),
        (n > 0) == (ratio(n, d) > 0real),
{
    let x = n as real;
    let y = d as real;
    assert((x < 0real) == (x / y < 0real) && (x == 0real) == (x / y == 0real) && (x > 0real) == (x
        / y > 0real)) by (nonlinear_arith)
        requires
            y > 0real,
    ;
}

/// A fraction over one is its numerator.
pub proof fn lemma_ratio_whole(n: int)
    ensures
        ratio(n, 1) == n as real,
{
    let x = n as real;
    assert(x / 1real == x) by (nonlinear_arith);
}

/// A rational number of any size.
#[derive(Debug)]
pub struct Rational {
    num: BigInt,
    den: BigNat,
}

impl View for Rational {
    type V = real;

    closed spec fn view(&self) -> real {
        ratio(self.num@, self.den@ as int)
    }
}

impl Rational {
    #[verifier::type_invariant]
    spec fn positive_denominator(self) -> bool {
        self.den@ > 0
    }

    /// Zero.
    pub fn zero() -> (r: Rational)
        ensures
            r@ == 0real,
    {
        Rational::from_i64(0)
    }

    /// One.
    pub fn one() -> (r: Rational)
        ensures
            r@ == 1real,
    {
        Rational::from_i64(1)
    }

    /// The whole number `n`.
    pub fn from_i64(n: i64) -> (r: Rational)
        ensures
            r@ == n as real,
    {
        proof {
            lemma_ratio_whole(n as int);
        }
        Rational { num: BigInt::from_i64(n), den: BigNat::from_u64(1) }
    }

    /// The fraction `n / d`.
    pub fn from_ratio(n: i64, d: i64) -> (r: Rational)
        requires
            d != 0,
        ensures
            r@ == ratio(n as int, d as int),
    {
        let num = BigInt::from_i64(n);
        let signed = BigInt::from_i64(d);
        let den = signed.abs();
        proof {
            lemma_ratio_neg(n as int, d as int);
            lemma_ratio_neg(n as int, -d as int);
        }
        if signed.is_negative() {
            Rational { num: num.neg(), den }
        } else {
            Rational { num, den }
        }
    }

    /// The fraction with the given numerator and denominator, if the denominator is not zero.
    pub fn new(num: BigInt, den: BigNat) -> (r: Option<Rational>)
        ensures
            den@ == 0 <==> r is None,
            r matches Some(q) ==> q@ == ratio(num@, den@ as int),
    {
        if den.is_zero() {
            None
        } else {
            Some(Rational { num, den })
        }
    }

    /// A numerator of this number, over the denominator that `denom` returns.
    pub fn numer(&self) -> (r: BigInt)
        ensures
            self@ == ratio(r@, self.spec_denom() as int),
    {
        self.num.clone()
    }

    /// The denominator that `denom` returns: it is positive.
    pub closed spec fn spec_denom(&self) -> nat {
        self.den@
    }

    /// The denominator of this number.
    pub fn denom(&self) -> (r: BigNat)
        ensures
            r@ == self.spec_denom(),
            r@ > 0,
    {
        proof {
            use_type_invariant(self);
        }
        self.den.clone()
    }

    /// Whether the number is zero.
    pub fn is_zero(&self) -> (r: bool)
        ensures
            r == (self@ == 0real),
    {
        proof {
            use_type_invariant(self);
            lemma_ratio_sign(self.num@, self.den@ as int);
        }
        self.num.is_zero()
    }

    /// Whether the number is below zero.
    pub fn is_negative(&self) -> (r: bool)
        ensures
            r == (self@ < 0real),
    {
        proof {
            use_type_invariant(self);
            lemma_ratio_sign(self.num@, self.den@ as int);
        }
        self.num.is_negative()
    }

    /// The number with its sign turned.
    pub fn neg(&self) -> (r: Rational)
        ensures
            r@ == -self@,
    {
        proof {
            use_type_invariant(self);
            lemma_ratio_neg(self.num@, self.den@ as int);
        }
        Rational { num: self.num.neg(), den: self.den.clone() }
    }

    /// The absolute value.
    pub fn abs(&self) -> (r: Rational)
        ensures
            r@ == abs(self@),
    {
        if self.is_negative() {
            self.neg()
        } else {
            self.clone()
        }
    }

    /// The sum of two numbers.
    pub fn add(&self, other: &Rational) -> (r: Rational)
        ensures
            r@ == self@ + other@,
    {
        proof {
            use_type_invariant(self);
            use_type_invariant(other);
            lemma_ratio_add(self.num@, self.den@ as int, other.num@, other.den@ as int);
            assert(self.den@ * other.den@ > 0) by (nonlinear_arith)
                requires
                    self.den@ > 0,
                    other.den@ > 0,
            ;
        }
        let left = self.num.mul(&BigInt::from_nat(other.den.clone()));
        let right = other.num.mul(&BigInt::from_nat(self.den.clone()));
        Rational { num: left.add(&right), den: self.den.mul(&other.den) }
    }

    /// The difference of two numbers.
    pub fn sub(&self, other: &Rational) -> (r: Rational)
        ensures
            r@ == self@ - other@,
    {
        let turned = other.neg();
        self.add(&turned)
    }

    /// The product of two numbers.
    pub fn mul(&self, other: &Rational) -> (r: Rational)
        ensures
            r@ == self@ * other@,
    {
        proof {
            use_type_invariant(self);
            use_type_invariant(other);
            lemma_ratio_mul(self.num@, self.den@ as int, other.num@, other.den@ as int);
            assert(self.den@ * other.den@ > 0) by (nonlinear_arith)
                requires
                    self.den@ > 0,
                    other.den@ > 0,
            ;
        }
        Rational { num: self.num.mul(&other.num), den: self.den.mul(&other.den) }
    }

    /// The quotient of two numbers, the second not being zero.
    pub fn div(&self, other: &Rational) -> (r: Rational)
        requires
            other@ != 0real,
        ensures
            r@ == self@ / other@,
    {
        proof {
            use_type_invariant(self);
            use_type_invariant(other);
            lemma_ratio_sign(other.num@, other.den@ as int);
            lemma_ratio_div(self.num@, self.den@ as int, other.num@, other.den@ as int);
            assert(self.den@ * other.num@ != 0) by (nonlinear_arith)
                requires
                    self.den@ > 0,
                    other.num@ != 0,
            ;
            lemma_ratio_neg(self.num@ * other.den@, self.den@ * other.num@);
            assert(self.den@ * (-other.num@) == -(self.den@ * other.num@)) by (nonlinear_arith);
            lemma_ratio_neg(self.num@ * other.den@, -(self.den@ * other.num@));
        }
        let scaled = self.num.mul(&BigInt::from_nat(other.den.clone()));
        let den = self.den.mul(&other.num.abs());
        if other.num.is_negative() {
            Rational { num: scaled.neg(), den }
        } else {
            Rational { num: scaled, den }
        }
    }

    /// Whether the first number is at most the second.
    pub fn le(&self, other: &Rational) -> (r: bool)
        ensures
            r == (self@ <= other@),
    {
        proof {
            use_type_invariant(self);
            use_type_invariant(other);
            lemma_ratio_le(self.num@, self.den@ as int, other.num@, other.den@ as int);
        }
        let left = self.num.mul(&BigInt::from_nat(other.den.clone()));
        let right = other.num.mul(&BigInt::from_nat(self.den.clone()));
        left.le(&right)
    }

    /// Whether the first number is below the second.
    pub fn lt(&self, other: &Rational) -> (r: bool)
        ensures
            r == (self@ < other@),
    {
        !other.le(self)
    }

    /// Whether the first number is at least the second.
    pub fn ge(&self, other: &Rational) -> (r: bool)
        ensures
            r == (self@ >= other@),
    {
        other.le(self)
    }

    /// Whether the first number is above the second.
    pub fn gt(&self, other: &Rational) -> (r: bool)
        ensures
            r == (self@ > other@),
    {
        !self.le(other)
    }

    /// Whether the two numbers are equal.
    pub fn equals(&self, other: &Rational) -> (r: bool)
        ensures
            r == (self@ == other@),
    {
        self.le(other) && other.le(self)
    }
}

impl Clone for Rational {
    fn clone(&self) -> (r: Rational)
        ensures
            r@ == self@,
    {
        proof {
            use_type_invariant(self);
        }
        Rational { num: self.num.clone(), den: self.den.clone() }
    }
}

} // verus!
