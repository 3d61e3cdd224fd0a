//! Integers of unbounded size: a sign and a magnitude.
use crate::bignat::BigNat;
use vstd::prelude::*;

verus! {

/// An integer of any size.
#[derive(Debug)]
pub struct BigInt {
    negative: bool,
    magnitude: BigNat,
}

impl View for BigInt {
    type V = int;

    closed spec fn view(&self) -> int {
        if self.negative {
            -(self.magnitude@ as int)
        } else {
            self.magnitude@ as int
        }
    }
}

impl BigInt {
    /// Zero.
    pub fn zero() -> (r: BigInt)
        ensures
            r@ == 0,
    {
        BigInt { negative: false, magnitude: BigNat::zero() }
    }

    /// The integer `x`.
    pub fn from_i64(x: i64) -> (r: BigInt)
        ensures
            r@ == x,
    {
        if x >= 0 {
            BigInt { negative: false, magnitude: BigNat::from_u64(x as u64) }
        } else {
            let below: u64 = (-(x + 1)) as u64;
            BigInt { negative: true, magnitude: BigNat::from_u64(below + 1) }
        }
    }

    /// The natural number `n` as an integer.
    pub fn from_nat(n: BigNat) -> (r: BigInt)
        ensures
            r@ == n@,
    {
        BigInt { negative: false, magnitude: n }
    }

    /// Whether the integer is below zero.
    pub fn is_negative(&self) -> (r: bool)
        ensures
            r == (self@ < 0),
    {
        self.negative && !self.magnitude.is_zero()
    }

    /// Whether the integer is zero.
    pub fn is_zero(&self) -> (r: bool)
        ensures
            r == (self@ == 0),
    {
        self.magnitude.is_zero()
    }

    /// The absolute value.
    pub fn abs(&self) -> (r: BigNat)
        ensures
            r@ == if self@ < 0 {
                -self@
            } else {
                self@
            },
    {
        self.magnitude.clone()
    }

    /// The integer with its sign turned.
    pub fn neg(&self) -> (r: BigInt)
        ensures
            r@ == -self@,
    {
        BigInt { negative: !self.negative, magnitude: self.magnitude.clone() }
    }

    /// The sum of two integers.
    pub fn add(&self, other: &BigInt) -> (r: BigInt)
        ensures
            r@ == self@ + other@,
    {
        if self.negative == other.negative {
            BigInt { negative: self.negative, magnitude: self.magnitude.add(&other.magnitude) }
        } else if other.magnitude.le(&self.magnitude) {
            BigInt { negative: self.negative, magnitude: self.magnitude.sub(&other.magnitude) }
        } else {
            BigInt { negative: other.negative, magnitude: other.magnitude.sub(&self.magnitude) }
        }
    }

    /// The difference of two integers.
    pub fn sub(&self, other: &BigInt) -> (r: BigInt)
        ensures
            r@ == self@ - other@,
    {
        let turned = other.neg();
        self.add(&turned)
    }

    /// The product of two integers.
    pub fn mul(&self, other: &BigInt) -> (r: BigInt)
        ensures
            r@ == self@ * other@,
    {
        let magnitude = self.magnitude.mul(&other.magnitude);
        proof {
            let a = self.magnitude@ as int;
            let b = other.magnitude@ as int;
            assert((-a) * b == -(a * b)) by (nonlinear_arith);
            assert(a * (-b) == -(a * b)) by (nonlinear_arith);
            assert((-a) * (-b) == a * b) by (nonlinear_arith);
        }
        BigInt { negative: self.negative != other.negative, magnitude }
    }

    /// Whether the first integer is at most the second.
    pub fn le(&self, other: &BigInt) -> (r: bool)
        ensures
            r == (self@ <= other@),
    {
        if self.negative {
            if other.negative {
                other.magnitude.le(&self.magnitude)
            } else {
                true
            }
        } else {
            if other.negative {
                self.magnitude.is_zero() && other.magnitude.is_zero()
            } else {
                self.magnitude.le(&other.magnitude)
            }
        }
    }

    /// Whether the first integer is below the second.
    pub fn lt(&self, other: &BigInt) -> (r: bool)
        ensures
            r == (self@ < other@),
    {
        !other.le(self)
    }

    /// Whether the two integers are equal.
    pub fn equals(&self, other: &BigInt) -> (r: bool)
        ensures
            r == (self@ == other@),
    {
        self.le(other) && other.le(self)
    }
}

impl Clone for BigInt {
    fn clone(&self) -> (r: BigInt)
        ensures
            r@ == self@,
    {
        BigInt { negative: self.negative, magnitude: self.magnitude.clone() }
    }
}

} // verus!
