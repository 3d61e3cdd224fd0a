use bsfun::{BigInt, BigNat, Rational};

#[test]
fn natural_addition_carries_across_limbs() {
    let max = BigNat::from_u64(u64::MAX);
    let sum = max.add(&BigNat::from_u64(1));
    assert!(sum.equals(&BigNat::from_limbs(vec![0, 0, 1])));
    assert!(!sum.equals(&max));
    let small = BigNat::from_u64(0xffff_ffff).add(&BigNat::from_u64(1));
    assert!(small.equals(&BigNat::from_u64(0x1_0000_0000)));
}

#[test]
fn natural_subtraction_borrows_across_limbs() {
    let big = BigNat::from_limbs(vec![0, 0, 1]);
    let diff = big.sub(&BigNat::from_u64(1));
    assert!(diff.equals(&BigNat::from_u64(u64::MAX)));
    let zero = big.sub(&big);
    assert!(zero.is_zero());
    assert!(BigNat::from_u64(1000).sub(&BigNat::from_u64(1)).equals(&BigNat::from_u64(999)));
}

#[test]
fn natural_multiplication() {
    let a = BigNat::from_u64(0xffff_ffff_ffff_ffff);
    let square = a.mul(&a);
    // (2^64 - 1)^2 = 2^128 - 2^65 + 1
    assert!(square.equals(&BigNat::from_limbs(vec![1, 0, 0xffff_fffe, 0xffff_ffff])));
    assert!(BigNat::from_u64(123456789).mul(&BigNat::from_u64(987654321)).equals(
        &BigNat::from_u64(121932631112635269)
    ));
    assert!(a.mul(&BigNat::zero()).is_zero());
    assert!(BigNat::zero().mul(&a).is_zero());
    assert!(a.mul_limb(2).equals(&BigNat::from_limbs(vec![0xffff_fffe, 0xffff_ffff, 1])));
    assert!(a.shift_limb().equals(&BigNat::from_limbs(vec![0, 0xffff_ffff, 0xffff_ffff])));
}

#[test]
fn natural_order_ignores_leading_zero_limbs() {
    let padded = BigNat::from_limbs(vec![7, 0, 0, 0]);
    let plain = BigNat::from_u64(7);
    assert!(padded.equals(&plain));
    assert!(padded.le(&plain) && plain.le(&padded));
    assert!(BigNat::from_u64(6).le(&padded));
    assert!(!padded.le(&BigNat::from_u64(6)));
    assert!(BigNat::from_limbs(vec![0xffff_ffff]).le(&BigNat::from_limbs(vec![0, 1])));
    assert!(!BigNat::from_limbs(vec![0, 1]).le(&BigNat::from_limbs(vec![0xffff_ffff])));
    assert!(BigNat::from_limbs(vec![0, 0]).is_zero());
    assert!(!padded.is_zero());
}

#[test]
fn natural_limbs_round_trip() {
    let n = BigNat::from_u64(0x1234_5678_9abc_def0);
    let limbs = n.to_limbs();
    assert!(BigNat::from_limbs(limbs).equals(&n));
    assert!(n.clone().equals(&n));
    assert!(n.equals(&BigNat::from_limbs(vec![0x9abc_def0, 0x1234_5678])));
}

#[test]
fn integer_arithmetic_with_signs() {
    let a = BigInt::from_i64(-7);
    let b = BigInt::from_i64(5);
    assert!(a.add(&b).equals(&BigInt::from_i64(-2)));
    assert!(b.add(&a).equals(&BigInt::from_i64(-2)));
    assert!(a.sub(&b).equals(&BigInt::from_i64(-12)));
    assert!(b.sub(&a).equals(&BigInt::from_i64(12)));
    assert!(a.mul(&b).equals(&BigInt::from_i64(-35)));
    assert!(a.mul(&a).equals(&BigInt::from_i64(49)));
    assert!(a.neg().equals(&BigInt::from_i64(7)));
    assert!(a.abs().equals(&BigNat::from_u64(7)));
    assert!(a.is_negative() && !b.is_negative());
    assert!(a.add(&a.neg()).is_zero());
    assert!(!a.add(&a.neg()).is_negative());
    assert!(BigInt::zero().neg().equals(&BigInt::zero()));
    assert!(!BigInt::zero().neg().is_negative());
}

#[test]
fn integer_order() {
    let low = BigInt::from_i64(i64::MIN);
    let high = BigInt::from_i64(i64::MAX);
    assert!(low.lt(&high) && low.le(&high) && !high.le(&low));
    assert!(low.add(&high).equals(&BigInt::from_i64(-1)));
    assert!(BigInt::from_i64(-3).lt(&BigInt::from_i64(-2)));
    assert!(BigInt::from_i64(-3).le(&BigInt::from_i64(-3)));
    assert!(BigInt::zero().le(&BigInt::zero().neg()));
    assert!(BigInt::from_nat(BigNat::from_u64(9)).equals(&BigInt::from_i64(9)));
    assert!(low.abs().equals(&BigNat::from_u64(1u64 << 63)));
}

#[test]
fn rational_arithmetic() {
    let half = Rational::from_ratio(1, 2);
    let third = Rational::from_ratio(1, 3);
    assert_eq!(half.add(&third), Rational::from_ratio(5, 6));
    assert_eq!(half.sub(&third), Rational::from_ratio(1, 6));
    assert_eq!(third.sub(&half), Rational::from_ratio(-1, 6));
    assert_eq!(half.mul(&third), Rational::from_ratio(1, 6));
    assert_eq!(half.div(&third), Rational::from_ratio(3, 2));
    assert_eq!(half.div(&third.neg()), Rational::from_ratio(-3, 2));
    assert_eq!(half.neg().div(&third.neg()), Rational::from_ratio(3, 2));
    assert_eq!(half.neg().abs(), half);
    assert_eq!(half.abs(), half);
    assert_eq!(half.clone(), half);
    assert_ne!(half, third);
}

#[test]
fn rational_equality_does_not_depend_on_the_fraction() {
    assert_eq!(Rational::from_ratio(2, 4), Rational::from_ratio(1, 2));
    assert_eq!(Rational::from_ratio(-3, -6), Rational::from_ratio(1, 2));
    assert_eq!(Rational::from_ratio(3, -6), Rational::from_ratio(-1, 2));
    assert_eq!(Rational::from_ratio(0, 5), Rational::zero());
    assert_eq!(Rational::from_ratio(7, 7), Rational::one());
    assert_eq!(Rational::from_i64(-4), Rational::from_ratio(8, -2));
}

#[test]
fn rational_order_and_sign() {
    let a = Rational::from_ratio(-1, 3);
    let b = Rational::from_ratio(1, 4);
    assert!(a.lt(&b) && a.le(&b) && b.gt(&a) && b.ge(&a));
    assert!(!b.lt(&a) && !b.le(&a));
    assert!(a.le(&a) && a.ge(&a) && !a.lt(&a) && !a.gt(&a));
    assert!(a.is_negative() && !b.is_negative());
    assert!(!a.is_zero() && Rational::zero().is_zero());
    assert!(Rational::from_ratio(1, 3).lt(&Rational::from_ratio(3334, 10000)));
    assert!(Rational::from_ratio(1, 3).gt(&Rational::from_ratio(3333, 10000)));
}

#[test]
fn rational_parts() {
    let q = Rational::from_ratio(6, -8);
    let rebuilt = Rational::new(q.numer(), q.denom()).unwrap();
    assert_eq!(rebuilt, q);
    assert!(!q.denom().is_zero());
    assert!(Rational::new(BigInt::from_i64(1), BigNat::zero()).is_none());
    assert_eq!(
        Rational::new(BigInt::from_i64(-9), BigNat::from_u64(12)).unwrap(),
        Rational::from_ratio(-3, 4)
    );
}
