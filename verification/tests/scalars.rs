use raymath::compare::equal;
use raymath::scalar::Scalar;

fn s(n: i32, d: i32) -> Scalar {
    Scalar::from_ratio(n, d)
}

fn si(n: i32) -> Scalar {
    Scalar::from_int(n)
}

#[test]
fn epsilon_equal_reflexive_sample() {
    let x = s(12345, 100);
    assert!(equal(&x, &x));
}

#[test]
fn epsilon_equal_absorbs_tiny_difference() {
    let x = s(123, 100);
    let nudged = x.add(&s(1, 10000000)).unwrap();
    assert_eq!(equal(&x, &nudged), true);
}

#[test]
fn epsilon_equal_rejects_unit_difference() {
    let x = s(123, 100);
    let moved = x.add(&si(1)).unwrap();
    assert_eq!(equal(&x, &moved), false);
}

#[test]
fn from_ratio_reduces() {
    let x = s(15, 10);
    assert_eq!(x.numer(), 3);
    assert_eq!(x.denom(), 2);
}

#[test]
fn from_ratio_negative_denominator() {
    let x = s(3, -6);
    assert_eq!(x.numer(), -1);
    assert_eq!(x.denom(), 2);
}

#[test]
fn addition_is_exact() {
    let x = s(1, 3).add(&s(1, 6)).unwrap();
    assert_eq!(x.numer(), 1);
    assert_eq!(x.denom(), 2);
}

#[test]
fn division_by_zero_is_none() {
    assert!(si(1).div(&si(0)).is_none());
}

#[test]
fn overflow_is_reported_as_none() {
    let big = s(2000000000, 1);
    let sq = big.mul(&big).unwrap();
    assert!(sq.mul(&big).is_none());
}

#[test]
fn floor_rounds_toward_negative_infinity() {
    assert_eq!(s(7, 2).floor(), 3);
    assert_eq!(s(-7, 2).floor(), -4);
    assert_eq!(si(5).floor(), 5);
}

#[test]
fn sqrt_floor_of_two() {
    let r = si(2).sqrt_floor();
    assert_eq!(r.numer(), 141421);
    assert_eq!(r.denom(), 100000);
}

#[test]
fn negation_is_exact() {
    let x = s(3, 4).neg();
    assert_eq!(x.numer(), -3);
    assert_eq!(x.denom(), 4);
}
