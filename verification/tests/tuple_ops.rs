use raymath::compare::equal;
use raymath::scalar::Scalar;
use raymath::tuple::Tuple;

fn s(n: i32, d: i32) -> Scalar {
    Scalar::from_ratio(n, d)
}

fn si(n: i32) -> Scalar {
    Scalar::from_int(n)
}

#[test]
fn tuple_tuple_point() {
    let x = Tuple::new_point(s(43, 10), s(-42, 10), s(31, 10));
    assert!(equal(&x.x, &s(43, 10)));
    assert!(equal(&x.y, &s(-42, 10)));
    assert!(equal(&x.z, &s(31, 10)));
    assert_eq!(x.is_vector(), false);
    assert_eq!(x.is_point(), true);
}

#[test]
fn tuple_tuple_vector() {
    let x = Tuple::new_vector(s(43, 10), s(-42, 10), s(31, 10));
    assert!(equal(&x.x, &s(43, 10)));
    assert!(equal(&x.y, &s(-42, 10)));
    assert!(equal(&x.z, &s(31, 10)));
    assert_eq!(x.is_vector(), true);
    assert_eq!(x.is_point(), false);
}

#[test]
fn tuple_compare_tuples_equal() {
    let x = Tuple::new_point(s(51, 10), s(34, 10), s(-14, 10));
    let y = Tuple::new_point(s(51, 10), s(34, 10), s(-14, 10));
    assert_eq!(x.equals(&y), true);
}

#[test]
fn tuple_compare_tuples_not_equal() {
    let x = Tuple::new_point(s(52, 10), s(34, 10), s(-14, 10));
    let y = Tuple::new_point(s(51, 10), s(34, 10), s(-14, 10));
    assert_eq!(x.equals(&y), false);
}

#[test]
fn tuple_add_tuples() {
    let x = Tuple::new_vector(si(3), si(-2), si(5));
    let y = Tuple::new_point(si(-2), si(3), si(1));
    let result = x.add(&y).unwrap();
    let expected = Tuple::new_tuple(si(1), si(1), si(6), si(1));
    assert_eq!(result.equals(&expected), true);
}

#[test]
fn lib_tuple_point() {
    let x = Tuple::new_point(s(43, 10), s(-42, 10), s(31, 10));
    assert!(equal(&x.x, &s(43, 10)));
    assert!(equal(&x.y, &s(-42, 10)));
    assert!(equal(&x.z, &s(31, 10)));
    assert_eq!(x.is_vector(), false);
    assert_eq!(x.is_point(), true);
}

#[test]
fn lib_tuple_vector() {
    let x = Tuple::new_vector(s(43, 10), s(-42, 10), s(31, 10));
    assert!(equal(&x.x, &s(43, 10)));
    assert!(equal(&x.y, &s(-42, 10)));
    assert!(equal(&x.z, &s(31, 10)));
    assert_eq!(x.is_vector(), true);
    assert_eq!(x.is_point(), false);
}

#[test]
fn lib_compare_tuples_equal() {
    let x = Tuple::new_point(s(51, 10), s(34, 10), s(-14, 10));
    let y = Tuple::new_point(s(51, 10), s(34, 10), s(-14, 10));
    assert_eq!(x.equals(&y), true);
}

#[test]
fn lib_compare_tuples_not_equal() {
    let x = Tuple::new_point(s(52, 10), s(34, 10), s(-14, 10));
    let y = Tuple::new_point(s(51, 10), s(34, 10), s(-14, 10));
    assert_eq!(x.equals(&y), false);
}

#[test]
fn lib_add_tuples() {
    let x = Tuple::new_vector(si(3), si(-2), si(5));
    let y = Tuple::new_point(si(-2), si(3), si(1));
    let result = x.add(&y).unwrap();
    let expected = Tuple::new_tuple(si(1), si(1), si(6), si(1));
    assert_eq!(result.equals(&expected), true);
}

#[test]
fn point_minus_vector() {
    let x = Tuple::new_point(si(3), si(2), si(1));
    let y = Tuple::new_vector(si(5), si(6), si(7));
    let result = x.subtract(&y).unwrap();
    let expected = Tuple::new_point(si(-2), si(-4), si(-6));
    assert_eq!(result.equals(&expected), true);
}

#[test]
fn vector_minus_vector() {
    let x = Tuple::new_vector(si(3), si(2), si(1));
    let y = Tuple::new_vector(si(5), si(6), si(7));
    let result = x.subtract(&y).unwrap();
    let expected = Tuple::new_vector(si(-2), si(-4), si(-6));
    assert_eq!(result.equals(&expected), true);
}

#[test]
fn negate_tuple() {
    let x = Tuple::new_tuple(si(1), si(-2), si(3), si(-4)).negate();
    let expect = Tuple::new_tuple(si(-1), si(2), si(-3), si(4));
    assert_eq!(x.equals(&expect), true);
}

#[test]
fn scale_tuple() {
    let x = Tuple::new_tuple(si(1), si(-2), si(3), si(-4));
    let x = x.multiply_scalar(&s(35, 10)).unwrap();
    let expect = Tuple::new_tuple(s(35, 10), si(-7), s(105, 10), si(-14));
    assert_eq!(x.equals(&expect), true);
}

#[test]
fn divide_tuple() {
    let x = Tuple::new_tuple(si(1), si(-2), si(3), si(-4));
    let x = x.divide_scalar(&si(2)).unwrap();
    let expect = Tuple::new_tuple(s(5, 10), si(-1), s(15, 10), si(-2));
    assert_eq!(x.equals(&expect), true);
}

#[test]
fn magnitude_1() {
    let x = Tuple::new_vector(si(1), si(0), si(0));
    assert!(equal(&x.magnitude().unwrap(), &si(1)));
}

#[test]
fn magnitude_2() {
    let x = Tuple::new_vector(si(0), si(1), si(0));
    assert!(equal(&x.magnitude().unwrap(), &si(1)));
}

#[test]
fn magnitude_3() {
    let x = Tuple::new_vector(si(0), si(0), si(1));
    assert!(equal(&x.magnitude().unwrap(), &si(1)));
}

#[test]
fn magnitude_4() {
    // the square root of 14, to the serialized granularity
    let x = Tuple::new_vector(si(1), si(2), si(3));
    assert!(equal(&x.magnitude().unwrap(), &s(374166, 100000)));
}

#[test]
fn magnitude_5() {
    let x = Tuple::new_vector(si(-1), si(-2), si(-3));
    assert!(equal(&x.magnitude().unwrap(), &s(374166, 100000)));
}

#[test]
fn normalize_1() {
    let x = Tuple::new_vector(si(4), si(0), si(0));
    let expect = Tuple::new_vector(si(1), si(0), si(0));
    assert_eq!(x.normalize().unwrap().equals(&expect), true);
}

#[test]
fn normalize_2() {
    // components divided by the square root of 14
    let x = Tuple::new_vector(si(1), si(2), si(3));
    let expect = Tuple::new_vector(s(26726, 100000), s(53452, 100000), s(80178, 100000));
    assert_eq!(x.normalize().unwrap().equals(&expect), true);
}

#[test]
fn normalize_3() {
    let x = Tuple::new_vector(si(1), si(2), si(3));
    let m = x.normalize().unwrap().magnitude().unwrap();
    assert!(equal(&m, &si(1)));
}

#[test]
fn dot_1() {
    let a = Tuple::new_vector(si(1), si(2), si(3));
    let b = Tuple::new_vector(si(2), si(3), si(4));
    let result = a.dot(&b).unwrap();
    assert_eq!(equal(&result, &si(20)), true);
}

#[test]
fn cross_1() {
    let a = Tuple::new_vector(si(1), si(2), si(3));
    let b = Tuple::new_vector(si(2), si(3), si(4));
    let ab_result = a.cross(&b).unwrap();
    let ab_expect = Tuple::new_vector(si(-1), si(2), si(-1));
    assert_eq!(ab_result.equals(&ab_expect), true);
}

#[test]
fn cross_2() {
    let a = Tuple::new_vector(si(1), si(2), si(3));
    let b = Tuple::new_vector(si(2), si(3), si(4));
    let ba_result = b.cross(&a).unwrap();
    let ba_expect = Tuple::new_vector(si(1), si(-2), si(1));
    assert_eq!(ba_result.equals(&ba_expect), true);
}

#[test]
fn normalize_zero_vector_is_none() {
    let x = Tuple::new_vector(si(0), si(0), si(0));
    assert!(x.normalize().is_none());
}

#[test]
fn normalize_tiny_vector_has_unit_norm() {
    // the magnitude is tiny, yet the normalized tuple still has unit norm
    let x = Tuple::new_vector(s(3, 100000), s(4, 100000), si(0));
    let n = x.normalize().unwrap();
    assert!(n.equals(&Tuple::new_vector(s(6, 10), s(8, 10), si(0))));
    let m = n.magnitude().unwrap();
    assert!(equal(&m, &si(1)));
}

#[test]
fn magnitude_of_tiny_vector_is_relative() {
    // the square root keeps ten significant digits even far below one:
    // sqrt(2) times ten to the minus five
    let x = Tuple::new_vector(s(1, 100000), s(1, 100000), si(0));
    let m = x.magnitude().unwrap();
    assert_eq!(m.numer(), 7071067811);
    assert_eq!(m.denom(), 500000000000000);
}

#[test]
fn normalize_very_small_vector_components() {
    // each component is a single hundred-thousandth; the result still
    // lands on half the square root of two, per component
    let x = Tuple::new_vector(s(1, 100000), s(1, 100000), si(0));
    let n = x.normalize().unwrap();
    let expect = Tuple::new_vector(s(70711, 100000), s(70711, 100000), si(0));
    assert!(n.equals(&expect));
}
