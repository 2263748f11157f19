use raymath::color::Color;
use raymath::compare::equal;
use raymath::scalar::Scalar;

fn s(n: i32, d: i32) -> Scalar {
    Scalar::from_ratio(n, d)
}

#[test]
fn color() {
    let x = Color::new_color(s(-5, 10), s(4, 10), s(17, 10));
    assert!(equal(&x.red(), &s(-5, 10)));
    assert!(equal(&x.green(), &s(4, 10)));
    assert!(equal(&x.blue(), &s(17, 10)));
}

#[test]
fn addition() {
    let a = Color::new_color(s(9, 10), s(6, 10), s(75, 100));
    let b = Color::new_color(s(7, 10), s(1, 10), s(25, 100));
    let result = a.add(&b).unwrap();
    let expect = Color::new_color(s(16, 10), s(7, 10), s(1, 1));
    assert_eq!(result.equals(&expect), true);
}

#[test]
fn subtraction() {
    let a = Color::new_color(s(9, 10), s(6, 10), s(75, 100));
    let b = Color::new_color(s(7, 10), s(1, 10), s(25, 100));
    let result = a.subtract(&b).unwrap();
    let expect = Color::new_color(s(2, 10), s(5, 10), s(5, 10));
    assert_eq!(result.equals(&expect), true);
}

#[test]
fn color_multiplication() {
    let a = Color::new_color(s(1, 1), s(2, 10), s(4, 10));
    let b = Color::new_color(s(9, 10), s(1, 1), s(1, 10));
    let result = a.multiply(&b).unwrap();
    let expect = Color::new_color(s(9, 10), s(2, 10), s(4, 100));
    assert_eq!(result.equals(&expect), true);
}

#[test]
fn scale() {
    let result = Color::new_color(s(2, 10), s(3, 10), s(4, 10))
        .multiply_scalar(&Scalar::from_int(2))
        .unwrap();
    let expect = Color::new_color(s(4, 10), s(6, 10), s(8, 10));
    assert_eq!(result.equals(&expect), true);
}
