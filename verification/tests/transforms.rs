use raymath::scalar::Scalar;
use raymath::transform::{
    new_rotation_x, new_rotation_y, new_rotation_z, new_scale, new_sheer, new_translation,
};
use raymath::tuple::Tuple;

fn s(n: i32, d: i32) -> Scalar {
    Scalar::from_ratio(n, d)
}

fn si(n: i32) -> Scalar {
    Scalar::from_int(n)
}

// cos and sin of a quarter turn: exact
fn quarter() -> (Scalar, Scalar) {
    (Scalar::from_int(0), Scalar::from_int(1))
}

// cos and sin of an eighth turn: both are half the square root of two,
// to five decimal places
fn eighth() -> (Scalar, Scalar) {
    (s(70711, 100000), s(70711, 100000))
}

#[test]
fn transform_translation() {
    let translation = new_translation(si(5), si(-3), si(2));
    let point = Tuple::new_point(si(-3), si(4), si(5));
    let result = translation.multiply_tuple(&point).unwrap();
    let expected = Tuple::new_point(si(2), si(1), si(7));
    assert!(result.equals(&expected));
}

#[test]
fn transform_reverse_translation() {
    let translation = new_translation(si(5), si(-3), si(2));
    let translation_inverse = translation.inverse().expect("inverse did not work");
    let point = Tuple::new_point(si(-3), si(4), si(5));
    let result = translation_inverse.multiply_tuple(&point).unwrap();
    let expected = Tuple::new_point(si(-8), si(7), si(3));
    assert!(result.equals(&expected));
}

#[test]
fn transform_vector_translation() {
    let translation = new_translation(si(5), si(-3), si(2));
    let vector = Tuple::new_vector(si(-3), si(4), si(5));
    let result = translation.multiply_tuple(&vector).unwrap();
    let expected = Tuple::new_vector(si(-3), si(4), si(5));
    assert!(result.equals(&expected));
}

#[test]
fn transform_scale() {
    let scaling = new_scale(si(2), si(3), si(4));
    let point = Tuple::new_point(si(-4), si(6), si(8));
    let result = scaling.multiply_tuple(&point).unwrap();
    let expected = Tuple::new_point(si(-8), si(18), si(32));
    assert!(result.equals(&expected));
}

#[test]
fn transform_reverse_scale() {
    let scaling = new_scale(si(2), si(3), si(4));
    let scale_inverse = scaling.inverse().expect("inverse did not work");
    let point = Tuple::new_point(si(-4), si(6), si(8));
    let forward = scaling.multiply_tuple(&point).unwrap();
    let result = scale_inverse.multiply_tuple(&forward).unwrap();
    let expected = Tuple::new_point(si(-4), si(6), si(8));
    assert!(result.equals(&expected));
}

#[test]
fn transform_vector_scale() {
    let scaling = new_scale(si(2), si(3), si(4));
    let vector = Tuple::new_vector(si(-4), si(6), si(8));
    let result = scaling.multiply_tuple(&vector).unwrap();
    let expected = Tuple::new_vector(si(-8), si(18), si(32));
    assert!(result.equals(&expected));
}

#[test]
fn transform_scale_reflection() {
    let reflection = new_scale(si(-1), si(1), si(1));
    let point = Tuple::new_point(si(-4), si(6), si(8));
    let result = reflection.multiply_tuple(&point).unwrap();
    let expected = Tuple::new_point(si(4), si(6), si(8));
    assert!(result.equals(&expected));
}

#[test]
fn transform_rotate_x_axis() {
    let (hc, hs) = eighth();
    let (fc, fs) = quarter();
    let rotation_half_quarter = new_rotation_x(hc, hs);
    let rotation_full_quarter = new_rotation_x(fc, fs);
    let point = Tuple::new_point(si(0), si(1), si(0));
    let half_quarter = rotation_half_quarter.multiply_tuple(&point).unwrap();
    let expected_half_quarter = Tuple::new_point(si(0), s(70711, 100000), s(70711, 100000));
    let full_quarter = rotation_full_quarter.multiply_tuple(&point).unwrap();
    let expected_full_quarter = Tuple::new_point(si(0), si(0), si(1));
    assert!(half_quarter.equals(&expected_half_quarter));
    assert!(full_quarter.equals(&expected_full_quarter));
}

#[test]
fn transform_rotate_y_axis() {
    let (hc, hs) = eighth();
    let (fc, fs) = quarter();
    let rotation_half_quarter = new_rotation_y(hc, hs);
    let rotation_full_quarter = new_rotation_y(fc, fs);
    let point = Tuple::new_point(si(0), si(0), si(1));
    let half_quarter = rotation_half_quarter.multiply_tuple(&point).unwrap();
    let full_quarter = rotation_full_quarter.multiply_tuple(&point).unwrap();
    let expected_half_quarter = Tuple::new_point(s(70711, 100000), si(0), s(70711, 100000));
    let expected_full_quarter = Tuple::new_point(si(1), si(0), si(0));
    assert!(half_quarter.equals(&expected_half_quarter));
    assert!(full_quarter.equals(&expected_full_quarter));
}

#[test]
fn transform_rotate_z_axis() {
    let (hc, hs) = eighth();
    let (fc, fs) = quarter();
    let rotation_half_quarter = new_rotation_z(hc, hs);
    let rotation_full_quarter = new_rotation_z(fc, fs);
    let point = Tuple::new_point(si(0), si(1), si(0));
    let half_quarter = rotation_half_quarter.multiply_tuple(&point).unwrap();
    let full_quarter = rotation_full_quarter.multiply_tuple(&point).unwrap();
    let expected_half_quarter = Tuple::new_point(s(-70711, 100000), s(70711, 100000), si(0));
    let expected_full_quarter = Tuple::new_point(si(-1), si(0), si(0));
    assert!(half_quarter.equals(&expected_half_quarter));
    assert!(full_quarter.equals(&expected_full_quarter));
}

#[test]
fn transform_shear_xpy() {
    let sheer = new_sheer(si(1), si(0), si(0), si(0), si(0), si(0));
    let point = Tuple::new_point(si(2), si(3), si(4));
    let result = sheer.multiply_tuple(&point).unwrap();
    let expected = Tuple::new_point(si(5), si(3), si(4));
    assert!(result.equals(&expected));
}

#[test]
fn transform_sheer_xpz() {
    let sheer = new_sheer(si(0), si(1), si(0), si(0), si(0), si(0));
    let point = Tuple::new_point(si(2), si(3), si(4));
    let result = sheer.multiply_tuple(&point).unwrap();
    let expected = Tuple::new_point(si(6), si(3), si(4));
    assert!(result.equals(&expected));
}

#[test]
fn transform_sheer_ypx() {
    let sheer = new_sheer(si(0), si(0), si(1), si(0), si(0), si(0));
    let point = Tuple::new_point(si(2), si(3), si(4));
    let result = sheer.multiply_tuple(&point).unwrap();
    let expected = Tuple::new_point(si(2), si(5), si(4));
    assert!(result.equals(&expected));
}

#[test]
fn transform_sheer_ypz() {
    let sheer = new_sheer(si(0), si(0), si(0), si(1), si(0), si(0));
    let point = Tuple::new_point(si(2), si(3), si(4));
    let result = sheer.multiply_tuple(&point).unwrap();
    let expected = Tuple::new_point(si(2), si(7), si(4));
    assert!(result.equals(&expected));
}

#[test]
fn transform_sheer_zpx() {
    let sheer = new_sheer(si(0), si(0), si(0), si(0), si(1), si(0));
    let point = Tuple::new_point(si(2), si(3), si(4));
    let result = sheer.multiply_tuple(&point).unwrap();
    let expected = Tuple::new_point(si(2), si(3), si(6));
    assert!(result.equals(&expected));
}

#[test]
fn transform_sheer_zpy() {
    let sheer = new_sheer(si(0), si(0), si(0), si(0), si(0), si(1));
    let point = Tuple::new_point(si(2), si(3), si(4));
    let result = sheer.multiply_tuple(&point).unwrap();
    let expected = Tuple::new_point(si(2), si(3), si(7));
    assert!(result.equals(&expected));
}

#[test]
fn transform_combo_1() {
    let point = Tuple::new_point(si(1), si(0), si(1));
    let (fc, fs) = quarter();
    let rotation = new_rotation_x(fc, fs);
    let scaling = new_scale(si(5), si(5), si(5));
    let translate = new_translation(si(10), si(5), si(7));

    let point2 = rotation.multiply_tuple(&point).unwrap();
    let expected_point2 = Tuple::new_point(si(1), si(-1), si(0));

    let point3 = scaling.multiply_tuple(&point2).unwrap();
    let expected_point3 = Tuple::new_point(si(5), si(-5), si(0));

    let point4 = translate.multiply_tuple(&point3).unwrap();
    let expected_point4 = Tuple::new_point(si(15), si(0), si(7));

    assert!(point2.equals(&expected_point2));
    assert!(point3.equals(&expected_point3));
    assert!(point4.equals(&expected_point4));
}

#[test]
fn transform_combo_2() {
    let point = Tuple::new_point(si(1), si(0), si(1));
    let (fc, fs) = quarter();
    let rotate = new_rotation_x(fc, fs);
    let scaling = new_scale(si(5), si(5), si(5));
    let translate = new_translation(si(10), si(5), si(7));

    let full_transform = translate
        .multiply_matrix(&scaling.multiply_matrix(&rotate).unwrap())
        .unwrap();

    let result = full_transform.multiply_tuple(&point).unwrap();
    let expected = Tuple::new_point(si(15), si(0), si(7));
    assert!(result.equals(&expected));
}
