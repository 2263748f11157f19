use raymath::compare::equal;
use raymath::matrix::Matrix;
use raymath::scalar::Scalar;
use raymath::tuple::Tuple;

fn s(n: i32, d: i32) -> Scalar {
    Scalar::from_ratio(n, d)
}

fn si(n: i32) -> Scalar {
    Scalar::from_int(n)
}

fn mi(width: usize, height: usize, vals: &[i32]) -> Matrix {
    let data: Vec<Scalar> = vals.iter().map(|&v| Scalar::from_int(v)).collect();
    Matrix::create_matrix(width, height, data)
}

fn md(width: usize, height: usize, vals: &[(i32, i32)]) -> Matrix {
    let data: Vec<Scalar> = vals.iter().map(|&(n, d)| Scalar::from_ratio(n, d)).collect();
    Matrix::create_matrix(width, height, data)
}

#[test]
fn create_matrix_2x2() {
    let matrix = md(2, 2, &[(15, 10), (25, 10), (95, 10), (45, 10)]);
    assert!(equal(&matrix.get(0, 0), &s(15, 10)));
    assert!(equal(&matrix.get(0, 1), &s(25, 10)));
    assert!(equal(&matrix.get(1, 0), &s(95, 10)));
    assert!(equal(&matrix.get(1, 1), &s(45, 10)));
}

#[test]
fn create_matrix_3x3() {
    let matrix = md(
        3,
        3,
        &[
            (-30, 10),
            (-20, 10),
            (-10, 10),
            (-40, 10),
            (-30, 10),
            (-20, 10),
            (15, 10),
            (25, 10),
            (35, 10),
        ],
    );
    assert!(equal(&matrix.get(0, 0), &si(-3)));
    assert!(equal(&matrix.get(2, 0), &s(15, 10)));
    assert!(equal(&matrix.get(0, 1), &si(-2)));
    assert!(equal(&matrix.get(0, 2), &si(-1)));
}

#[test]
fn create_matrix_4x4() {
    let matrix = md(
        4,
        4,
        &[
            (10, 10),
            (20, 10),
            (30, 10),
            (40, 10),
            (55, 10),
            (65, 10),
            (75, 10),
            (85, 10),
            (90, 10),
            (100, 10),
            (110, 10),
            (120, 10),
            (135, 10),
            (145, 10),
            (155, 10),
            (165, 10),
        ],
    );
    assert!(equal(&matrix.get(0, 0), &si(1)));
    assert!(equal(&matrix.get(0, 3), &si(4)));
    assert!(equal(&matrix.get(1, 0), &s(55, 10)));
    assert!(equal(&matrix.get(1, 2), &s(75, 10)));
    assert!(equal(&matrix.get(2, 2), &si(11)));
    assert!(equal(&matrix.get(3, 0), &s(135, 10)));
    assert!(equal(&matrix.get(3, 2), &s(155, 10)));
}

#[test]
fn matrix_equality() {
    let m1 = mi(2, 2, &[1, 2, 3, 4]);
    let m2 = mi(2, 2, &[1, 2, 3, 4]);
    assert!(m1.equals(&m2));
}

#[test]
fn matrix_inequality() {
    let m1 = mi(2, 2, &[1, 2, 3, 4]);
    let m2 = md(2, 2, &[(1, 1), (2, 1), (3, 1), (45, 10)]);
    assert!(m1.equals(&m2) == false);
}

#[test]
fn matrix_multiplication() {
    let m1 = mi(4, 4, &[1, 2, 3, 4, 5, 6, 7, 8, 9, 8, 7, 6, 5, 4, 3, 2]);
    let m2 = mi(4, 4, &[-2, 1, 2, 3, 3, 2, 1, -1, 4, 3, 6, 5, 1, 2, 7, 8]);
    let result = m1.multiply_matrix(&m2).unwrap();
    let expect = mi(
        4,
        4,
        &[20, 22, 50, 48, 44, 54, 114, 108, 40, 58, 110, 102, 16, 26, 46, 42],
    );
    assert!(result.equals(&expect));
}

#[test]
fn multiplication_diff_size() {
    let m1 = mi(4, 4, &[1, 2, 3, 4, 2, 4, 4, 2, 8, 6, 4, 1, 0, 0, 0, 1]);
    let m2 = mi(1, 4, &[1, 2, 3, 1]);
    let result = m1.multiply_matrix(&m2).unwrap();
    let expect = mi(1, 4, &[18, 24, 33, 1]);
    assert!(result.equals(&expect));
}

#[test]
fn multiplication_tuple() {
    let m1 = mi(4, 4, &[1, 2, 3, 4, 2, 4, 4, 2, 8, 6, 4, 1, 0, 0, 0, 1]);
    let t1 = Tuple::new_tuple(si(1), si(2), si(3), si(1));
    let result = m1.multiply_tuple(&t1).unwrap();
    let expect = Tuple::new_tuple(si(18), si(24), si(33), si(1));
    assert!(result.equals(&expect));
}

#[test]
fn create_identity() {
    let m1 = Matrix::create_identity(4);
    assert!(equal(&m1.get(0, 0), &si(1)));
    assert!(equal(&m1.get(1, 1), &si(1)));
    assert!(equal(&m1.get(2, 2), &si(1)));
    assert!(equal(&m1.get(3, 3), &si(1)));
}

#[test]
fn identity_multiplication() {
    let m1 = Matrix::create_identity(4);
    let m2 = mi(4, 4, &[3, 4, 5, 6, 1, 2, 3, 4, 3, 4, 5, 6, 1, 2, 3, 4]);
    let result = m1.multiply_matrix(&m2).unwrap();
    assert!(result.equals(&m2));
}

#[test]
fn identity_multiplication_right() {
    let m1 = Matrix::create_identity(4);
    let m2 = mi(4, 4, &[3, 4, 5, 6, 1, 2, 3, 4, 3, 4, 5, 6, 1, 2, 3, 4]);
    let result = m2.multiply_matrix(&m1).unwrap();
    assert!(result.equals(&m2));
}

#[test]
fn transpose() {
    let m1 = mi(4, 4, &[0, 9, 3, 0, 9, 8, 0, 8, 1, 8, 5, 3, 0, 0, 5, 8]);
    let expect = mi(4, 4, &[0, 9, 1, 0, 9, 8, 8, 0, 3, 0, 5, 5, 0, 8, 3, 8]);
    let result = m1.transpose();
    assert!(result.equals(&expect));
}

#[test]
fn transpose_twice_restores() {
    let m1 = mi(3, 2, &[1, 2, 3, 4, 5, 6]);
    let back = m1.transpose().transpose();
    assert!(back.equals(&m1));
}

#[test]
fn determinate_2x2() {
    let m1 = mi(2, 2, &[1, 5, -3, 2]);
    let result = m1.determinate_2x2().unwrap();
    assert!(equal(&result, &si(17)));
}

#[test]
fn submatrix_1() {
    let m1 = mi(3, 3, &[1, 5, 0, -3, 2, 7, 0, 6, -3]);
    let result = m1.submatrix(0, 2);
    let expect = mi(2, 2, &[-3, 2, 0, 6]);
    assert!(result.equals(&expect));
}

#[test]
fn submatrix_2() {
    let m1 = mi(
        4,
        4,
        &[-6, 1, 1, 6, -8, 5, 8, 6, -1, 0, 8, 2, -7, 1, -1, 1],
    );
    let result = m1.submatrix(2, 1);
    let expect = mi(3, 3, &[-6, 1, 6, -8, 8, 6, -7, -1, 1]);
    assert!(result.equals(&expect));
}

#[test]
fn calcualte_minor() {
    let result = mi(3, 3, &[3, 5, 0, 2, -1, -7, 6, -1, 5]).minor(1, 0).unwrap();
    assert!(equal(&result, &si(25)));
}

#[test]
fn calculate_cofactor() {
    let m1 = mi(3, 3, &[3, 5, 0, 2, -1, -7, 6, -1, 5]);
    let minor1 = m1.minor(0, 0).unwrap();
    let cofactor1 = m1.cofactor(0, 0).unwrap();
    let minor2 = m1.minor(1, 0).unwrap();
    let cofactor2 = m1.cofactor(1, 0).unwrap();
    assert!(equal(&minor1, &si(-12)));
    assert!(equal(&cofactor1, &si(-12)));
    assert!(equal(&minor2, &si(25)));
    assert!(equal(&cofactor2, &si(-25)));
}

#[test]
fn large_determinant_3x3() {
    let m1 = mi(3, 3, &[1, 2, 6, -5, 8, -4, 2, 6, 4]);
    let cofactor1 = m1.cofactor(0, 0).unwrap();
    let cofactor2 = m1.cofactor(0, 1).unwrap();
    let cofactor3 = m1.cofactor(0, 2).unwrap();
    let determinant = m1.determinant().unwrap();
    assert!(equal(&cofactor1, &si(56)));
    assert!(equal(&cofactor2, &si(12)));
    assert!(equal(&cofactor3, &si(-46)));
    assert!(equal(&determinant, &si(-196)));
}

#[test]
fn large_determinant_4x4() {
    let m1 = mi(
        4,
        4,
        &[-2, -8, 3, 5, -3, 1, 7, 3, 1, 2, -9, 6, -6, 7, 7, -9],
    );
    let cofactor1 = m1.cofactor(0, 0).unwrap();
    let cofactor2 = m1.cofactor(0, 1).unwrap();
    let cofactor3 = m1.cofactor(0, 2).unwrap();
    let cofactor4 = m1.cofactor(0, 3).unwrap();
    let determinant = m1.determinant().unwrap();
    assert!(equal(&cofactor1, &si(690)));
    assert!(equal(&cofactor2, &si(447)));
    assert!(equal(&cofactor3, &si(210)));
    assert!(equal(&cofactor4, &si(51)));
    assert!(equal(&determinant, &si(-4071)));
}

#[test]
fn is_invertable() {
    let m1 = mi(4, 4, &[6, 4, 4, 4, 5, 5, 7, 6, 4, -9, 3, -7, 9, 1, 7, -6]);
    assert!(m1.is_invertable().unwrap() == true);
}

#[test]
fn is_not_invertable() {
    let m1 = mi(4, 4, &[-4, 2, -2, -3, 9, 6, 2, 6, 0, -5, 1, -5, 0, 0, 0, 0]);
    assert!(m1.is_invertable().unwrap() == false);
}

#[test]
fn inverse_1() {
    let m1 = mi(4, 4, &[8, -5, 9, 2, 7, 5, 6, 1, -6, 0, 9, 6, -3, 0, -9, -4]);
    let expected = md(
        4,
        4,
        &[
            (-15385, 100000),
            (-15385, 100000),
            (-28205, 100000),
            (-53845, 100000),
            (-7692, 100000),
            (12308, 100000),
            (2564, 100000),
            (3077, 100000),
            (35897, 100000),
            (35897, 100000),
            (43590, 100000),
            (92308, 100000),
            (-69231, 100000),
            (-69231, 100000),
            (-76923, 100000),
            (-192308, 100000),
        ],
    );
    let inverse = m1.inverse().expect("failed to inverse");
    assert!(inverse.equals(&expected) == true);
}

#[test]
fn inverse_2() {
    let m1 = mi(4, 4, &[9, 3, 0, 9, -5, -2, -6, -3, -4, 9, 6, 4, -7, 6, 6, 2]);
    let expected = md(
        4,
        4,
        &[
            (-4074, 100000),
            (-7778, 100000),
            (14444, 100000),
            (-22222, 100000),
            (-7778, 100000),
            (3333, 100000),
            (36667, 100000),
            (-33333, 100000),
            (-2901, 100000),
            (-14630, 100000),
            (-10926, 100000),
            (12963, 100000),
            (17778, 100000),
            (6667, 100000),
            (-26667, 100000),
            (33333, 100000),
        ],
    );
    let inverse = m1.inverse().expect("failed to inverse");
    assert!(inverse.equals(&expected) == true);
}

#[test]
fn test_inverse() {
    let m1 = mi(4, 4, &[3, -9, 7, 3, 3, -8, 2, -9, -4, 4, 4, 1, -6, 5, -1, 1]);
    let m2 = mi(4, 4, &[8, 2, 2, 2, 3, -1, 7, 0, 7, 0, 5, 4, 6, -2, 0, 5]);
    let m3 = m1.multiply_matrix(&m2).unwrap();
    let m4 = m3
        .multiply_matrix(&m2.inverse().expect("m2 didn't get invsersed"))
        .unwrap();
    assert!(m4.equals(&m1) == true);
}

#[test]
fn inverse_matches_rounded_values() {
    // the same inverse against entries rounded to five decimal places
    let m1 = mi(4, 4, &[8, -5, 9, 2, 7, 5, 6, 1, -6, 0, 9, 6, -3, 0, -9, -4]);
    let expected = md(
        4,
        4,
        &[
            (-15385, 100000),
            (-15385, 100000),
            (-28205, 100000),
            (-53846, 100000),
            (-7692, 100000),
            (12308, 100000),
            (2564, 100000),
            (3077, 100000),
            (35897, 100000),
            (35897, 100000),
            (43590, 100000),
            (92308, 100000),
            (-69231, 100000),
            (-69231, 100000),
            (-76923, 100000),
            (-192308, 100000),
        ],
    );
    let inverse = m1.inverse().unwrap();
    assert!(inverse.equals(&expected));
}

#[test]
fn inverse_of_singular_is_none() {
    let m1 = mi(4, 4, &[-4, 2, -2, -3, 9, 6, 2, 6, 0, -5, 1, -5, 0, 0, 0, 0]);
    assert!(m1.inverse().is_none());
}

#[test]
fn inverse_round_trip_on_point() {
    // an invertible transform undone by its inverse, within tolerance
    let a = mi(4, 4, &[8, -5, 9, 2, 7, 5, 6, 1, -6, 0, 9, 6, -3, 0, -9, -4]);
    let v = Tuple::new_point(si(-3), si(4), si(5));
    let av = a.multiply_tuple(&v).unwrap();
    let back = a.inverse().unwrap().multiply_tuple(&av).unwrap();
    assert!(back.equals(&v));
}

#[test]
fn determinant_of_identity_sizes() {
    for n in [2usize, 3, 4] {
        let d = Matrix::create_identity(n).determinant().unwrap();
        assert!(equal(&d, &si(1)));
    }
}

#[test]
fn exact_entry_representation() {
    let m = md(2, 2, &[(15, 10), (25, 10), (95, 10), (45, 10)]);
    assert_eq!(m.get(0, 0).numer(), 3);
    assert_eq!(m.get(0, 0).denom(), 2);
    assert_eq!(m.get(1, 0).numer(), 19);
    assert_eq!(m.get(1, 0).denom(), 2);
}

#[test]
fn scale_then_inverse_cancels() {
    // multiplying by a diagonal matrix and then by its inverse restores
    // the original matrix
    let a = mi(4, 4, &[3, -9, 7, 3, 3, -8, 2, -9, -4, 4, 4, 1, -6, 5, -1, 1]);
    let b = mi(4, 4, &[2, 0, 0, 0, 0, 3, 0, 0, 0, 0, 4, 0, 0, 0, 0, 1]);
    let ab = a.multiply_matrix(&b).unwrap();
    let back = ab.multiply_matrix(&b.inverse().unwrap()).unwrap();
    assert!(back.equals(&a));
}
