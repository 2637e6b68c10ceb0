use sumcheck::error::SumcheckError;
use sumcheck::field::Field;
use sumcheck::lagrange::{extend, lagrange_interpolate};
use sumcheck::reed_solomon::eval;

#[test]
fn test_low_degree_extension() {
    let field = Field::new(16411).unwrap();
    let points = vec![3, 1, 11, 7];
    let k = 10;

    let extended = extend(&field, &points, k).unwrap();

    println!("extended: {:?}", extended);

    assert_eq!(extended, vec![3, 1, 11, 7, 16374, 16264, 16062, 15742, 15278, 14644]);
}

#[test]
fn extend_to_the_same_length_copies() {
    let field = Field::new(16411).unwrap();
    assert_eq!(extend(&field, &[3, 1, 11, 7], 4), Ok(vec![3, 1, 11, 7]));
    assert_eq!(extend(&field, &[20000], 1), Ok(vec![20000]));
    assert_eq!(extend(&field, &[], 0), Ok(vec![]));
}

#[test]
fn extend_of_nothing_is_zero() {
    let field = Field::new(16411).unwrap();
    assert_eq!(extend(&field, &[], 3), Ok(vec![0, 0, 0]));
}

#[test]
fn interpolation_returns_the_given_values() {
    let field = Field::new(16411).unwrap();
    let points = vec![3, 1, 11, 7];
    for i in 0..4 {
        assert_eq!(lagrange_interpolate(&field, &points, i as u64), Ok(points[i]));
    }
}

#[test]
fn interpolation_recovers_a_polynomial() {
    let field = Field::new(16411).unwrap();
    let coefs = vec![5, 0, 16000, 3];
    let values: Vec<u64> = (0..4).map(|x| eval(&field, &coefs, x)).collect();
    for x in [4u64, 5, 100, 16410, 20000] {
        assert_eq!(lagrange_interpolate(&field, &values, x), Ok(eval(&field, &coefs, x)));
    }
}

#[test]
fn interpolation_fails_with_more_points_than_the_field_has() {
    let field = Field::new(3).unwrap();
    assert_eq!(
        lagrange_interpolate(&field, &[1, 2, 0, 1], 5),
        Err(SumcheckError::DivisionByZero)
    );
    assert_eq!(extend(&field, &[1, 2, 0, 1], 6), Err(SumcheckError::DivisionByZero));
    // nothing is interpolated, so nothing fails
    assert_eq!(extend(&field, &[1, 2, 0, 1], 4), Ok(vec![1, 2, 0, 1]));
    assert_eq!(extend(&field, &[1, 2, 0], 5), Ok(vec![1, 2, 0, 1, 2]));
}
