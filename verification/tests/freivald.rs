use sumcheck::field::Field;
use sumcheck::freivald::{
    empty_matrix, is_valid_matrix, matmul, random_int, random_matrix, random_vector, sum_of_prods,
};

#[test]
fn test_freivald() -> Result<(), &'static str> {
    let field = Field::new(16411).unwrap();
    let n: usize = 10;
    let m: usize = 10;

    let a = random_matrix(&field, n, m);
    let b = random_matrix(&field, n, m);

    let c = matmul(&field, &a, &b)?;

    let x = random_vector(&field, m);

    let y = matmul(&field, &c, &vec![x.clone()])?;

    println!("Y: {:?}", y);

    let z = matmul(&field, &a, &matmul(&field, &b, &vec![x])?)?;

    println!("Z: {:?}", z);

    assert_eq!(y, z, "Y and Z should be equal");

    Ok(())
}

#[test]
fn matmul_of_small_matrices() {
    let field = Field::new(16411).unwrap();
    let a = vec![vec![1, 2], vec![3, 4], vec![5, 6]];
    let b = vec![vec![1, 0, 2], vec![0, 1, 3]];
    assert_eq!(matmul(&field, &a, &b), Ok(vec![vec![11, 14], vec![18, 22]]));
    assert_eq!(sum_of_prods(&field, &a, &b, 1, 0), 18);
    assert_eq!(sum_of_prods(&field, &a, &b, 0, 1), 14);
}

#[test]
fn matmul_reduces_large_entries() {
    let field = Field::new(16411).unwrap();
    let a = vec![vec![u64::MAX], vec![u64::MAX]];
    let b = vec![vec![u64::MAX, 16410]];
    let r = u64::MAX % 16411;
    let expected = (r * r + r * 16410) % 16411;
    assert_eq!(matmul(&field, &a, &b), Ok(vec![vec![expected]]));
}

#[test]
fn matmul_rejects_what_is_no_matrix() {
    let field = Field::new(16411).unwrap();
    let good = vec![vec![1, 2], vec![3, 4]];
    let ragged = vec![vec![1, 2], vec![3]];
    let none: Vec<Vec<u64>> = vec![];
    assert_eq!(matmul(&field, &ragged, &good), Err("Invalid matrix"));
    assert_eq!(matmul(&field, &good, &ragged), Err("Invalid matrix"));
    assert_eq!(matmul(&field, &none, &good), Err("Invalid matrix"));
    assert_eq!(matmul(&field, &good, &none), Err("Invalid matrix"));
}

#[test]
fn matmul_rejects_dimensions_that_do_not_fit() {
    let field = Field::new(16411).unwrap();
    let a = vec![vec![1, 2], vec![3, 4]];
    let b = vec![vec![1, 2, 3]];
    assert_eq!(matmul(&field, &a, &b), Err("Invalid dimensions for multiplication"));
}

#[test]
fn valid_matrices() {
    assert!(is_valid_matrix(&vec![vec![1, 2], vec![3, 4]]));
    assert!(is_valid_matrix(&vec![vec![]]));
    assert!(!is_valid_matrix(&vec![vec![1], vec![]]));
    assert!(!is_valid_matrix(&vec![]));
}

#[test]
fn empty_matrix_is_all_zero() {
    assert_eq!(empty_matrix(2, 3), vec![vec![0, 0, 0], vec![0, 0, 0]]);
    assert_eq!(empty_matrix(0, 3), Vec::<Vec<u64>>::new());
    assert_eq!(empty_matrix(2, 0), vec![Vec::<u64>::new(), Vec::<u64>::new()]);
}

#[test]
fn random_values_are_field_elements() {
    let field = Field::new(7).unwrap();
    let mut seen = [false; 7];
    for _ in 0..2000 {
        let r = random_int(&field);
        assert!(r < 7);
        seen[r as usize] = true;
    }
    assert!(seen.iter().all(|&s| s));
    let v = random_vector(&field, 50);
    assert_eq!(v.len(), 50);
    assert!(v.iter().all(|&x| x < 7));
    let a = random_matrix(&field, 4, 5);
    assert_eq!(a.len(), 4);
    assert!(a.iter().all(|row| row.len() == 5 && row.iter().all(|&x| x < 7)));
    assert!(is_valid_matrix(&a));
}
