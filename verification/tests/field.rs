use sumcheck::error::SumcheckError;
use sumcheck::field::Field;

#[test]
fn field_needs_a_prime() {
    assert!(Field::new(16411).is_ok());
    assert!(Field::new(2).is_ok());
    assert_eq!(Field::new(0).err(), Some(SumcheckError::ModulusNotPrime));
    assert_eq!(Field::new(1).err(), Some(SumcheckError::ModulusNotPrime));
    assert_eq!(Field::new(16384).err(), Some(SumcheckError::ModulusNotPrime));
    assert_eq!(Field::new(16411 * 3).err(), Some(SumcheckError::ModulusNotPrime));
    assert_eq!(Field::new(16411).unwrap().modulus(), 16411);
}

#[test]
fn field_add_sub_mul() {
    let field = Field::new(16411).unwrap();
    assert_eq!(field.add(16410, 2), 1);
    assert_eq!(field.add(u64::MAX, u64::MAX), ((u64::MAX as u128 * 2) % 16411) as u64);
    assert_eq!(field.sub(5, 9), 16407);
    assert_eq!(field.sub(9, 5), 4);
    assert_eq!(field.sub(0, u64::MAX), (16411 - u64::MAX % 16411) % 16411);
    assert_eq!(field.mul(16410, 16410), 1);
    assert_eq!(
        field.mul(u64::MAX, u64::MAX),
        ((u64::MAX as u128 * u64::MAX as u128) % 16411) as u64
    );
    assert_eq!(field.reduce(16411), 0);
    assert_eq!(field.reduce(16412), 1);
}

#[test]
fn field_pow() {
    let field = Field::new(16411).unwrap();
    assert_eq!(field.pow(3, 200), 14148);
    assert_eq!(field.pow(0, 0), 1);
    assert_eq!(field.pow(0, 5), 0);
    assert_eq!(field.pow(5, 0), 1);
    assert_eq!(field.pow(5, 1), 5);
    assert_eq!(field.pow(2, 14), 16384);
    assert_eq!(field.pow(2, 15), 2 * 16384 - 16411);
    // Fermat: a^(p - 1) = 1
    assert_eq!(field.pow(1234, 16410), 1);
}

#[test]
fn field_inverse() {
    let field = Field::new(16411).unwrap();
    assert_eq!(field.inverse(7), Ok(4689));
    assert_eq!(field.mul(7, 4689), 1);
    for a in [1u64, 2, 3, 100, 16410, 16412, u64::MAX] {
        let inv = field.inverse(a).unwrap();
        assert_eq!(field.mul(a, inv), 1);
    }
}

#[test]
fn field_inverse_of_zero_fails() {
    let field = Field::new(16411).unwrap();
    assert_eq!(field.inverse(0), Err(SumcheckError::DivisionByZero));
    assert_eq!(field.inverse(16411), Err(SumcheckError::DivisionByZero));
    assert_eq!(field.inverse(2 * 16411), Err(SumcheckError::DivisionByZero));
}

#[test]
fn field_works_with_a_large_modulus() {
    // the first prime above 2^48
    let p: u64 = (1 << 48) + 21;
    let field = Field::new(p).unwrap();
    assert_eq!(field.mul(p - 1, p - 1), 1);
    assert_eq!(field.add(p - 1, p - 1), p - 2);
    let inv = field.inverse(123456789).unwrap();
    assert_eq!(field.mul(inv, 123456789), 1);
}

#[test]
fn field_is_deterministic() {
    let field = Field::new(16411).unwrap();
    let again = Field::new(16411).unwrap();
    assert_eq!(field.add(77, 99999), again.add(77, 99999));
    assert_eq!(field.sub(77, 99999), again.sub(77, 99999));
    assert_eq!(field.mul(77, 99999), again.mul(77, 99999));
    assert_eq!(field.pow(77, 99999), again.pow(77, 99999));
    assert_eq!(field.inverse(77), again.inverse(77));
}
