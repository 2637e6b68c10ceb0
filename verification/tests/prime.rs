use std::time::Instant;
use sumcheck::prime::{find_prime_above, is_prime};

#[test]
fn test_find_prime_above() {
    let minimum = 16384;
    let start = Instant::now();
    let result = find_prime_above(minimum);
    let duration = start.elapsed();

    println!("First prime number above {}: {}", minimum, result);
    println!("Time taken: {:?}", duration);

    assert!(result > minimum);
    assert!(is_prime(result));
    assert!(!is_prime(result - 1));
}

#[test]
fn find_prime_above_gives_the_least_prime_from_there() {
    assert_eq!(find_prime_above(16384), 16411);
    assert_eq!(find_prime_above(0), 2);
    assert_eq!(find_prime_above(2), 2);
    assert_eq!(find_prime_above(24), 29);
    assert_eq!(find_prime_above(16411), 16411);
}

#[test]
fn is_prime_on_small_numbers() {
    let primes: Vec<u64> = (0..30).filter(|&n| is_prime(n)).collect();
    assert_eq!(primes, vec![2, 3, 5, 7, 11, 13, 17, 19, 23, 29]);
}

#[test]
fn is_prime_on_squares_and_neighbours_of_multiples_of_six() {
    assert!(!is_prime(25));
    assert!(!is_prime(35));
    assert!(!is_prime(49));
    assert!(!is_prime(121));
    assert!(!is_prime(16411 * 16411));
    assert!(!is_prime(65537 * 65539));
    assert!(is_prime(65537));
    assert!(is_prime(4294967291));
    assert!(!is_prime(4294967295));
}
