use katas::math::{factorial, find_biggest_number, is_prime, sign_checker, square};

#[test]
fn test_factorial_zero() {
    assert_eq!(factorial(0), 1);
}

#[test]
fn test_factorial_one() {
    assert_eq!(factorial(1), 1);
}

#[test]
fn test_factorial_five() {
    assert_eq!(factorial(5), 120);
}

#[test]
fn test_factorial_ten() {
    assert_eq!(factorial(10), 3628800);
}

#[test]
fn test_prime_numbers() {
    assert!(is_prime(2));
    assert!(is_prime(3));
    assert!(is_prime(5));
    assert!(is_prime(7));
    assert!(is_prime(11));
    assert!(is_prime(13));
}

#[test]
fn test_non_prime_numbers() {
    assert!(!is_prime(0));
    assert!(!is_prime(1));
    assert!(!is_prime(4));
    assert!(!is_prime(6));
    assert!(!is_prime(8));
    assert!(!is_prime(9));
    assert!(!is_prime(15));
}

#[test]
fn test_large_prime() {
    assert!(is_prime(7919));
}

#[test]
fn test_large_non_prime() {
    assert!(!is_prime(7920));
}

#[test]
fn test_square() {
    assert_eq!(square(0), 0);
    assert_eq!(square(7), 49);
    assert_eq!(square(65535), 4294836225);
}

#[test]
fn test_sign_checker() {
    assert_eq!(sign_checker(5), "positive");
    assert_eq!(sign_checker(-3), "negative");
    assert_eq!(sign_checker(0), "zero");
}

#[test]
fn test_find_biggest_number() {
    assert_eq!(find_biggest_number([3, 7, 2, 9, 4]), 9);
    assert_eq!(find_biggest_number([1, 1, 1, 1, 1]), 1);
    assert_eq!(find_biggest_number([10, 0, 0, 0, 0]), 10);
}

#[test]
fn test_factorial_twelve_is_largest() {
    assert_eq!(factorial(12), 479001600);
}
