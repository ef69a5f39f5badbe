use num_bigint::BigUint;
use rsa_digital_signature::prime::{generate_large_prime, is_prime};

fn big(v: u64) -> BigUint {
    BigUint::from(v)
}

fn prime_by_definition(n: u64) -> bool {
    if n < 2 {
        return false;
    }
    let mut d = 2;
    while d < n {
        if n % d == 0 {
            return false;
        }
        d += 1;
    }
    true
}

#[test]
fn zero_and_one_are_not_prime() {
    assert!(!is_prime(&big(0)));
    assert!(!is_prime(&big(1)));
}

#[test]
fn two_and_three_are_prime() {
    assert!(is_prime(&big(2)));
    assert!(is_prime(&big(3)));
}

#[test]
fn small_composites_are_rejected() {
    for n in [4u64, 6, 8, 9, 15, 21, 25, 49, 121, 255, 3233] {
        assert!(!is_prime(&big(n)), "{} is composite", n);
    }
}

#[test]
fn small_primes_are_accepted() {
    for n in [5u64, 7, 11, 13, 53, 61, 97, 251, 7919, 65537] {
        assert!(is_prime(&big(n)), "{} is prime", n);
    }
}

#[test]
fn squares_of_primes_are_rejected() {
    for p in [2u64, 3, 5, 7, 11, 13, 251] {
        assert!(!is_prime(&big(p * p)));
    }
}

#[test]
fn primality_agrees_with_the_definition_up_to_two_thousand() {
    for n in 0u64..2000 {
        assert_eq!(is_prime(&big(n)), prime_by_definition(n), "at {}", n);
    }
}

#[test]
fn a_number_above_the_machine_word_is_tested() {
    // 2^64 is even, and 2^64 + 1 is 274177 * 67280421310721.
    let two_64 = BigUint::from(1u8) << 64;
    assert!(!is_prime(&two_64));
    assert!(!is_prime(&(two_64 + 1u8)));
}

#[test]
fn a_generated_prime_is_a_prime_byte() {
    for _ in 0..50 {
        let p = generate_large_prime().expect("a prime among the draws");
        assert!(p <= big(255));
        assert!(is_prime(&p));
    }
}
