use num_bigint::BigUint;
use num_integer::Integer;
use rsa_digital_signature::errors::RsaError;
use rsa_digital_signature::keygen::{
    find_public_exponent, key_for_primes, key_from_primes, key_gen, next_coprime, totient,
};
use rsa_digital_signature::prime::is_prime;
use rsa_digital_signature::signature::{sign, verify};

fn big(v: u64) -> BigUint {
    BigUint::from(v)
}

#[test]
fn totient_of_the_textbook_primes() {
    assert_eq!(totient(&big(61), &big(53)), big(3120));
}

#[test]
fn totient_of_the_smallest_primes() {
    assert_eq!(totient(&big(2), &big(2)), big(1));
    assert_eq!(totient(&big(2), &big(3)), big(2));
    assert_eq!(totient(&big(3), &big(5)), big(8));
}

#[test]
fn next_coprime_keeps_a_coprime_start() {
    assert_eq!(next_coprime(big(17), &big(3120)), big(17));
}

#[test]
fn next_coprime_moves_up_to_the_first_coprime() {
    assert_eq!(next_coprime(big(12), &big(3120)), big(17));
    assert_eq!(next_coprime(big(2), &big(4)), big(3));
    assert_eq!(next_coprime(big(8), &big(8)), big(9));
}

#[test]
fn a_public_exponent_lies_in_range_and_is_coprime() {
    for phi in [3u64, 4, 8, 24, 3120, 62500, 65536, 65537, 70000] {
        for _ in 0..20 {
            let e = find_public_exponent(&big(phi));
            assert!(big(1) < e && e < big(phi));
            assert_eq!(e.gcd(&big(phi)), big(1));
        }
    }
}

#[test]
fn the_textbook_key() {
    let key = key_from_primes(&big(61), &big(53), big(17));
    assert_eq!(key, Ok((big(17), big(3233), big(2753), big(3233))));
}

#[test]
fn an_exponent_that_shares_a_divisor_gives_no_key() {
    assert_eq!(
        key_from_primes(&big(61), &big(53), big(15)),
        Err(RsaError::NoInverseExists)
    );
}

#[test]
fn a_totient_of_one_gives_the_private_exponent_zero() {
    assert_eq!(
        key_from_primes(&big(2), &big(2), big(3)),
        Ok((big(3), big(4), big(0), big(4)))
    );
}

#[test]
fn a_public_exponent_for_the_totient_one() {
    for _ in 0..10 {
        assert_eq!(find_public_exponent(&big(1)), big(2));
    }
}

#[test]
fn a_public_exponent_for_the_totient_two() {
    for _ in 0..10 {
        assert_eq!(find_public_exponent(&big(2)), big(3));
    }
}

#[test]
fn a_public_exponent_for_the_totient_three() {
    for _ in 0..10 {
        assert_eq!(find_public_exponent(&big(3)), big(2));
    }
}

#[test]
fn the_key_for_the_primes_two_and_two() {
    assert_eq!(key_for_primes(&big(2), &big(2)), Ok((big(2), big(4), big(0), big(4))));
}

#[test]
fn the_key_for_the_primes_two_and_three() {
    assert_eq!(key_for_primes(&big(2), &big(3)), Ok((big(3), big(6), big(1), big(6))));
    assert_eq!(key_for_primes(&big(3), &big(2)), Ok((big(3), big(6), big(1), big(6))));
}

#[test]
fn a_key_for_the_textbook_primes() {
    for _ in 0..20 {
        let (e, n, d, again) = key_for_primes(&big(61), &big(53)).expect("a key");
        assert_eq!(n, big(3233));
        assert_eq!(again, big(3233));
        assert!(big(1) < e && e < big(3120));
        assert_eq!(e.gcd(&big(3120)), big(1));
        assert!(d < big(3120));
        assert_eq!((e * d) % big(3120), big(1));
    }
}

#[test]
fn a_generated_key_has_matching_exponents() {
    for _ in 0..30 {
        match key_gen() {
            Ok((e, n, d, again)) => {
                assert_eq!(n, again);
                let mut found = false;
                for p in 2u64..256 {
                    if !is_prime(&big(p)) || !(&n % big(p)).is_zero_value() {
                        continue;
                    }
                    let q = &n / big(p);
                    let phi = totient(&big(p), &q);
                    assert!(is_prime(&q));
                    if phi >= big(3) {
                        assert!(big(1) < e && e < phi);
                    }
                    assert_eq!(e.gcd(&phi), big(1));
                    assert!(d < phi);
                    assert_eq!((&e * &d) % &phi, big(1) % &phi);
                    found = true;
                    break;
                }
                assert!(found);
            }
            Err(err) => assert_eq!(err, RsaError::GenerationTimeout),
        }
    }
}

trait ZeroValue {
    fn is_zero_value(&self) -> bool;
}

impl ZeroValue for BigUint {
    fn is_zero_value(&self) -> bool {
        *self == BigUint::from(0u8)
    }
}

#[test]
fn a_generated_key_signs_and_verifies() {
    for _ in 0..30 {
        if let Ok((e, n, d, _)) = key_gen() {
            let root = n.sqrt();
            if &root * &root == n {
                continue;
            }
            let mut m = 0u8;
            while big(m as u64) < n && m < 255 {
                let digest = vec![m];
                let signature = sign(&digest, &d, &n);
                assert!(signature < n);
                assert!(verify(&signature, &e, &n, &digest));
                m += 1;
            }
        }
    }
}

#[test]
fn a_public_exponent_for_a_wide_totient() {
    let phi = BigUint::from(1u8) << 40;
    let e = find_public_exponent(&phi);
    assert!(big(1) < e && e < phi);
    assert_eq!(e.gcd(&phi), big(1));
}
