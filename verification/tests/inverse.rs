use num_bigint::BigUint;
use rsa_digital_signature::errors::RsaError;
use rsa_digital_signature::inverse::mod_inverse;

fn big(v: u64) -> BigUint {
    BigUint::from(v)
}

#[test]
fn inverse_of_the_textbook_exponent() {
    assert_eq!(mod_inverse(&big(17), &big(3120)), Ok(big(2753)));
}

#[test]
fn inverse_of_three_modulo_twenty_six() {
    assert_eq!(mod_inverse(&big(3), &big(26)), Ok(big(9)));
}

#[test]
fn inverse_of_a_number_above_the_modulus() {
    assert_eq!(mod_inverse(&big(29), &big(26)), Ok(big(9)));
}

#[test]
fn inverse_of_one_is_one() {
    assert_eq!(mod_inverse(&big(1), &big(7)), Ok(big(1)));
}

#[test]
fn a_shared_divisor_leaves_no_inverse() {
    assert_eq!(mod_inverse(&big(4), &big(32)), Err(RsaError::NoInverseExists));
    assert_eq!(mod_inverse(&big(6), &big(9)), Err(RsaError::NoInverseExists));
}

#[test]
fn zero_has_no_inverse() {
    assert_eq!(mod_inverse(&big(0), &big(7)), Err(RsaError::NoInverseExists));
}

#[test]
fn the_inverse_modulo_one_is_zero() {
    assert_eq!(mod_inverse(&big(5), &big(1)), Ok(big(0)));
    assert_eq!(mod_inverse(&big(0), &big(1)), Ok(big(0)));
    assert_eq!(mod_inverse(&big(1), &big(1)), Ok(big(0)));
}

#[test]
fn a_modulus_of_zero_leaves_no_inverse() {
    assert_eq!(mod_inverse(&big(5), &big(0)), Err(RsaError::NoInverseExists));
    assert_eq!(mod_inverse(&big(1), &big(0)), Err(RsaError::NoInverseExists));
    assert_eq!(mod_inverse(&big(0), &big(0)), Err(RsaError::NoInverseExists));
}

#[test]
fn an_inverse_multiplies_to_one() {
    for m in 1u64..60 {
        for a in 0u64..120 {
            if let Ok(x) = mod_inverse(&big(a), &big(m)) {
                assert!(x < big(m));
                assert_eq!((big(a) * x) % big(m), big(1) % big(m));
            }
        }
    }
}

#[test]
fn inverse_agrees_with_the_modinverse_crate() {
    for m in 0i64..50 {
        for a in 0i64..100 {
            let ours = mod_inverse(&big(a as u64), &big(m as u64)).ok();
            let theirs = modinverse::modinverse(a, m).map(|x| big(x as u64));
            assert_eq!(ours, theirs, "a = {}, m = {}", a, m);
        }
    }
}

#[test]
fn inverse_of_a_large_number() {
    let m = (BigUint::from(1u8) << 127) - 1u8;
    let a = BigUint::from(1u8) << 64;
    let x = mod_inverse(&a, &m).expect("a prime modulus");
    assert_eq!((a * x) % m, big(1));
}
