use num_bigint::BigUint;
use rsa_digital_signature::digest::hash_message;
use rsa_digital_signature::signature::{checked_sign, checked_verify, sign, verify};

fn big(v: u64) -> BigUint {
    BigUint::from(v)
}

fn hex(bytes: &[u8]) -> String {
    let mut out = String::new();
    for b in bytes {
        out.push_str(&format!("{:02x}", b));
    }
    out
}

#[test]
fn digest_of_abc() {
    let digest = hash_message(b"abc");
    assert_eq!(digest.len(), 32);
    assert_eq!(
        hex(&digest),
        "ba7816bf8f01cfea414140de5dae2223b00361a396177a9cb410ff61f20015ad"
    );
}

#[test]
fn digest_of_the_empty_message() {
    assert_eq!(
        hex(&hash_message(b"")),
        "e3b0c44298fc1c149afbf4c8996fb92427ae41e4649b934ca495991b7852b855"
    );
}

#[test]
fn digests_of_different_messages_differ() {
    assert_ne!(hash_message(b"Hello, World!"), hash_message(b"Hello, World?"));
}

#[test]
fn the_textbook_digest_under_the_private_exponent() {
    // 65^2753 mod 3233
    assert_eq!(sign(&[65], &big(2753), &big(3233)), big(588));
    assert!(verify(&big(588), &big(17), &big(3233), &vec![65]));
}

#[test]
fn the_textbook_vector_under_the_exponent_17() {
    // 65^17 mod 3233 = 2790, and 2790^2753 mod 3233 = 65
    assert_eq!(sign(&[65], &big(17), &big(3233)), big(2790));
    assert!(verify(&big(2790), &big(2753), &big(3233), &vec![65]));
}

#[test]
fn leading_zero_bytes_do_not_change_the_digest_number() {
    assert_eq!(sign(&[0, 0, 65], &big(2753), &big(3233)), big(588));
    assert!(verify(&big(588), &big(17), &big(3233), &vec![0, 65]));
}

#[test]
fn a_digest_of_two_bytes_is_read_most_significant_first() {
    // 0x0100 = 256; 256^2753 mod 3233 verifies back to 256.
    let signature = sign(&[1, 0], &big(2753), &big(3233));
    assert!(verify(&signature, &big(17), &big(3233), &vec![1, 0]));
    assert!(!verify(&signature, &big(17), &big(3233), &vec![0, 1]));
}

#[test]
fn another_digest_is_rejected() {
    assert!(!verify(&big(588), &big(17), &big(3233), &vec![66]));
}

#[test]
fn another_signature_is_rejected() {
    assert!(!verify(&big(589), &big(17), &big(3233), &vec![65]));
}

#[test]
fn every_digest_below_the_modulus_round_trips() {
    let (e, d, n) = (big(17), big(2753), big(3233));
    for m in 0u64..3233 {
        let digest = vec![(m / 256) as u8, (m % 256) as u8];
        let signature = sign(&digest, &d, &n);
        assert!(verify(&signature, &e, &n, &digest), "at {}", m);
    }
}

#[test]
fn a_tampered_digest_below_the_modulus_is_rejected() {
    let (e, d, n) = (big(17), big(2753), big(3233));
    for m in 0u64..200 {
        let signature = sign(&[m as u8], &d, &n);
        assert!(!verify(&signature, &e, &n, &vec![(m + 1) as u8]), "at {}", m);
    }
}

#[test]
fn the_zero_digest_signs_to_zero() {
    assert_eq!(sign(&[0], &big(2753), &big(3233)), big(0));
    assert_eq!(sign(&[], &big(2753), &big(3233)), big(0));
    assert!(verify(&big(0), &big(17), &big(3233), &vec![0]));
    assert!(verify(&big(0), &big(17), &big(3233), &vec![]));
}

#[test]
fn verifying_twice_gives_the_same_answer() {
    let digest = hash_message(b"Hello, World!");
    let signature = sign(&digest, &big(2753), &big(3233));
    let first = verify(&signature, &big(17), &big(3233), &digest);
    let second = verify(&signature, &big(17), &big(3233), &digest);
    assert_eq!(first, second);
    let third = verify(&big(588), &big(17), &big(3233), &vec![65]);
    let fourth = verify(&big(588), &big(17), &big(3233), &vec![65]);
    assert_eq!(third, fourth);
    assert!(third);
}

#[test]
fn a_signature_is_below_the_modulus() {
    let digest = hash_message(b"Hello, World!");
    assert!(sign(&digest, &big(2753), &big(3233)) < big(3233));
}

#[test]
fn a_digest_above_the_modulus_is_reduced_and_does_not_verify() {
    let digest = hash_message(b"abc");
    let n = big(3233);
    let signature = sign(&digest, &big(2753), &n);
    let reduced = BigUint::from_bytes_be(&digest) % &n;
    assert_eq!(signature.modpow(&big(17), &n), reduced);
    assert!(!verify(&signature, &big(17), &n, &digest));
}

#[test]
fn a_modulus_of_one_signs_everything_to_zero() {
    assert_eq!(sign(&[65], &big(5), &big(1)), big(0));
    assert!(verify(&big(7), &big(5), &big(1), &vec![0]));
    assert!(!verify(&big(7), &big(5), &big(1), &vec![1]));
}

#[test]
fn an_exponent_of_zero_gives_one() {
    assert_eq!(sign(&[65], &big(0), &big(3233)), big(1));
    assert_eq!(sign(&[0], &big(0), &big(3233)), big(1));
}

#[test]
fn checked_signing_refuses_a_zero_modulus() {
    assert_eq!(checked_sign(&[65], &big(2753), &big(0)), None);
    assert_eq!(checked_sign(&[65], &big(2753), &big(3233)), Some(big(588)));
}

#[test]
fn checked_verifying_refuses_a_zero_modulus() {
    assert_eq!(checked_verify(&big(588), &big(17), &big(0), &vec![65]), None);
    assert_eq!(checked_verify(&big(588), &big(17), &big(3233), &vec![65]), Some(true));
    assert_eq!(checked_verify(&big(588), &big(17), &big(3233), &vec![64]), Some(false));
}
