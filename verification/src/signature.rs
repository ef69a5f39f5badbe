//! Signing a digest with the private exponent and verifying a signature with
//! the public one.

use vstd::prelude::*;
use vstd::arithmetic::div_mod::{lemma_mod_bound, lemma_small_mod};
use vstd::arithmetic::power::{lemma0_pow, lemma_pow_mod_noop, lemma_pow_multiplies, pow};
use num_bigint::BigUint;
use crate::bigint::{big_eq, big_from_bytes_be, big_from_u64, big_modpow, magnitude};
use crate::numbers::be_value;

verus! {

/// `base` to the power `exponent`, reduced modulo `modulus`.
pub open spec fn mod_power(base: nat, exponent: nat, modulus: nat) -> nat {
    (pow(base as int, exponent) % (modulus as int)) as nat
}

/// Whether `signature` is accepted for `digest` under the public exponent
/// and the modulus: raised to the exponent it gives back the number that the
/// digest spells.
pub open spec fn accepted(signature: nat, exponent: nat, modulus: nat, digest: Seq<u8>) -> bool {
    mod_power(signature, exponent, modulus) == be_value(digest)
}

/// The exponents `e` and `d` undo each other modulo `n`: raising a number
/// below `n` to their product gives the number back.
pub open spec fn exponents_invert(e: nat, d: nat, n: nat) -> bool {
    forall|x: nat| x < n ==> #[trigger] mod_power(x, d * e, n) == x
}

/// A power of a power, both reduced, is the power to the product, reduced.
pub proof fn lemma_power_of_power(x: nat, d: nat, e: nat, n: nat)
    requires
        n > 0,
    ensures
        mod_power(mod_power(x, d, n), e, n) == mod_power(x, d * e, n),
{
    lemma_mod_bound(pow(x as int, d), n as int);
    lemma_pow_mod_noop(pow(x as int, d), e, n as int);
    lemma_pow_multiplies(x as int, d, e);
}

/// `base` to the power `exponent` modulo `modulus`, which is not zero.
fn power_mod(base: &BigUint, exponent: &BigUint, modulus: &BigUint) -> (r: BigUint)
    requires
        magnitude(*modulus) > 0,
    ensures
        magnitude(r) == mod_power(magnitude(*base), magnitude(*exponent), magnitude(*modulus)),
{
    let one = big_from_u64(1);
    if big_eq(modulus, &one) {
        big_from_u64(0)
    } else {
        proof {
            lemma_mod_bound(
                pow(magnitude(*base) as int, magnitude(*exponent)),
                magnitude(*modulus) as int,
            );
        }
        big_modpow(base, exponent, modulus)
    }
}

/// The signature of a digest: the number that the digest spells, most
/// significant byte first, raised to the private exponent modulo the modulus.
/// The digest is not held against the modulus: one that spells a number at
/// or above it is signed as its remainder, and that signature does not verify.
pub fn sign(message_hash: &[u8], private_key: &BigUint, modulus: &BigUint) -> (signature: BigUint)
    requires
        magnitude(*modulus) > 0,
    ensures
        magnitude(signature) == mod_power(
            be_value(message_hash@),
            magnitude(*private_key),
            magnitude(*modulus),
        ),
{
    let digest = big_from_bytes_be(message_hash);
    power_mod(&digest, private_key, modulus)
}

/// Whether the signature, raised to the public exponent modulo the modulus,
/// is the number that the digest spells.
pub fn verify(
    signature: &BigUint,
    public_key: &BigUint,
    modulus: &BigUint,
    message_hash: &Vec<u8>,
) -> (valid: bool)
    requires
        magnitude(*modulus) > 0,
    ensures
        valid == accepted(
            magnitude(*signature),
            magnitude(*public_key),
            magnitude(*modulus),
            message_hash@,
        ),
{
    let opened = power_mod(signature, public_key, modulus);
    let digest = big_from_bytes_be(message_hash.as_slice());
    big_eq(&opened, &digest)
}

/// `sign` for any modulus: nothing where the modulus is zero.
pub fn checked_sign(message_hash: &[u8], private_key: &BigUint, modulus: &BigUint) -> (r: Option<
    BigUint,
>)
    ensures
        r is Some <==> magnitude(*modulus) > 0,
        r matches Some(signature) ==> magnitude(signature) == mod_power(
            be_value(message_hash@),
            magnitude(*private_key),
            magnitude(*modulus),
        ),
{
    let zero = big_from_u64(0);
    if big_eq(modulus, &zero) {
        None
    } else {
        Some(sign(message_hash, private_key, modulus))
    }
}

/// `verify` for any modulus: nothing where the modulus is zero.
pub fn checked_verify(
    signature: &BigUint,
    public_key: &BigUint,
    modulus: &BigUint,
    message_hash: &Vec<u8>,
) -> (r: Option<bool>)
    ensures
        r is Some <==> magnitude(*modulus) > 0,
        r matches Some(valid) ==> valid == accepted(
            magnitude(*signature),
            magnitude(*public_key),
            magnitude(*modulus),
            message_hash@,
        ),
{
    let zero = big_from_u64(0);
    if big_eq(modulus, &zero) {
        None
    } else {
        Some(verify(signature, public_key, modulus, message_hash))
    }
}

/// A signature verifies against the digest it was made from: where the
/// exponents undo each other and the digest spells a number below the
/// modulus, the signature of the digest is accepted for it.
pub proof fn lemma_signature_verifies(digest: Seq<u8>, e: nat, d: nat, n: nat)
    requires
        exponents_invert(e, d, n),
        be_value(digest) < n,
    ensures
        accepted(mod_power(be_value(digest), d, n), e, n, digest),
{
    lemma_power_of_power(be_value(digest), d, e, n);
}

/// A signature does not verify against another digest: where the exponents
/// undo each other and the signed digest spells a number below the modulus,
/// its signature is accepted for exactly the digests that spell the same
/// number.
pub proof fn lemma_signature_rejects_other(digest: Seq<u8>, other: Seq<u8>, e: nat, d: nat, n: nat)
    requires
        exponents_invert(e, d, n),
        be_value(digest) < n,
    ensures
        accepted(mod_power(be_value(digest), d, n), e, n, other) <==> be_value(other) == be_value(
            digest,
        ),
{
    lemma_power_of_power(be_value(digest), d, e, n);
}

/// A digest that spells a number at or above the modulus is never accepted,
/// whatever the signature: what verification computes lies below the modulus.
pub proof fn lemma_large_digest_is_rejected(
    signature: nat,
    e: nat,
    n: nat,
    digest: Seq<u8>,
)
    requires
        n > 0,
        be_value(digest) >= n,
    ensures
        !accepted(signature, e, n, digest),
{
    lemma_mod_bound(pow(signature as int, e), n as int);
}

/// Two digests of one length that spell the same number are the same bytes.
pub proof fn lemma_digest_number_is_unique(a: Seq<u8>, b: Seq<u8>)
    requires
        a.len() == b.len(),
        be_value(a) == be_value(b),
    ensures
        a == b,
    decreases a.len(),
{
    if a.len() > 0 {
        lemma_digest_number_is_unique(a.drop_last(), b.drop_last());
        assert(a =~= a.drop_last().push(a.last()));
        assert(b =~= b.drop_last().push(b.last()));
    } else {
        assert(a =~= b);
    }
}

/// Tampering shows: where the exponents undo each other and the signed
/// digest spells a number below the modulus, its signature is rejected for
/// every other digest of the same length.
pub proof fn lemma_tampered_digest_is_rejected(
    digest: Seq<u8>,
    other: Seq<u8>,
    e: nat,
    d: nat,
    n: nat,
)
    requires
        exponents_invert(e, d, n),
        be_value(digest) < n,
        other.len() == digest.len(),
        other != digest,
    ensures
        !accepted(mod_power(be_value(digest), d, n), e, n, other),
{
    lemma_signature_rejects_other(digest, other, e, d, n);
    if be_value(other) == be_value(digest) {
        lemma_digest_number_is_unique(other, digest);
    }
}

/// Verification depends on nothing but the numbers and the bytes handed in:
/// two calls on equal values give the same answer.
pub proof fn lemma_verdict_is_determined(
    signature: BigUint,
    public_key: BigUint,
    modulus: BigUint,
    again_signature: BigUint,
    again_key: BigUint,
    again_modulus: BigUint,
    digest: Seq<u8>,
)
    requires
        magnitude(signature) == magnitude(again_signature),
        magnitude(public_key) == magnitude(again_key),
        magnitude(modulus) == magnitude(again_modulus),
    ensures
        accepted(magnitude(signature), magnitude(public_key), magnitude(modulus), digest)
            == accepted(
            magnitude(again_signature),
            magnitude(again_key),
            magnitude(again_modulus),
            digest,
        ),
{
}

/// The digest that spells zero signs to zero under any exponent above zero,
/// and zero is accepted for it.
pub proof fn lemma_zero_digest(digest: Seq<u8>, e: nat, d: nat, n: nat)
    requires
        be_value(digest) == 0,
        e > 0,
        d > 0,
        n > 0,
    ensures
        mod_power(be_value(digest), d, n) == 0,
        accepted(0, e, n, digest),
{
    lemma0_pow(d);
    lemma0_pow(e);
    lemma_small_mod(0, n);
}

} // verus!
