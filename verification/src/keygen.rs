//! Key generation: two random primes, their product and totient, a public
//! exponent coprime to the totient, and the private exponent that inverts it.

use vstd::prelude::*;
use vstd::arithmetic::div_mod::{
    lemma_fundamental_div_mod,
    lemma_mod_multiples_vanish,
    lemma_small_mod,
};
use num_bigint::BigUint;
use crate::bigint::{
    big_add,
    big_clone,
    big_eq,
    big_from_u64,
    big_gcd,
    big_le,
    big_mul,
    big_sub,
    big_to_u16,
    magnitude,
};
use crate::errors::RsaError;
use crate::inverse::mod_inverse;
use crate::numbers::{common_divisor, coprime, is_gcd, is_prime_number};
use crate::prime::generate_large_prime;
use crate::random::random_u16_between;

verus! {

/// One factor of the totient: `p - 1`, and 1 where `p` is below 2.
pub open spec fn one_less(p: nat) -> nat {
    if p > 2 {
        (p - 1) as nat
    } else {
        1
    }
}

/// The totient of the product of `p` and `q`: `(p - 1) * (q - 1)` for primes.
pub open spec fn totient_of(p: nat, q: nat) -> nat {
    one_less(p) * one_less(q)
}

/// `e` is the least number from `start` on that is coprime to `phi`.
pub open spec fn next_coprime_from(start: nat, phi: nat, e: nat) -> bool {
    &&& start <= e
    &&& coprime(e, phi)
    &&& forall|k: nat| start <= k < e ==> !#[trigger] coprime(k, phi)
}

/// The highest number from which the search for a public exponent may
/// start: one less than the totient, but no less than 2 and no more than 16
/// bits hold.
pub open spec fn highest_start(phi: nat) -> nat {
    if phi <= 3 {
        2
    } else if phi - 1 > u16::MAX {
        u16::MAX as nat
    } else {
        (phi - 1) as nat
    }
}

/// `e` is a public exponent that the search can give for the totient `phi`:
/// the least coprime number from some permitted start on.
pub open spec fn public_exponent_for(phi: nat, e: nat) -> bool {
    exists|start: nat|
        2 <= start <= highest_start(phi) && #[trigger] next_coprime_from(start, phi, e)
}

/// `e`, `n` and `d` make a key that belongs to the factors `p` and `q`: `n`
/// is their product, `e` is a public exponent for the totient, and `d` is
/// the inverse of `e` modulo the totient. From a totient of 3 on, `e` lies
/// strictly between 1 and the totient.
pub open spec fn key_of_factors(p: nat, q: nat, e: nat, n: nat, d: nat) -> bool {
    &&& n == p * q
    &&& public_exponent_for(totient_of(p, q), e)
    &&& coprime(e, totient_of(p, q))
    &&& 3 <= totient_of(p, q) ==> 1 < e < totient_of(p, q)
    &&& d < totient_of(p, q)
    &&& (e * d) % totient_of(p, q) == 1nat % totient_of(p, q)
}

/// `e`, `n` and `d` make a key that belongs to the primes `p` and `q`.
pub open spec fn key_of_primes(p: nat, q: nat, e: nat, n: nat, d: nat) -> bool {
    is_prime_number(p) && is_prime_number(q) && key_of_factors(p, q, e, n, d)
}

/// `e`, `n` and `d` make the key of some pair of primes of one byte each.
pub open spec fn generated_key(e: nat, n: nat, d: nat) -> bool {
    exists|p: nat, q: nat| p <= u8::MAX && q <= u8::MAX && #[trigger] key_of_primes(p, q, e, n, d)
}

/// Two numbers are coprime where one of them is a multiple of the other
/// plus or minus 1.
pub proof fn lemma_next_to_multiple(a: nat, b: nat, c: nat)
    requires
        a == b * c + 1 || a + 1 == b * c,
    ensures
        coprime(a, b),
{
    assert forall|d: nat| #[trigger] common_divisor(d, a, b) implies d == 1 by {
        if d > 1 {
            let k = b / d;
            lemma_fundamental_div_mod(b as int, d as int);
            assert(b == d * k);
            assert(b * c == d * (k * c)) by (nonlinear_arith)
                requires
                    b == d * k,
            ;
            lemma_small_mod(1, d);
            lemma_small_mod((d - 1) as nat, d);
            lemma_mod_multiples_vanish(1, -1, d as int);
            lemma_mod_multiples_vanish((k * c) as int, 1, d as int);
            lemma_mod_multiples_vanish((k * c) as int, -1, d as int);
        }
    }
}

/// The greatest common divisor is 1 exactly for coprime numbers.
pub proof fn lemma_gcd_one(g: nat, a: nat, b: nat)
    requires
        is_gcd(g, a, b),
        a != 0 || b != 0,
    ensures
        g == 1 <==> coprime(a, b),
{
    if g == 1 {
        assert forall|d: nat| #[trigger] common_divisor(d, a, b) implies d == 1 by {}
    }
}

/// The totient of the product of `p` and `q`.
pub fn totient(p: &BigUint, q: &BigUint) -> (phi: BigUint)
    ensures
        magnitude(phi) == totient_of(magnitude(*p), magnitude(*q)),
{
    let one = big_from_u64(1);
    let two = big_from_u64(2);
    let phi_p = if big_le(p, &two) {
        big_clone(&one)
    } else {
        big_sub(p, &one)
    };
    let phi_q = if big_le(q, &two) {
        big_clone(&one)
    } else {
        big_sub(q, &one)
    };
    big_mul(&phi_p, &phi_q)
}

/// The least number from `start` on that is coprime to `phi_n`.
pub fn next_coprime(start: BigUint, phi_n: &BigUint) -> (e: BigUint)
    requires
        magnitude(*phi_n) > 0,
    ensures
        next_coprime_from(magnitude(start), magnitude(*phi_n), magnitude(e)),
{
    let one = big_from_u64(1);
    let ghost first = magnitude(start);
    let ghost phi = magnitude(*phi_n);
    let ghost reach = phi * (first / phi + 1) + 1;
    proof {
        lemma_fundamental_div_mod(first as int, phi as int);
        let c = first / phi;
        assert(phi * (c + 1) == phi * c + phi) by (nonlinear_arith);
        assert(first < reach);
        lemma_next_to_multiple(reach, phi, first / phi + 1);
    }
    let mut e = start;
    let mut g = big_gcd(&e, phi_n);
    while !big_eq(&g, &one)
        invariant
            magnitude(one) == 1,
            phi == magnitude(*phi_n),
            phi > 0,
            first <= magnitude(e) <= reach,
            coprime(reach, phi),
            is_gcd(magnitude(g), magnitude(e), phi),
            forall|k: nat| first <= k < magnitude(e) ==> !#[trigger] coprime(k, phi),
        decreases reach - magnitude(e),
    {
        proof {
            lemma_gcd_one(magnitude(g), magnitude(e), phi);
        }
        e = big_add(&e, &one);
        g = big_gcd(&e, phi_n);
    }
    proof {
        lemma_gcd_one(magnitude(g), magnitude(e), phi);
    }
    e
}

/// The totient is never zero.
pub proof fn lemma_totient_positive(p: nat, q: nat)
    ensures
        totient_of(p, q) >= 1,
{
    assert(one_less(p) * one_less(q) >= 1) by (nonlinear_arith)
        requires
            one_less(p) >= 1,
            one_less(q) >= 1,
    ;
}

/// Under a totient above 1, the product of the exponents of a key leaves
/// the remainder 1 modulo the totient.
pub proof fn lemma_key_exponents_multiply_to_one(p: nat, q: nat, e: nat, n: nat, d: nat)
    requires
        key_of_factors(p, q, e, n, d),
        totient_of(p, q) >= 2,
    ensures
        (e * d) % totient_of(p, q) == 1,
{
    lemma_small_mod(1, totient_of(p, q));
}

/// The highest number from which the search for a public exponent starts.
fn start_limit(phi_n: &BigUint) -> (highest: u16)
    ensures
        highest == highest_start(magnitude(*phi_n)),
{
    let three = big_from_u64(3);
    if big_le(phi_n, &three) {
        2
    } else {
        let one = big_from_u64(1);
        let top = big_sub(phi_n, &one);
        match big_to_u16(&top) {
            Some(fits) => fits,
            None => u16::MAX,
        }
    }
}

/// A public exponent for the totient `phi_n`: a random number from 2 up to
/// `highest_start`, moved up to the next number coprime to `phi_n`.
pub fn find_public_exponent(phi_n: &BigUint) -> (e: BigUint)
    requires
        1 <= magnitude(*phi_n),
    ensures
        public_exponent_for(magnitude(*phi_n), magnitude(e)),
        coprime(magnitude(e), magnitude(*phi_n)),
        3 <= magnitude(*phi_n) ==> 1 < magnitude(e) < magnitude(*phi_n),
{
    let highest = start_limit(phi_n);
    let drawn = random_u16_between(2, highest);
    let e = next_coprime(big_from_u64(drawn as u64), phi_n);
    proof {
        let phi = magnitude(*phi_n);
        assert(next_coprime_from(drawn as nat, phi, magnitude(e)));
        if phi >= 3 {
            lemma_next_to_multiple((phi - 1) as nat, phi, 1);
        }
    }
    e
}

/// The key that the factors `p` and `q` and the public exponent `e` give:
/// the exponent, the modulus, the private exponent and the modulus again.
/// There is one exactly when `e` is coprime to the totient.
pub fn key_from_primes(p: &BigUint, q: &BigUint, e: BigUint) -> (r: Result<
    (BigUint, BigUint, BigUint, BigUint),
    RsaError,
>)
    ensures
        r is Ok <==> coprime(magnitude(e), totient_of(magnitude(*p), magnitude(*q))),
        r matches Ok(key) ==> {
            &&& magnitude(key.0) == magnitude(e)
            &&& magnitude(key.1) == magnitude(*p) * magnitude(*q)
            &&& magnitude(key.2) < totient_of(magnitude(*p), magnitude(*q))
            &&& (magnitude(e) * magnitude(key.2)) % totient_of(magnitude(*p), magnitude(*q))
                == 1nat % totient_of(magnitude(*p), magnitude(*q))
            &&& magnitude(key.3) == magnitude(key.1)
        },
        r matches Err(err) ==> err == RsaError::NoInverseExists,
{
    let n = big_mul(p, q);
    let phi_n = totient(p, q);
    proof {
        lemma_totient_positive(magnitude(*p), magnitude(*q));
    }
    match mod_inverse(&e, &phi_n) {
        Ok(d) => Ok((e, big_clone(&n), d, n)),
        Err(err) => Err(err),
    }
}

/// A key for the factors `p` and `q`, with a freshly drawn public exponent:
/// the exponent, the modulus, the private exponent and the modulus again.
/// The search gives an exponent coprime to the totient, so the inverse
/// exists and a key always comes back.
pub fn key_for_primes(p: &BigUint, q: &BigUint) -> (r: Result<
    (BigUint, BigUint, BigUint, BigUint),
    RsaError,
>)
    ensures
        r is Ok,
        r matches Ok(key) ==> key_of_factors(
            magnitude(*p),
            magnitude(*q),
            magnitude(key.0),
            magnitude(key.1),
            magnitude(key.2),
        ) && magnitude(key.3) == magnitude(key.1),
{
    let phi_n = totient(p, q);
    proof {
        lemma_totient_positive(magnitude(*p), magnitude(*q));
    }
    let e = find_public_exponent(&phi_n);
    key_from_primes(p, q, e)
}

/// A fresh key: the public exponent, the modulus, the private exponent and
/// the modulus again, from two random primes of one byte each. The two
/// primes are drawn independently and may be equal; the modulus is then a
/// square. No key comes back only where no prime turned up.
pub fn key_gen() -> (r: Result<(BigUint, BigUint, BigUint, BigUint), RsaError>)
    ensures
        r matches Ok(key) ==> generated_key(
            magnitude(key.0),
            magnitude(key.1),
            magnitude(key.2),
        ) && magnitude(key.3) == magnitude(key.1) && magnitude(key.1) >= 4,
        r matches Err(err) ==> err == RsaError::GenerationTimeout,
{
    let p = match generate_large_prime() {
        Ok(p) => p,
        Err(err) => {
            return Err(err);
        },
    };
    let q = match generate_large_prime() {
        Ok(q) => q,
        Err(err) => {
            return Err(err);
        },
    };
    match key_for_primes(&p, &q) {
        Ok(key) => {
            proof {
                assert(key_of_primes(
                    magnitude(p),
                    magnitude(q),
                    magnitude(key.0),
                    magnitude(key.1),
                    magnitude(key.2),
                ));
                assert(magnitude(p) * magnitude(q) >= 4) by (nonlinear_arith)
                    requires
                        magnitude(p) >= 2,
                        magnitude(q) >= 2,
                ;
            }
            Ok(key)
        },
        Err(err) => Err(err),
    }
}

} // verus!
