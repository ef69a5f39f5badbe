//! Primality by trial division, and the search for a random prime.

use vstd::prelude::*;
use vstd::arithmetic::div_mod::{lemma_fundamental_div_mod, lemma_mod_multiples_basic};
use num_bigint::BigUint;
use crate::bigint::{big_add, big_eq, big_from_u64, big_le, big_rem, big_sqrt, magnitude};
use crate::errors::RsaError;
use crate::numbers::{is_prime_number, low_divisor, proper_divisor};
use crate::random::random_byte;

verus! {

/// Trial division up to the square root decides primality: a number above 1
/// is prime exactly when no number from 2 up to its square root divides it.
pub proof fn lemma_trial_division(n: nat)
    requires
        n > 1,
    ensures
        is_prime_number(n) <==> (forall|d: nat| !#[trigger] low_divisor(d, n)),
{
    if is_prime_number(n) {
        assert forall|d: nat| !#[trigger] low_divisor(d, n) by {
            if low_divisor(d, n) {
                assert(d < n) by (nonlinear_arith)
                    requires
                        2 <= d,
                        d * d <= n,
                ;
                assert(proper_divisor(d, n));
            }
        }
    }
    if forall|d: nat| !#[trigger] low_divisor(d, n) {
        assert forall|d: nat| !#[trigger] proper_divisor(d, n) by {
            if proper_divisor(d, n) {
                let k = n / d;
                lemma_fundamental_div_mod(n as int, d as int);
                assert(n == d * k);
                assert(2 <= k && (d * d <= n || k * k <= n)) by (nonlinear_arith)
                    requires
                        n == d * k,
                        1 < d < n,
                ;
                if d * d <= n {
                    assert(low_divisor(d, n));
                } else {
                    lemma_mod_multiples_basic(d as int, k as int);
                    assert(d * k == k * d) by (nonlinear_arith);
                    assert(low_divisor(k, n));
                }
            }
        }
    }
}

/// Whether `n` is prime, found by dividing it by every number from 2 up to
/// its square root.
pub fn is_prime(n: &BigUint) -> (r: bool)
    ensures
        r == is_prime_number(magnitude(*n)),
        r == (magnitude(*n) > 1 && forall|d: nat| !#[trigger] low_divisor(d, magnitude(*n))),
{
    let zero = big_from_u64(0);
    let one = big_from_u64(1);
    if big_le(n, &one) {
        return false;
    }
    proof {
        lemma_trial_division(magnitude(*n));
    }
    let two = big_from_u64(2);
    let three = big_from_u64(3);
    if big_eq(n, &two) || big_eq(n, &three) {
        proof {
            assert forall|d: nat| !#[trigger] low_divisor(d, magnitude(*n)) by {
                assert(2 <= d ==> d * d >= 4) by (nonlinear_arith);
            }
        }
        return true;
    }
    let root = big_sqrt(n);
    proof {
        let s = magnitude(root);
        assert(s >= 1) by (nonlinear_arith)
            requires
                1 < (s + 1) * (s + 1),
        ;
    }
    let mut i = two;
    while big_le(&i, &root)
        invariant
            magnitude(zero) == 0,
            magnitude(one) == 1,
            magnitude(*n) > 1,
            2 <= magnitude(i) <= magnitude(root) + 1,
            magnitude(root) * magnitude(root) <= magnitude(*n),
            magnitude(*n) < (magnitude(root) + 1) * (magnitude(root) + 1),
            forall|d: nat| #[trigger] low_divisor(d, magnitude(*n)) ==> d >= magnitude(i),
        decreases magnitude(root) + 1 - magnitude(i),
    {
        let rest = big_rem(n, &i);
        if big_eq(&rest, &zero) {
            proof {
                let d = magnitude(i);
                let s = magnitude(root);
                assert(d * d <= s * s) by (nonlinear_arith)
                    requires
                        d <= s,
                ;
                assert(low_divisor(d, magnitude(*n)));
                lemma_trial_division(magnitude(*n));
            }
            return false;
        }
        i = big_add(&i, &one);
    }
    proof {
        let s = magnitude(root);
        assert forall|d: nat| !#[trigger] low_divisor(d, magnitude(*n)) by {
            if low_divisor(d, magnitude(*n)) {
                assert(d * d >= (s + 1) * (s + 1)) by (nonlinear_arith)
                    requires
                        d >= s + 1,
                ;
            }
        }
    }
    true
}

/// How many random candidates `generate_large_prime` tries before it gives up.
pub const MAX_DRAWS: u64 = 0xffff_ffff_ffff_ffff;

/// A random prime of one byte: candidates are drawn until one is prime.
/// Which bytes are drawn is chance, so a prime is promised only where a
/// number comes back; `GenerationTimeout` says that `MAX_DRAWS` candidates in
/// a row were composite.
pub fn generate_large_prime() -> (r: Result<BigUint, RsaError>)
    ensures
        r matches Ok(p) ==> is_prime_number(magnitude(p)) && magnitude(p) <= u8::MAX,
        r matches Err(err) ==> err == RsaError::GenerationTimeout,
{
    let mut left: u64 = MAX_DRAWS;
    while left > 0
        decreases left,
    {
        let candidate = big_from_u64(random_byte() as u64);
        if is_prime(&candidate) {
            return Ok(candidate);
        }
        left = left - 1;
    }
    Err(RsaError::GenerationTimeout)
}

} // verus!
