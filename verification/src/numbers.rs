//! The mathematical vocabulary of the contracts: divisors, coprimality,
//! primality and the big-endian reading of a byte string.

use vstd::prelude::*;

verus! {

/// `d` is positive and divides both `a` and `b`.
pub open spec fn common_divisor(d: nat, a: nat, b: nat) -> bool {
    d > 0 && a % d == 0 && b % d == 0
}

/// `a` and `b` share no divisor but 1.
pub open spec fn coprime(a: nat, b: nat) -> bool {
    forall|d: nat| #[trigger] common_divisor(d, a, b) ==> d == 1
}

/// `g` is the greatest common divisor of `a` and `b`; that of 0 and 0 is 0.
pub open spec fn is_gcd(g: nat, a: nat, b: nat) -> bool {
    if a == 0 && b == 0 {
        g == 0
    } else {
        common_divisor(g, a, b) && forall|d: nat| #[trigger] common_divisor(d, a, b) ==> d <= g
    }
}

/// `d` is a divisor of `n` other than 1 and `n` itself.
pub open spec fn proper_divisor(d: nat, n: nat) -> bool {
    1 < d < n && n % d == 0
}

/// `n` is a prime number.
pub open spec fn is_prime_number(n: nat) -> bool {
    n > 1 && forall|d: nat| !#[trigger] proper_divisor(d, n)
}

/// `d` is a divisor of `n` between 2 and the square root of `n`, both included.
pub open spec fn low_divisor(d: nat, n: nat) -> bool {
    2 <= d && d * d <= n && n % d == 0
}

/// The square of `r`.
pub open spec fn square(r: nat) -> nat {
    r * r
}

/// The number that the bytes `s` spell, most significant byte first.
pub open spec fn be_value(s: Seq<u8>) -> nat
    decreases s.len(),
{
    if s.len() == 0 {
        0
    } else {
        be_value(s.drop_last()) * 256 + s.last() as nat
    }
}

} // verus!
