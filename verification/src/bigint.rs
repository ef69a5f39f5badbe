//! The arbitrary-precision unsigned integer and the operations on it that the
//! library uses. Each function here hands one operation on to `num_bigint`;
//! its contract is taken on trust from that crate's documentation.

use vstd::prelude::*;
use vstd::arithmetic::power::pow;
use num_bigint::BigUint;
use num_integer::Integer;
use crate::numbers::{be_value, is_gcd};

verus! {

/// `num_bigint::BigUint`, the unsigned integer of any size. What it holds is
/// seen only through `magnitude`.
#[verifier::external_type_specification]
#[verifier::external_body]
pub struct ExBigUint(num_bigint::BigUint);

/// The natural number that a `BigUint` holds.
pub uninterp spec fn magnitude(b: BigUint) -> nat;

/// `BigUint::from` on a `u64`: the big integer with the same value.
#[verifier::external_body]
pub(crate) fn big_from_u64(v: u64) -> (r: BigUint)
    ensures
        magnitude(r) == v,
{
    BigUint::from(v)
}

/// `BigUint::clone`: a copy with the same value.
#[verifier::external_body]
pub(crate) fn big_clone(a: &BigUint) -> (r: BigUint)
    ensures
        magnitude(r) == magnitude(*a),
{
    a.clone()
}

/// `BigUint::to_u16` of `num_traits::ToPrimitive`: the value where it fits
/// in 16 bits, nothing where it does not.
#[verifier::external_body]
pub(crate) fn big_to_u16(a: &BigUint) -> (r: Option<u16>)
    ensures
        r is Some <==> magnitude(*a) <= u16::MAX,
        r is Some ==> r.unwrap() == magnitude(*a),
{
    num_traits::ToPrimitive::to_u16(a)
}

/// `BigUint::from_bytes_be`: the number that the bytes spell, most significant
/// byte first; zero for no bytes.
#[verifier::external_body]
pub(crate) fn big_from_bytes_be(bytes: &[u8]) -> (r: BigUint)
    ensures
        magnitude(r) == be_value(bytes@),
{
    BigUint::from_bytes_be(bytes)
}

/// `==` on two `BigUint`: whether they hold the same number.
#[verifier::external_body]
pub(crate) fn big_eq(a: &BigUint, b: &BigUint) -> (r: bool)
    ensures
        r == (magnitude(*a) == magnitude(*b)),
{
    a == b
}

/// `<=` on two `BigUint`: the order of the numbers they hold.
#[verifier::external_body]
pub(crate) fn big_le(a: &BigUint, b: &BigUint) -> (r: bool)
    ensures
        r == (magnitude(*a) <= magnitude(*b)),
{
    a <= b
}

/// `+` on two `BigUint`: the sum, which never overflows.
#[verifier::external_body]
pub(crate) fn big_add(a: &BigUint, b: &BigUint) -> (r: BigUint)
    ensures
        magnitude(r) == magnitude(*a) + magnitude(*b),
{
    a + b
}

/// `-` on two `BigUint`: the difference. The operator panics where the
/// result would be negative, so the caller rules that out.
#[verifier::external_body]
pub(crate) fn big_sub(a: &BigUint, b: &BigUint) -> (r: BigUint)
    requires
        magnitude(*b) <= magnitude(*a),
    ensures
        magnitude(r) == magnitude(*a) - magnitude(*b),
{
    a - b
}

/// `*` on two `BigUint`: the product.
#[verifier::external_body]
pub(crate) fn big_mul(a: &BigUint, b: &BigUint) -> (r: BigUint)
    ensures
        magnitude(r) == magnitude(*a) * magnitude(*b),
{
    a * b
}

/// `/` on two `BigUint`: the quotient rounded down. The operator panics on a
/// zero divisor, so the caller rules that out.
#[verifier::external_body]
pub(crate) fn big_div(a: &BigUint, b: &BigUint) -> (r: BigUint)
    requires
        magnitude(*b) > 0,
    ensures
        magnitude(r) == magnitude(*a) / magnitude(*b),
{
    a / b
}

/// `%` on two `BigUint`: the remainder. The operator panics on a zero
/// divisor, so the caller rules that out.
#[verifier::external_body]
pub(crate) fn big_rem(a: &BigUint, b: &BigUint) -> (r: BigUint)
    requires
        magnitude(*b) > 0,
    ensures
        magnitude(r) == magnitude(*a) % magnitude(*b),
{
    a % b
}

/// `BigUint::sqrt`: the square root rounded down.
#[verifier::external_body]
pub(crate) fn big_sqrt(a: &BigUint) -> (r: BigUint)
    ensures
        magnitude(r) * magnitude(r) <= magnitude(*a),
        magnitude(*a) < (magnitude(r) + 1) * (magnitude(r) + 1),
{
    a.sqrt()
}

/// `Integer::gcd` of `num_integer` on two `BigUint`: their greatest common
/// divisor, which is the other number where one of them is zero.
#[verifier::external_body]
pub(crate) fn big_gcd(a: &BigUint, b: &BigUint) -> (r: BigUint)
    ensures
        is_gcd(magnitude(r), magnitude(*a), magnitude(*b)),
{
    a.gcd(b)
}

/// `BigUint::modpow`: `base` raised to `exponent`, reduced modulo `modulus`.
/// The method panics on a zero modulus; the contract speaks of moduli above 1.
#[verifier::external_body]
pub(crate) fn big_modpow(base: &BigUint, exponent: &BigUint, modulus: &BigUint) -> (r: BigUint)
    requires
        magnitude(*modulus) > 1,
    ensures
        magnitude(r) == pow(magnitude(*base) as int, magnitude(*exponent)) % (magnitude(
            *modulus,
        ) as int),
{
    base.modpow(exponent, modulus)
}

} // verus!
