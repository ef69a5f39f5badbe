//! The modular inverse, by the extended Euclidean algorithm with the
//! coefficient kept reduced modulo the modulus.

use vstd::prelude::*;
use vstd::arithmetic::div_mod::{
    lemma_fundamental_div_mod,
    lemma_mod_mod,
    lemma_mod_multiples_vanish,
    lemma_mod_self_0,
    lemma_mod_twice,
    lemma_mul_mod_noop_right,
    lemma_small_mod,
    lemma_sub_mod_noop,
};
use num_bigint::BigUint;
use crate::bigint::{
    big_add,
    big_clone,
    big_div,
    big_eq,
    big_from_u64,
    big_mul,
    big_rem,
    big_sub,
    magnitude,
};
use crate::errors::RsaError;
use crate::numbers::{common_divisor, coprime};

verus! {

/// Replacing `x` by its remainder on division by `y` keeps the common
/// divisors of the pair.
pub proof fn lemma_remainder_keeps_divisors(x: nat, y: nat)
    requires
        y > 0,
    ensures
        forall|d: nat|
            #![trigger common_divisor(d, y, x % y)]
            #![trigger common_divisor(d, x, y)]
            common_divisor(d, y, x % y) <==> common_divisor(d, x, y),
{
    assert forall|d: nat|
        #![trigger common_divisor(d, y, x % y)]
        #![trigger common_divisor(d, x, y)]
        common_divisor(d, y, x % y) <==> common_divisor(d, x, y) by {
        if d > 0 && y % d == 0 {
            let k = y / d;
            lemma_fundamental_div_mod(y as int, d as int);
            assert(y == d * k);
            assert(k > 0) by (nonlinear_arith)
                requires
                    y == d * k,
                    y > 0,
            ;
            lemma_mod_mod(x as int, d as int, k as int);
        }
    }
}

/// One step of the algorithm keeps the remainder congruent to `a` times the
/// coefficient.
proof fn lemma_coefficient_step(a: nat, m: nat, r0: nat, r1: nat, s0: nat, s1: nat)
    requires
        m > 1,
        r1 > 0,
        s0 < m,
        s1 < m,
        (a * s0) % m == r0 % m,
        (a * s1) % m == r1 % m,
    ensures
        ({
            let t = (r0 / r1 * s1) % m;
            let s2 = (s0 + (m - t)) % (m as int);
            t < m && 0 <= s2 < m && (a * s2) % (m as int) == (r0 % r1) % m
        }),
{
    let q = (r0 / r1) as int;
    let mi = m as int;
    let ai = a as int;
    let t = (q * s1) % mi;
    let r2 = (r0 % r1) as int;
    lemma_fundamental_div_mod(r0 as int, r1 as int);
    assert(r2 == r0 - q * r1) by (nonlinear_arith)
        requires
            r0 == r1 * q + r2,
    ;
    // a * t is congruent to q * r1
    lemma_mul_mod_noop_right(ai, q * s1, mi);
    assert(ai * (q * s1) == q * (ai * s1)) by (nonlinear_arith);
    lemma_mul_mod_noop_right(q, ai * s1, mi);
    lemma_mul_mod_noop_right(q, r1 as int, mi);
    assert((ai * t) % mi == (q * r1) % mi);
    // a * s2 is congruent to a * s0 - a * t
    let u = s0 + mi - t;
    lemma_mul_mod_noop_right(ai, u, mi);
    assert(ai * u == mi * ai + (ai * s0 - ai * t)) by (nonlinear_arith)
        requires
            u == s0 + mi - t,
    ;
    lemma_mod_multiples_vanish(ai, ai * s0 - ai * t, mi);
    lemma_sub_mod_noop(ai * s0, ai * t, mi);
    lemma_sub_mod_noop(r0 as int, q * r1, mi);
    assert((ai * (u % mi)) % mi == r2 % mi);
}

/// No number has two inverses below the modulus.
pub proof fn lemma_inverse_is_unique(a: nat, m: nat, x: nat, y: nat)
    requires
        x < m,
        y < m,
        (a * x) % m == 1nat % m,
        (a * y) % m == 1nat % m,
    ensures
        x == y,
{
    if m == 1 {
        return ;
    }
    lemma_small_mod(1, m);
    let ai = a as int;
    let mi = m as int;
    lemma_mul_mod_noop_right(x as int, ai * y, mi);
    lemma_mul_mod_noop_right(y as int, ai * x, mi);
    assert(x * (ai * y) == y * (ai * x)) by (nonlinear_arith);
    assert(x * 1 == x && y * 1 == y);
    lemma_small_mod(x, m);
    lemma_small_mod(y, m);
}

/// The inverse of `a` modulo `m`: the one number below `m` whose product
/// with `a` leaves the remainder that 1 leaves. There is one exactly when
/// `m` is not zero and shares no divisor with `a`; modulo 1 it is 0.
pub fn mod_inverse(a: &BigUint, m: &BigUint) -> (r: Result<BigUint, RsaError>)
    ensures
        r is Ok <==> magnitude(*m) >= 1 && coprime(magnitude(*a), magnitude(*m)),
        r matches Ok(x) ==> magnitude(x) < magnitude(*m) && (magnitude(*a) * magnitude(x))
            % magnitude(*m) == 1nat % magnitude(*m),
        r matches Err(e) ==> e == RsaError::NoInverseExists,
{
    let zero = big_from_u64(0);
    let one = big_from_u64(1);
    if big_eq(m, &zero) {
        return Err(RsaError::NoInverseExists);
    }
    if big_eq(m, &one) {
        proof {
            let av = magnitude(*a);
            assert forall|d: nat| #[trigger] common_divisor(d, av, 1) implies d == 1 by {
                if d > 1 {
                    lemma_small_mod(1, d);
                }
            }
            assert(av * 0 == 0) by (nonlinear_arith);
        }
        return Ok(zero);
    }
    let mut r0 = big_clone(m);
    let mut r1 = big_rem(a, m);
    let mut s0 = big_from_u64(0);
    let mut s1 = big_from_u64(1);
    proof {
        let av = magnitude(*a);
        let mv = magnitude(*m);
        lemma_remainder_keeps_divisors(av, mv);
        lemma_mod_self_0(mv as int);
        lemma_mod_twice(av as int, mv as int);
        assert(av * 0 == 0) by (nonlinear_arith);
        assert(av * 1 == av) by (nonlinear_arith);
        lemma_small_mod(0, mv);
    }
    while !big_eq(&r1, &zero)
        invariant
            magnitude(zero) == 0,
            magnitude(*m) > 1,
            magnitude(r0) > 0,
            magnitude(s0) < magnitude(*m),
            magnitude(s1) < magnitude(*m),
            (magnitude(*a) * magnitude(s0)) % magnitude(*m) == magnitude(r0) % magnitude(*m),
            (magnitude(*a) * magnitude(s1)) % magnitude(*m) == magnitude(r1) % magnitude(*m),
            forall|d: nat|
                #![trigger common_divisor(d, magnitude(r0), magnitude(r1))]
                #![trigger common_divisor(d, magnitude(*a), magnitude(*m))]
                common_divisor(d, magnitude(r0), magnitude(r1)) <==> common_divisor(
                    d,
                    magnitude(*a),
                    magnitude(*m),
                ),
        decreases magnitude(r1),
    {
        let q = big_div(&r0, &r1);
        let r2 = big_rem(&r0, &r1);
        let qs = big_mul(&q, &s1);
        let t = big_rem(&qs, m);
        let back = big_sub(m, &t);
        let sum = big_add(&s0, &back);
        let s2 = big_rem(&sum, m);
        proof {
            lemma_coefficient_step(
                magnitude(*a),
                magnitude(*m),
                magnitude(r0),
                magnitude(r1),
                magnitude(s0),
                magnitude(s1),
            );
            lemma_remainder_keeps_divisors(magnitude(r0), magnitude(r1));
        }
        r0 = r1;
        r1 = r2;
        s0 = s1;
        s1 = s2;
    }
    proof {
        let g = magnitude(r0);
        lemma_mod_self_0(g as int);
        assert(common_divisor(g, g, 0));
        assert(common_divisor(g, magnitude(*a), magnitude(*m)));
        if g == 1 {
            assert forall|d: nat| #[trigger]
                common_divisor(d, magnitude(*a), magnitude(*m)) implies d == 1 by {
                assert(common_divisor(d, g, 0));
                if d > 1 {
                    lemma_small_mod(1, d);
                }
            }
            lemma_small_mod(1, magnitude(*m));
        }
    }
    if big_eq(&r0, &one) {
        Ok(s0)
    } else {
        Err(RsaError::NoInverseExists)
    }
}

} // verus!
