//! Why the exponents of a key undo each other: Bezout's identity, Euclid's
//! lemma, the binomial theorem modulo a prime and Fermat's little theorem.

use vstd::prelude::*;
use vstd::arithmetic::div_mod::{
    lemma_fundamental_div_mod,
    lemma_mod_is_zero,
    lemma_mod_multiples_basic,
    lemma_mod_multiples_vanish,
    lemma_mod_self_0,
    lemma_small_mod,
};
use vstd::arithmetic::div_mod::{lemma_add_mod_noop, lemma_mul_mod_noop_general};
use vstd::arithmetic::power::{lemma0_pow, lemma_pow1, lemma_pow_adds, pow};
use vstd::arithmetic::div_mod::lemma_mod_equivalence;
use crate::keygen::{generated_key, key_of_primes, lemma_totient_positive, totient_of};
use crate::numbers::{be_value, is_prime_number, proper_divisor, square};
use crate::signature::{
    accepted,
    exponents_invert,
    lemma_signature_verifies,
    lemma_tampered_digest_is_rejected,
    mod_power,
};

verus! {

/// A sum of a multiple of `b` and of `r` is divisible by what divides both.
pub proof fn lemma_divides_combination(g: nat, b: nat, q: nat, r: nat)
    requires
        g > 0,
        b % g == 0,
        r % g == 0,
    ensures
        (b * q + r) % g == 0,
{
    let k = b / g;
    lemma_fundamental_div_mod(b as int, g as int);
    assert(b * q == g * (k * q)) by (nonlinear_arith)
        requires
            b == g * k,
    ;
    lemma_mod_multiples_vanish((k * q) as int, r as int, g as int);
}

/// Bezout's identity: some combination of `a` and `b` with whole
/// coefficients is a common divisor of both.
pub proof fn lemma_bezout(a: nat, b: nat) -> (r: (int, int, nat))
    requires
        a > 0 || b > 0,
    ensures
        r.2 > 0,
        a * r.0 + b * r.1 == r.2,
        a % r.2 == 0,
        b % r.2 == 0,
    decreases b,
{
    if b == 0 {
        lemma_mod_self_0(a as int);
        lemma_small_mod(0, a);
        (1, 0, a)
    } else {
        let rest = a % b;
        let sub = lemma_bezout(b, rest);
        let x = sub.0;
        let y = sub.1;
        let g = sub.2;
        let q = a / b;
        lemma_fundamental_div_mod(a as int, b as int);
        lemma_divides_combination(g, b, q, rest);
        assert(a * y + b * (x - q * y) == g) by (nonlinear_arith)
            requires
                a == b * q + rest,
                b * x + rest * y == g,
        ;
        (y, x - q * y, g)
    }
}

/// Euclid's lemma: a prime that divides a product divides one of the factors.
pub proof fn lemma_prime_divides_factor(p: nat, a: nat, b: int)
    requires
        is_prime_number(p),
        a % p != 0,
        (a * b) % (p as int) == 0,
    ensures
        b % (p as int) == 0,
{
    let r = lemma_bezout(a, p);
    let x = r.0;
    let y = r.1;
    let g = r.2;
    assert(!proper_divisor(g, p));
    lemma_mod_is_zero(p, g);
    assert(g == 1);
    let c = (a * b) / (p as int);
    lemma_fundamental_div_mod(a * b, p as int);
    assert(b == (c * x + b * y) * p) by (nonlinear_arith)
        requires
            a * x + p * y == 1,
            a * b == p * c,
    ;
    lemma_mod_multiples_basic(c * x + b * y, p as int);
}

/// The number of ways to pick `k` of `n` things, by Pascal's rule.
pub open spec fn binomial(n: nat, k: nat) -> nat
    decreases n,
{
    if k == 0 {
        1
    } else if n == 0 {
        0
    } else {
        binomial((n - 1) as nat, (k - 1) as nat) + binomial((n - 1) as nat, k)
    }
}

/// The first terms of the expansion of `(x + 1)` to the power `n`: those up
/// to the power `j` of `x`.
pub open spec fn binomial_sum(n: nat, x: int, j: nat) -> int
    decreases j,
{
    if j == 0 {
        1
    } else {
        binomial_sum(n, x, (j - 1) as nat) + binomial(n, j) * pow(x, j)
    }
}

/// There is no way to pick more than there is.
pub proof fn lemma_binomial_above(n: nat, k: nat)
    requires
        k > n,
    ensures
        binomial(n, k) == 0,
    decreases n,
{
    if n > 0 {
        lemma_binomial_above((n - 1) as nat, (k - 1) as nat);
        lemma_binomial_above((n - 1) as nat, k);
    }
}

/// There is one way to pick everything.
pub proof fn lemma_binomial_full(n: nat)
    ensures
        binomial(n, n) == 1,
    decreases n,
{
    if n > 0 {
        lemma_binomial_full((n - 1) as nat);
        lemma_binomial_above((n - 1) as nat, n);
    }
}

/// The absorption identity: `k` times `n` choose `k` is `n` times `n - 1`
/// choose `k - 1`.
pub proof fn lemma_binomial_absorbs(n: nat, k: nat)
    requires
        n >= 1,
        k >= 1,
    ensures
        k * binomial(n, k) == n * binomial((n - 1) as nat, (k - 1) as nat),
    decreases n,
{
    let a = binomial((n - 1) as nat, (k - 1) as nat);
    let b = binomial((n - 1) as nat, k);
    assert(binomial(n, k) == a + b);
    if n == 1 {
        if k > 1 {
            lemma_binomial_above(0, (k - 1) as nat);
        }
        lemma_binomial_above(0, k);
        assert(k * (a + b) == 1 * a) by (nonlinear_arith)
            requires
                b == 0,
                k == 1 || a == 0,
        ;
    } else {
        lemma_binomial_absorbs((n - 1) as nat, k);
        let c2 = binomial((n - 2) as nat, (k - 1) as nat);
        if k == 1 {
            assert(a == 1);
            assert(c2 == 1);
            assert(k * (a + b) == n * a) by (nonlinear_arith)
                requires
                    k == 1,
                    a == 1,
                    k * b == (n - 1) * c2,
                    c2 == 1,
            ;
        } else {
            lemma_binomial_absorbs((n - 1) as nat, (k - 1) as nat);
            let c1 = binomial((n - 2) as nat, (k - 2) as nat);
            assert(a == c1 + c2);
            assert(k * (a + b) == n * a) by (nonlinear_arith)
                requires
                    k * b == (n - 1) * c2,
                    (k - 1) * a == (n - 1) * c1,
                    a == c1 + c2,
            ;
        }
    }
}

/// A prime divides each of its binomial coefficients but the first and
/// the last.
pub proof fn lemma_prime_divides_binomial(p: nat, k: nat)
    requires
        is_prime_number(p),
        0 < k < p,
    ensures
        binomial(p, k) % p == 0,
{
    lemma_binomial_absorbs(p, k);
    let c = binomial((p - 1) as nat, (k - 1) as nat);
    lemma_mod_multiples_basic(c as int, p as int);
    assert(p * c == c * p) by (nonlinear_arith);
    lemma_small_mod(k, p);
    lemma_prime_divides_factor(p, k, binomial(p, k) as int);
}

/// Multiplying the first terms of the expansion by `x + 1` gives the first
/// terms of the next expansion and one term more.
pub proof fn lemma_binomial_sum_step(n: nat, x: int, j: nat)
    ensures
        (x + 1) * binomial_sum(n, x, j) == binomial_sum(n + 1, x, j) + binomial(n, j) * pow(
            x,
            j + 1,
        ),
    decreases j,
{
    reveal(pow);
    if j == 0 {
        lemma_pow1(x);
        assert((x + 1) * 1 == 1 + 1 * x) by (nonlinear_arith);
    } else {
        let before = (j - 1) as nat;
        lemma_binomial_sum_step(n, x, before);
        let s0 = binomial_sum(n, x, before);
        let t0 = binomial_sum(n + 1, x, before);
        let cj = binomial(n, j) as int;
        let cb = binomial(n, before) as int;
        let xj = pow(x, j);
        let xn = pow(x, j + 1);
        assert(xn == x * xj);
        assert(binomial(n + 1, j) == cb + cj);
        assert((x + 1) * (s0 + cj * xj) == t0 + (cb + cj) * xj + cj * xn) by (nonlinear_arith)
            requires
                (x + 1) * s0 == t0 + cb * xj,
                xn == x * xj,
        ;
    }
}

/// The binomial theorem for `x + 1`.
pub proof fn lemma_binomial_theorem(n: nat, x: int)
    ensures
        pow(x + 1, n) == binomial_sum(n, x, n),
    decreases n,
{
    reveal(pow);
    if n > 0 {
        let m = (n - 1) as nat;
        lemma_binomial_theorem(m, x);
        lemma_binomial_sum_step(m, x, m);
        lemma_binomial_full(m);
        lemma_binomial_full(n);
        assert(binomial(m, m) * pow(x, n) == binomial(n, n) * pow(x, n));
    }
}

/// Modulo a prime, the first terms of the expansion to the power of that
/// prime come to 1.
pub proof fn lemma_binomial_sum_mod_prime(p: nat, x: int, j: nat)
    requires
        is_prime_number(p),
        j < p,
    ensures
        binomial_sum(p, x, j) % (p as int) == 1,
    decreases j,
{
    lemma_small_mod(1, p);
    if j > 0 {
        lemma_binomial_sum_mod_prime(p, x, (j - 1) as nat);
        lemma_prime_divides_binomial(p, j);
        let c = binomial(p, j);
        let k = c / p;
        lemma_fundamental_div_mod(c as int, p as int);
        assert(c * pow(x, j) == p * (k * pow(x, j))) by (nonlinear_arith)
            requires
                c == p * k,
        ;
        lemma_mod_multiples_vanish(
            k * pow(x, j),
            binomial_sum(p, x, (j - 1) as nat),
            p as int,
        );
    }
}

/// Fermat's little theorem: a number to the power of a prime leaves the
/// remainder that the number leaves.
pub proof fn lemma_fermat(p: nat, a: nat)
    requires
        is_prime_number(p),
    ensures
        pow(a as int, p) % (p as int) == a % p,
    decreases a,
{
    if a == 0 {
        lemma0_pow(p);
    } else {
        let x = (a - 1) as int;
        let pi = p as int;
        lemma_fermat(p, (a - 1) as nat);
        lemma_binomial_theorem(p, x);
        lemma_binomial_sum_mod_prime(p, x, (p - 1) as nat);
        lemma_binomial_full(p);
        let s = binomial_sum(p, x, (p - 1) as nat);
        assert(binomial_sum(p, x, p) == s + 1 * pow(x, p));
        assert(pow(x + 1, p) == s + pow(x, p));
        lemma_add_mod_noop(s, pow(x, p), pi);
        lemma_add_mod_noop(1, x, pi);
        lemma_small_mod(1, p);
    }
}

/// A number to a power that is 1 more than a multiple of `p - 1` leaves,
/// modulo the prime `p`, the remainder that the number leaves.
pub proof fn lemma_power_cycle(p: nat, a: nat, m: nat)
    requires
        is_prime_number(p),
    ensures
        pow(a as int, (1 + m * (p - 1)) as nat) % (p as int) == a % p,
    decreases m,
{
    let ai = a as int;
    let pi = p as int;
    if m == 0 {
        assert(0 * (p - 1) == 0) by (nonlinear_arith);
        lemma_pow1(ai);
    } else {
        let before = (1 + (m - 1) * (p - 1)) as nat;
        let turn = (p - 1) as nat;
        lemma_power_cycle(p, a, (m - 1) as nat);
        assert(1 + m * (p - 1) == before + turn) by (nonlinear_arith)
            requires
                before == 1 + (m - 1) * (p - 1),
                turn == p - 1,
        ;
        lemma_pow_adds(ai, before, turn);
        lemma_mul_mod_noop_general(pow(ai, before), pow(ai, turn), pi);
        lemma_mul_mod_noop_general(ai, pow(ai, turn), pi);
        assert(pow(ai, p) == ai * pow(ai, turn)) by {
            reveal(pow);
        }
        lemma_fermat(p, a);
    }
}

/// Of two different primes, neither divides the other.
pub proof fn lemma_distinct_primes(p: nat, q: nat)
    requires
        is_prime_number(p),
        is_prime_number(q),
        p != q,
    ensures
        p % q != 0,
{
    if p % q == 0 {
        lemma_mod_is_zero(p, q);
        assert(proper_divisor(q, p));
    }
}

/// What two different primes both divide, their product divides.
pub proof fn lemma_product_of_primes_divides(p: nat, q: nat, y: int)
    requires
        is_prime_number(p),
        is_prime_number(q),
        p != q,
        y % (p as int) == 0,
        y % (q as int) == 0,
    ensures
        p * q > 0,
        y % ((p * q) as int) == 0,
{
    let t = y / (p as int);
    lemma_fundamental_div_mod(y, p as int);
    lemma_distinct_primes(p, q);
    lemma_prime_divides_factor(q, p, t);
    let s = t / (q as int);
    lemma_fundamental_div_mod(t, q as int);
    assert(p * q > 0) by (nonlinear_arith)
        requires
            p > 1,
            q > 1,
    ;
    assert(y == s * (p * q)) by (nonlinear_arith)
        requires
            y == p * t,
            t == q * s,
    ;
    lemma_mod_multiples_basic(s, (p * q) as int);
}

/// Exponents whose product leaves 1 modulo the totient of two different
/// primes undo each other modulo the product of the primes: a number below
/// it, raised to the product of the exponents, comes back.
pub proof fn lemma_key_exponents_invert(p: nat, q: nat, e: nat, n: nat, d: nat)
    requires
        is_prime_number(p),
        is_prime_number(q),
        p != q,
        n == p * q,
        (e * d) % totient_of(p, q) == 1,
    ensures
        exponents_invert(e, d, n),
{
    let phi = totient_of(p, q);
    lemma_totient_positive(p, q);
    let k = (e * d) / phi;
    lemma_fundamental_div_mod((e * d) as int, phi as int);
    assert(phi == (p - 1) * (q - 1));
    let mp = k * (q - 1);
    let mq = k * (p - 1);
    assert(mp >= 0 && mq >= 0) by (nonlinear_arith)
        requires
            mp == k * (q - 1),
            mq == k * (p - 1),
            p > 1,
            q > 1,
    ;
    assert(d * e == 1 + mp * (p - 1) && d * e == 1 + mq * (q - 1)) by (nonlinear_arith)
        requires
            e * d == phi * k + 1,
            phi == (p - 1) * (q - 1),
            mp == k * (q - 1),
            mq == k * (p - 1),
    ;
    assert forall|x: nat| x < n implies #[trigger] mod_power(x, d * e, n) == x by {
        let full = pow(x as int, d * e);
        lemma_power_cycle(p, x, mp as nat);
        lemma_power_cycle(q, x, mq as nat);
        lemma_mod_equivalence(full, x as int, p as int);
        lemma_mod_equivalence(full, x as int, q as int);
        lemma_product_of_primes_divides(p, q, full - x);
        lemma_mod_equivalence(full, x as int, n as int);
        lemma_small_mod(x, n);
    }
}

/// Signing and verifying round-trip where the modulus is the product of two
/// different primes and the product of the exponents leaves 1 modulo the
/// totient: the signature of a digest that spells a number below the modulus is
/// accepted for that digest.
pub proof fn lemma_key_signature_verifies(
    p: nat,
    q: nat,
    e: nat,
    n: nat,
    d: nat,
    digest: Seq<u8>,
)
    requires
        is_prime_number(p),
        is_prime_number(q),
        p != q,
        n == p * q,
        (e * d) % totient_of(p, q) == 1,
        be_value(digest) < n,
    ensures
        accepted(mod_power(be_value(digest), d, n), e, n, digest),
{
    lemma_key_exponents_invert(p, q, e, n, d);
    lemma_signature_verifies(digest, e, d, n);
}

/// Signing and verifying round-trip under a generated key whose modulus is
/// not a square: the signature of a digest that spells a number below the
/// modulus is accepted for that digest.
pub proof fn lemma_generated_key_signature_verifies(e: nat, n: nat, d: nat, digest: Seq<u8>)
    requires
        generated_key(e, n, d),
        forall|r: nat| #[trigger] square(r) != n,
        be_value(digest) < n,
    ensures
        accepted(mod_power(be_value(digest), d, n), e, n, digest),
{
    let (p, q) = choose|p: nat, q: nat|
        p <= u8::MAX && q <= u8::MAX && #[trigger] key_of_primes(p, q, e, n, d);
    assert(square(p) != n);
    let phi = totient_of(p, q);
    assert(phi >= 2) by (nonlinear_arith)
        requires
            phi == (p - 1) * (q - 1),
            p >= 2,
            q >= 2,
            p != q,
    ;
    lemma_small_mod(1, phi);
    lemma_key_signature_verifies(p, q, e, n, d, digest);
}

/// Tampering shows where the modulus is the product of two different primes
/// and the product of the exponents leaves 1 modulo the totient: the
/// signature of a digest that spells a number below the modulus is rejected for every
/// other digest of the same length.
pub proof fn lemma_key_rejects_tampered_digest(
    p: nat,
    q: nat,
    e: nat,
    n: nat,
    d: nat,
    digest: Seq<u8>,
    other: Seq<u8>,
)
    requires
        is_prime_number(p),
        is_prime_number(q),
        p != q,
        n == p * q,
        (e * d) % totient_of(p, q) == 1,
        be_value(digest) < n,
        other.len() == digest.len(),
        other != digest,
    ensures
        !accepted(mod_power(be_value(digest), d, n), e, n, other),
{
    lemma_key_exponents_invert(p, q, e, n, d);
    lemma_tampered_digest_is_rejected(digest, other, e, d, n);
}

} // verus!
