//! The uniqueness of a factorization into primes: whatever way the
//! factors were found, the same primes come out, each as often.

use crate::factor::{lemma_product_positive, product, FactorView};
use crate::numbers::{
    divides, is_prime, lemma_divides_multiple, lemma_divides_quotient, lemma_euclid,
    lemma_multiplicity_divides, lemma_multiplicity_is, lemma_prime_divides_power,
    lemma_prime_divisors, multiplicity,
};
use vstd::arithmetic::div_mod::*;
use vstd::arithmetic::mul::*;
use vstd::arithmetic::power::*;
use vstd::prelude::*;

verus! {

/// Every factor of the list is a power of a prime.
pub open spec fn all_prime(s: Seq<FactorView>) -> bool {
    forall|i: int| 0 <= i < s.len() ==> is_prime(#[trigger] s[i].prime)
}

/// How often `p` occurs among the prime factors that a list stands for:
/// the sum of the exponents of the factors of `p` in it.
pub open spec fn occurrences(s: Seq<FactorView>, p: int) -> nat
    decreases s.len(),
{
    if s.len() == 0 {
        0
    } else if s.last().prime == p {
        occurrences(s.drop_last(), p) + s.last().exp
    } else {
        occurrences(s.drop_last(), p)
    }
}

/// A positive number is the greatest power of `p` in it times a number
/// that `p` does not divide.
pub proof fn lemma_multiplicity_split(p: int, n: int)
    requires
        p >= 2,
        n > 0,
    ensures
        n == pow(p, multiplicity(p, n)) * (n / pow(p, multiplicity(p, n))),
        n / pow(p, multiplicity(p, n)) > 0,
        !divides(p, n / pow(p, multiplicity(p, n))),
{
    let e = multiplicity(p, n);
    let d = pow(p, e);
    let r = n / d;
    lemma_multiplicity_divides(p, n);
    lemma_pow_positive(p, e);
    lemma_pow_positive(p, e + 1);
    lemma_pow_adds(p, e, 1);
    lemma_pow1(p);
    lemma_divides_quotient(d, n);
    assert(r > 0) by (nonlinear_arith)
        requires
            n == d * r,
            n > 0,
            d > 0,
    ;
    if divides(p, r) {
        lemma_divides_quotient(p, r);
        assert(n == pow(p, e + 1) * (r / p)) by (nonlinear_arith)
            requires
                n == d * r,
                r == p * (r / p),
                pow(p, e + 1) == d * p,
        ;
        lemma_divides_multiple(pow(p, e + 1), r / p);
    }
}

/// The multiplicity of `p` in a power of `p` times a number that `p`
/// does not divide is the exponent of the power.
pub proof fn lemma_multiplicity_of_split(p: int, e: nat, r: int)
    requires
        p >= 2,
        r > 0,
        !divides(p, r),
    ensures
        multiplicity(p, pow(p, e) * r) == e,
{
    let n = pow(p, e) * r;
    lemma_pow_positive(p, e);
    lemma_pow_positive(p, e + 1);
    lemma_pow_adds(p, e, 1);
    lemma_pow1(p);
    lemma_mul_strictly_positive(pow(p, e), r);
    lemma_divides_multiple(pow(p, e), r);
    if divides(pow(p, e + 1), n) {
        lemma_divides_quotient(pow(p, e + 1), n);
        let t = n / pow(p, e + 1);
        assert(r == p * t) by (nonlinear_arith)
            requires
                pow(p, e) * r == pow(p, e + 1) * t,
                pow(p, e + 1) == pow(p, e) * p,
                pow(p, e) > 0,
        ;
        lemma_divides_multiple(p, t);
    }
    lemma_multiplicity_is(p, n, e);
}

/// The multiplicity of a prime in a product is the sum of its
/// multiplicities in the two.
pub proof fn lemma_multiplicity_of_product(p: int, x: int, y: int)
    requires
        is_prime(p),
        x > 0,
        y > 0,
    ensures
        multiplicity(p, x * y) == multiplicity(p, x) + multiplicity(p, y),
{
    let (e1, e2) = (multiplicity(p, x), multiplicity(p, y));
    let (r1, r2) = (x / pow(p, e1), y / pow(p, e2));
    lemma_multiplicity_split(p, x);
    lemma_multiplicity_split(p, y);
    lemma_pow_adds(p, e1, e2);
    lemma_mul_strictly_positive(r1, r2);
    if divides(p, r1 * r2) {
        lemma_euclid(p, r1, r2);
    }
    assert(x * y == pow(p, e1 + e2) * (r1 * r2)) by (nonlinear_arith)
        requires
            x == pow(p, e1) * r1,
            y == pow(p, e2) * r2,
            pow(p, e1 + e2) == pow(p, e1) * pow(p, e2),
    ;
    lemma_multiplicity_of_split(p, e1 + e2, r1 * r2);
}

/// The multiplicity of a prime in a power of a prime is the exponent
/// where the two primes are one, and 0 where they are not.
pub proof fn lemma_multiplicity_of_power(p: int, q: int, e: nat)
    requires
        is_prime(p),
        is_prime(q),
    ensures
        multiplicity(p, pow(q, e)) == if p == q {
            e
        } else {
            0
        },
{
    lemma_pow_positive(q, e);
    if p == q {
        lemma_small_mod(1, p as nat);
        lemma_multiplicity_of_split(p, e, 1);
        lemma_mul_basics(pow(p, e));
    } else if divides(p, pow(q, e)) {
        lemma_prime_divides_power(p, q, e);
        lemma_prime_divisors(q, p);
    }
}

/// The multiplicity of a prime in the product of a list of prime powers
/// is the number of its occurrences in the list.
pub proof fn lemma_multiplicity_counts(s: Seq<FactorView>, p: int)
    requires
        all_prime(s),
        is_prime(p),
    ensures
        product(s) > 0,
        multiplicity(p, product(s)) == occurrences(s, p),
    decreases s.len(),
{
    assert forall|i: int| 0 <= i < s.len() implies s[i].prime > 0 by {
        assert(is_prime(s[i].prime));
    }
    lemma_product_positive(s);
    if s.len() > 0 {
        let front = s.drop_last();
        assert forall|i: int| 0 <= i < front.len() implies is_prime(#[trigger] front[i].prime) by {
            assert(front[i] == s[i]);
        }
        lemma_multiplicity_counts(front, p);
        assert(is_prime(s[s.len() - 1].prime));
        lemma_pow_positive(s.last().prime, s.last().exp);
        lemma_multiplicity_of_power(p, s.last().prime, s.last().exp);
        lemma_multiplicity_of_product(p, product(front), pow(s.last().prime, s.last().exp));
    } else {
        lemma_small_mod(1, p as nat);
    }
}

/// What is no prime does not occur in a list of prime powers.
pub proof fn lemma_only_primes_occur(s: Seq<FactorView>, p: int)
    requires
        all_prime(s),
        !is_prime(p),
    ensures
        occurrences(s, p) == 0,
    decreases s.len(),
{
    if s.len() > 0 {
        let front = s.drop_last();
        assert forall|i: int| 0 <= i < front.len() implies is_prime(#[trigger] front[i].prime) by {
            assert(front[i] == s[i]);
        }
        assert(is_prime(s[s.len() - 1].prime));
        lemma_only_primes_occur(front, p);
    }
}

/// Two factorizations of one number into powers of primes hold the same
/// primes, each as often: whichever curves a run has drawn, and in
/// whatever order it has found its factors, a second run that records
/// only primes ends with the same prime factors.
pub proof fn lemma_same_prime_factors(n: int, a: Seq<FactorView>, b: Seq<FactorView>)
    requires
        all_prime(a),
        all_prime(b),
        product(a) == n,
        product(b) == n,
    ensures
        forall|p: int| occurrences(a, p) == occurrences(b, p),
{
    assert forall|p: int| occurrences(a, p) == occurrences(b, p) by {
        if is_prime(p) {
            lemma_multiplicity_counts(a, p);
            lemma_multiplicity_counts(b, p);
        } else {
            lemma_only_primes_occur(a, p);
            lemma_only_primes_occur(b, p);
        }
    }
}

} // verus!
