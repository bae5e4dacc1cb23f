//! The boundary to GMP: its integer type, its generator, and what is
//! taken on trust of each operation that the library calls.

use crate::numbers::{bit, divides, gcd, invertible, is_inverse, is_prime};
use crate::text::decimal;
use gmp::mpz::{Mpz, ProbabPrimeResult};
use gmp::rand::RandState;
use vstd::arithmetic::power::pow;
use vstd::arithmetic::power2::pow2;
use vstd::math::abs;
use vstd::prelude::*;

verus! {

/// GMP's arbitrary-precision integer.
#[verifier::external_type_specification]
#[verifier::external_body]
pub struct ExMpz(gmp::mpz::Mpz);

/// The state of one of GMP's pseudo-random generators.
#[verifier::external_type_specification]
#[verifier::external_body]
pub struct ExRandState(gmp::rand::RandState);

/// The mathematical integer that an `Mpz` holds.
pub uninterp spec fn value(m: Mpz) -> int;

/// The integer that an optional `Mpz` holds, if any.
pub open spec fn opt_value(m: Option<Mpz>) -> Option<int> {
    match m {
        Some(v) => Some(value(v)),
        None => None,
    }
}

/// What a primality test says of a number.
#[derive(Clone, Copy, Debug, PartialEq, Eq, Structural)]
pub enum Primality {
    /// Certainly not a prime.
    NotPrime,
    /// A prime, unless the test was deceived.
    ProbablyPrime,
    /// Certainly a prime.
    Prime,
}

/// What GMP's `mpz_nextprime` gives for `v`: the next prime above it, as
/// far as its probabilistic test can tell.
pub uninterp spec fn next_prime(v: int) -> int;

/// The verdict of GMP's primality test on `v` with `reps` rounds.
pub uninterp spec fn primality(v: int, reps: int) -> Primality;

/// `Mpz::zero`: the integer 0.
pub assume_specification[ Mpz::zero ]() -> (r: Mpz)
    ensures
        value(r) == 0,
;

/// `Mpz::one`: the integer 1.
pub assume_specification[ Mpz::one ]() -> (r: Mpz)
    ensures
        value(r) == 1,
;

/// `Mpz::from` on a `u64`: the same number.
pub assume_specification[ <Mpz as From<u64>>::from ](x: u64) -> (r: Mpz)
    ensures
        value(r) == x,
;

/// `Mpz::clone`: a fresh integer of the same value.
pub assume_specification[ <Mpz as Clone>::clone ](a: &Mpz) -> (r: Mpz)
    ensures
        value(r) == value(*a),
;

/// `&a + &b` (`mpz_add`): the sum.
#[verifier::external_body]
pub(crate) fn big_add(a: &Mpz, b: &Mpz) -> (r: Mpz)
    ensures
        value(r) == value(*a) + value(*b),
{
    a + b
}

/// `&a - &b` (`mpz_sub`): the difference.
#[verifier::external_body]
pub(crate) fn big_sub(a: &Mpz, b: &Mpz) -> (r: Mpz)
    ensures
        value(r) == value(*a) - value(*b),
{
    a - b
}

/// `&a * &b` (`mpz_mul`): the product.
#[verifier::external_body]
pub(crate) fn big_mul(a: &Mpz, b: &Mpz) -> (r: Mpz)
    ensures
        value(r) == value(*a) * value(*b),
{
    a * b
}

/// `a < b` (`mpz_cmp`): whether the first integer is the smaller.
#[verifier::external_body]
pub(crate) fn big_lt(a: &Mpz, b: &Mpz) -> (r: bool)
    ensures
        r == (value(*a) < value(*b)),
{
    a < b
}

/// `Mpz::modulus` (`mpz_mod`): the least non-negative residue. It panics
/// on a zero modulus.
pub assume_specification[ Mpz::modulus ](a: &Mpz, n: &Mpz) -> (r: Mpz)
    requires
        value(*n) > 0,
    ensures
        value(r) == value(*a) % value(*n),
;

/// `Mpz::div_floor` (`mpz_fdiv_q`): the quotient rounded down. It panics
/// on a zero divisor.
pub assume_specification[ Mpz::div_floor ](a: &Mpz, d: &Mpz) -> (r: Mpz)
    requires
        value(*d) > 0,
    ensures
        value(r) == value(*a) / value(*d),
;

/// `Mpz::is_multiple_of` (`mpz_divisible_p`): for a divisor that is not
/// negative, whether `d` divides `a`, where only 0 is divisible by 0.
pub assume_specification[ Mpz::is_multiple_of ](a: &Mpz, d: &Mpz) -> (r: bool)
    ensures
        value(*d) >= 0 ==> r == divides(value(*d), value(*a)),
;

/// `Mpz::pow` (`mpz_pow_ui`): the power, with `0^0 == 1`.
pub assume_specification[ Mpz::pow ](a: &Mpz, e: u32) -> (r: Mpz)
    ensures
        value(r) == pow(value(*a), e as nat),
;

/// `Mpz::powm` (`mpz_powm`): the least non-negative residue of the power.
/// GMP divides by zero on a zero modulus, and wants an inverse of the
/// base for a negative exponent.
pub assume_specification[ Mpz::powm ](a: &Mpz, e: &Mpz, n: &Mpz) -> (r: Mpz)
    requires
        value(*e) >= 0,
        value(*n) > 0,
    ensures
        value(r) == pow(value(*a), value(*e) as nat) % value(*n),
;

/// `Mpz::invert` (`mpz_invert`): the inverse of `a` modulo `n` in the range
/// from 0 to `n - 1`, or nothing where `a` has no inverse. GMP leaves a
/// zero modulus undefined.
pub assume_specification[ Mpz::invert ](a: &Mpz, n: &Mpz) -> (r: Option<Mpz>)
    requires
        value(*n) > 0,
    ensures
        match r {
            Some(w) => is_inverse(value(w), value(*a), value(*n)),
            None => !invertible(value(*a), value(*n)),
        },
;

/// `Mpz::gcd` (`mpz_gcd`): the greatest common divisor of the absolute
/// values, never negative, and 0 for two zeros.
#[verifier::external_body]
pub(crate) fn big_gcd(a: &Mpz, b: &Mpz) -> (r: Mpz)
    ensures
        value(r) == gcd(abs(value(*a)), abs(value(*b))),
{
    a.gcd(b)
}

/// `Mpz::nextprime` (`mpz_nextprime`): a number above `a`, the next prime
/// by a probabilistic test that draws nothing from outside.
pub assume_specification[ Mpz::nextprime ](a: &Mpz) -> (r: Mpz)
    ensures
        value(r) == next_prime(value(*a)),
        value(r) > value(*a),
;

/// `Mpz::probab_prime` (`mpz_probab_prime_p`): the verdict of the test,
/// which rejects no prime.
#[verifier::external_body]
pub(crate) fn big_primality(a: &Mpz, reps: i32) -> (r: Primality)
    ensures
        r == primality(value(*a), reps as int),
        r == Primality::NotPrime ==> !is_prime(value(*a)),
{
    match a.probab_prime(reps) {
        ProbabPrimeResult::NotPrime => Primality::NotPrime,
        ProbabPrimeResult::ProbablyPrime => Primality::ProbablyPrime,
        ProbabPrimeResult::Prime => Primality::Prime,
    }
}

/// `Mpz::size_in_base` (`mpz_sizeinbase`) in base 2: the number of bits of
/// the absolute value, and 1 for zero.
pub assume_specification[ Mpz::size_in_base ](a: &Mpz, base: u8) -> (r: usize)
    requires
        base == 2,
    ensures
        r >= 1,
        value(*a) == 0 ==> r == 1,
        value(*a) != 0 ==> pow2((r - 1) as nat) <= abs(value(*a)) < pow2(r as nat),
;

/// `Mpz::tstbit` (`mpz_tstbit`): for a number that is not negative, the
/// bit of that index in its binary expansion.
pub assume_specification[ Mpz::tstbit ](a: &Mpz, i: usize) -> (r: bool)
    ensures
        value(*a) >= 0 ==> r == bit(value(*a), i as nat),
;

/// `Mpz::to_str_radix` (`mpz_get_str`) in base 10: the decimal notation,
/// with a minus sign before a negative number.
pub assume_specification[ Mpz::to_str_radix ](a: &Mpz, base: u8) -> (r: String)
    requires
        base == 10,
    ensures
        r@ == decimal(value(*a)),
;

/// `RandState::urandom` (`mpz_urandomm`): some integer from 0 to
/// `bound - 1`. GMP divides by zero on a zero bound.
pub assume_specification[ RandState::urandom ](rng: &mut RandState, bound: &Mpz) -> (r: Mpz)
    requires
        value(*bound) > 0,
    ensures
        0 <= value(r) < value(*bound),
;

} // verus!
