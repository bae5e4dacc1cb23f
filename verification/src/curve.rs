//! Suyama's parametrization: from a seed to a curve and a point on it.

use crate::bigint::{big_add, big_mul, big_sub, value};
use crate::numbers::{
    inverse, invertible, lemma_cong_mod, lemma_cong_mul, lemma_cong_sub, lemma_inverse_is,
};
use crate::point::{Point, ProjPoint};
use gmp::mpz::Mpz;
use gmp::rand::RandState;
use vstd::arithmetic::div_mod::*;
use vstd::arithmetic::power::*;
use vstd::prelude::*;

verus! {

/// The curve of a seed has no coefficient: its denominator has no inverse
/// modulo `n`.
#[derive(Clone, Copy, Debug, PartialEq, Eq, Structural)]
pub struct InversionFailure;

/// Suyama's `u` for the seed `sigma`, modulo `n`.
pub open spec fn suyama_u(sigma: int, n: int) -> int {
    (sigma * sigma - 5) % n
}

/// Suyama's `v` for the seed `sigma`, modulo `n`.
pub open spec fn suyama_v(sigma: int, n: int) -> int {
    (4 * sigma) % n
}

/// The point `(u^3 : v^3)` that the trial starts from.
pub open spec fn start_point(sigma: int, n: int) -> ProjPoint {
    ProjPoint { x: pow(suyama_u(sigma, n), 3) % n, z: pow(suyama_v(sigma, n), 3) % n }
}

/// The denominator `4 u^3 v` of the curve coefficient, modulo `n`.
pub open spec fn denominator(sigma: int, n: int) -> int {
    (4 * pow(suyama_u(sigma, n), 3) * suyama_v(sigma, n)) % n
}

/// The curve coefficient `(v - u)^3 (3u + v) / (4 u^3 v) - 2` modulo `n`,
/// where the denominator has an inverse.
pub open spec fn coefficient(sigma: int, n: int) -> int {
    let u = suyama_u(sigma, n);
    let v = suyama_v(sigma, n);
    (pow(v - u, 3) * (3 * u + v) * inverse(denominator(sigma, n), n) - 2) % n
}

/// The curve of the seed `sigma` modulo `n`: its coefficient and the point
/// to start from, or the failure to invert the denominator.
pub fn random_curve(sigma: &Mpz, n: &Mpz) -> (r: Result<(Mpz, Point), InversionFailure>)
    requires
        value(*n) > 0,
    ensures
        r is Ok <==> invertible(denominator(value(*sigma), value(*n)), value(*n)),
        r matches Ok((a, p)) ==> {
            &&& value(a) == coefficient(value(*sigma), value(*n))
            &&& 0 <= value(a) < value(*n)
            &&& p@ == start_point(value(*sigma), value(*n))
            &&& p@.reduced(value(*n))
        },
{
    let three = Mpz::from(3u64);
    let four = Mpz::from(4u64);
    let u = big_sub(&big_mul(sigma, sigma), &Mpz::from(5u64)).modulus(n);
    let v = big_mul(&four, sigma).modulus(n);
    let x = u.powm(&three, n);
    let z = v.powm(&three, n);
    let den = big_mul(&big_mul(&four, &x), &v).modulus(n);
    let ghost m = value(*n);
    let ghost (uv, vv) = (value(u), value(v));
    proof {
        lemma_cong_mod(pow(uv, 3), m);
        lemma_cong_mul(4, 4, value(x), pow(uv, 3), m);
        lemma_cong_mul(4 * value(x), 4 * pow(uv, 3), vv, vv, m);
        lemma_mod_bound(pow(uv, 3), m);
        lemma_mod_bound(pow(vv, 3), m);
    }
    match den.invert(n) {
        None => Err(InversionFailure),
        Some(w) => {
            let t = big_sub(&v, &u).powm(&three, n);
            let s = big_add(&big_mul(&three, &u), &v);
            let a = big_sub(&big_mul(&big_mul(&t, &s), &w), &Mpz::from(2u64)).modulus(n);
            proof {
                let wv = value(w);
                lemma_inverse_is(wv, value(den), m);
                lemma_cong_mod(pow(vv - uv, 3), m);
                lemma_cong_mul(value(t), pow(vv - uv, 3), value(s), value(s), m);
                lemma_cong_mul(value(t) * value(s), pow(vv - uv, 3) * value(s), wv, wv, m);
                lemma_cong_sub(
                    value(t) * value(s) * wv,
                    pow(vv - uv, 3) * value(s) * wv,
                    2,
                    2,
                    m,
                );
                lemma_mod_bound(value(t) * value(s) * wv - 2, m);
            }
            Ok((a, Point { x, z }))
        },
    }
}

/// A seed for a curve modulo `n`: some integer from 5 to `n - 2`.
pub fn random_mpz(rng: &mut RandState, n: &Mpz) -> (r: Mpz)
    requires
        value(*n) > 6,
    ensures
        5 <= value(r) < value(*n) - 1,
{
    let span = big_sub(n, &Mpz::from(6u64));
    big_add(&rng.urandom(&span), &Mpz::from(5u64))
}

} // verus!
