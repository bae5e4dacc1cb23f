//! One trial of the elliptic-curve method: a curve from a seed, the first
//! stage over the prime powers up to one bound, and the second stage over
//! the primes up to another.

use crate::bigint::{big_add, big_gcd, big_lt, big_mul, big_sub, next_prime, opt_value, value};
use crate::curve::{coefficient, denominator, random_curve, random_mpz, start_point};
use crate::numbers::{divides, gcd, invertible, lemma_gcd_bound, lemma_log_is, span};
use crate::point::{ladder, multiple, Point, ProjPoint};
use gmp::mpz::Mpz;
use gmp::rand::RandState;
use vstd::arithmetic::logarithm::log;
use vstd::arithmetic::mul::*;
use vstd::arithmetic::power::*;
use vstd::math::abs;
use vstd::prelude::*;

verus! {

/// The divisor of `n` that a coordinate `z` gives away: their greatest
/// common divisor, where it is neither 1 nor `n`.
pub open spec fn proper_gcd(z: int, n: int) -> Option<int> {
    let g = gcd(abs(z), abs(n)) as int;
    if 1 < g < n {
        Some(g)
    } else {
        None
    }
}

/// The greatest power of `l` that does not exceed `bound`.
pub open spec fn top_power(l: int, bound: int) -> int {
    pow(l, log(l, bound) as nat)
}

/// The point that the first stage reaches from `q` when it has the primes
/// from `l` on still to do: `q` times the greatest power of each prime up
/// to `bound`, one prime after the other.
pub open spec fn stage1_from(l: int, q: ProjPoint, n: int, a: int, bound: int) -> ProjPoint
    decreases span(l, bound),
{
    if 2 <= l <= bound {
        let q2 = multiple(top_power(l, bound) as nat, q, n, a);
        if next_prime(l) > l {
            stage1_from(next_prime(l), q2, n, a, bound)
        } else {
            q2
        }
    } else {
        q
    }
}

/// The first of the primes from `l` on that exceeds `bound`.
pub open spec fn first_above(l: int, bound: int) -> int
    decreases span(l, bound),
{
    if l <= bound && next_prime(l) > l {
        first_above(next_prime(l), bound)
    } else {
        l
    }
}

/// What the second stage finds with the primes from `l` on still to do:
/// the divisor that the first of the multiples `l q` gives away, over the
/// primes up to `bound`.
pub open spec fn stage2_from(l: int, q: ProjPoint, n: int, a: int, bound: int) -> Option<int>
    decreases span(l, bound),
{
    if 0 <= l <= bound {
        match proper_gcd(multiple(l as nat, q, n, a).z, n) {
            Some(g) => Some(g),
            None => if next_prime(l) > l {
                stage2_from(next_prime(l), q, n, a, bound)
            } else {
                None
            },
        }
    } else {
        None
    }
}

/// The divisor of `n` that the curve of coefficient `a` is degenerate by:
/// the greatest common divisor of `a^2 - 4` and `n`, where it is not 1.
pub open spec fn degenerate_gcd(a: int, n: int) -> Option<int> {
    let g = gcd(abs(a * a - 4), abs(n)) as int;
    if 1 < g {
        Some(g)
    } else {
        None
    }
}

/// The coefficient that doubling works with on the curve of coefficient
/// `a`: `(a + 2) / 4`, rounded down.
pub open spec fn ladder_coefficient(a: int) -> int {
    (a + 2) / 4
}

/// What a trial with the seed `sigma` finds in `n` by the first stage
/// alone.
pub open spec fn trial(sigma: int, n: int, bound: int) -> Option<int> {
    if !invertible(denominator(sigma, n), n) {
        None
    } else {
        let a = coefficient(sigma, n);
        match degenerate_gcd(a, n) {
            Some(g) => Some(g),
            None => {
                let q = stage1_from(2, start_point(sigma, n), n, ladder_coefficient(a), bound);
                proper_gcd(q.z, n)
            },
        }
    }
}

/// What a trial with the seed `sigma` finds in `n` by both stages.
pub open spec fn trial2(sigma: int, n: int, bound1: int, bound2: int) -> Option<int> {
    if !invertible(denominator(sigma, n), n) {
        None
    } else {
        let a = coefficient(sigma, n);
        match degenerate_gcd(a, n) {
            Some(g) => Some(g),
            None => {
                let b = ladder_coefficient(a);
                let q = stage1_from(2, start_point(sigma, n), n, b, bound1);
                match proper_gcd(q.z, n) {
                    Some(g) => Some(g),
                    None => stage2_from(first_above(2, bound1), q, n, b, bound2),
                }
            },
        }
    }
}

/// The divisor of `n` that the coordinate `z` gives away, if any.
pub fn find_divisor(z: &Mpz, n: &Mpz) -> (r: Option<Mpz>)
    requires
        value(*n) > 0,
    ensures
        opt_value(r) == proper_gcd(value(*z), value(*n)),
        r matches Some(g) ==> 1 < value(g) < value(*n) && divides(value(g), value(*n)),
{
    let g = big_gcd(z, n);
    proof {
        lemma_gcd_bound(abs(value(*z)), abs(value(*n)));
    }
    if big_lt(&Mpz::one(), &g) && big_lt(&g, n) {
        Some(g)
    } else {
        None
    }
}

/// The divisor of `n` that shows the curve of coefficient `a` to be
/// degenerate, if any. It may be `n` itself.
pub fn check_curve(a: &Mpz, n: &Mpz) -> (r: Option<Mpz>)
    requires
        value(*n) > 0,
    ensures
        opt_value(r) == degenerate_gcd(value(*a), value(*n)),
        r matches Some(g) ==> 1 < value(g) <= value(*n) && divides(value(g), value(*n)),
{
    let t = big_sub(&big_mul(a, a), &Mpz::from(4u64));
    let g = big_gcd(&t, n);
    proof {
        lemma_gcd_bound(abs(value(t)), abs(value(*n)));
    }
    if big_lt(&Mpz::one(), &g) {
        Some(g)
    } else {
        None
    }
}

/// The greatest power of `l` that does not exceed `bound`.
pub fn greatest_power(l: &Mpz, bound: &Mpz) -> (m: Mpz)
    requires
        2 <= value(*l) <= value(*bound),
    ensures
        value(m) == top_power(value(*l), value(*bound)),
        value(*l) <= value(m) <= value(*bound),
{
    let mut m = l.clone();
    let mut next = big_mul(&m, l);
    let ghost lv = value(*l);
    let ghost mut k: nat = 1;
    proof {
        lemma_pow1(lv);
    }
    while !big_lt(bound, &next)
        invariant
            lv == value(*l),
            lv >= 2,
            k >= 1,
            value(m) == pow(lv, k),
            lv <= value(m) <= value(*bound),
            value(next) == value(m) * lv,
        decreases span(value(next), value(*bound)),
    {
        proof {
            lemma_pow_adds(lv, k, 1);
            lemma_pow1(lv);
            let (mv, nv) = (value(m), value(next));
            assert(lv <= nv < nv * lv) by (nonlinear_arith)
                requires
                    nv == mv * lv,
                    2 <= lv <= mv,
            ;
            k = k + 1;
        }
        m = next;
        next = big_mul(&m, l);
    }
    proof {
        lemma_pow_adds(lv, k, 1);
        lemma_pow1(lv);
        lemma_log_is(lv, value(*bound), k);
    }
    m
}

/// The first stage from `p`: the point reached, and the first prime above
/// `bound`, where the second stage goes on.
pub fn stage1(p: &Point, n: &Mpz, a: &Mpz, bound: &Mpz) -> (r: (Point, Mpz))
    requires
        value(*n) > 0,
    ensures
        r.0@ == stage1_from(2, p@, value(*n), value(*a), value(*bound)),
        value(r.1) == first_above(2, value(*bound)),
        value(r.1) >= 2,
        value(r.1) > value(*bound),
{
    let mut q = Point { x: p.x.clone(), z: p.z.clone() };
    let mut l = Mpz::from(2u64);
    while !big_lt(bound, &l)
        invariant
            value(*n) > 0,
            value(l) >= 2,
            stage1_from(value(l), q@, value(*n), value(*a), value(*bound)) == stage1_from(
                2,
                p@,
                value(*n),
                value(*a),
                value(*bound),
            ),
            first_above(value(l), value(*bound)) == first_above(2, value(*bound)),
        decreases span(value(l), value(*bound)),
    {
        let m = greatest_power(&l, bound);
        q = ladder(&m, &q, n, a);
        l = l.nextprime();
    }
    (q, l)
}

/// The second stage from `q`, over the primes from `first` on.
pub fn stage2(q: &Point, first: &Mpz, n: &Mpz, a: &Mpz, bound: &Mpz) -> (r: Option<Mpz>)
    requires
        value(*n) > 0,
        value(*first) >= 0,
    ensures
        opt_value(r) == stage2_from(value(*first), q@, value(*n), value(*a), value(*bound)),
        r matches Some(g) ==> 1 < value(g) < value(*n) && divides(value(g), value(*n)),
{
    let mut l = first.clone();
    while !big_lt(bound, &l)
        invariant
            value(*n) > 0,
            value(l) >= 0,
            stage2_from(value(l), q@, value(*n), value(*a), value(*bound)) == stage2_from(
                value(*first),
                q@,
                value(*n),
                value(*a),
                value(*bound),
            ),
        decreases span(value(l), value(*bound)),
    {
        let q2 = ladder(&l, q, n, a);
        let found = find_divisor(&q2.z, n);
        if found.is_some() {
            return found;
        }
        l = l.nextprime();
    }
    None
}

/// A trial of the first stage alone with the seed `sigma`: a divisor of
/// `n` above 1, or nothing.
pub fn ecm_trial_seeded(sigma: &Mpz, n: &Mpz, bound: &Mpz) -> (r: Option<Mpz>)
    requires
        value(*n) > 0,
    ensures
        opt_value(r) == trial(value(*sigma), value(*n), value(*bound)),
        r matches Some(g) ==> 1 < value(g) <= value(*n) && divides(value(g), value(*n)),
{
    match random_curve(sigma, n) {
        Err(_) => None,
        Ok((a, p)) => {
            let degenerate = check_curve(&a, n);
            if degenerate.is_some() {
                return degenerate;
            }
            let b = big_add(&a, &Mpz::from(2u64)).div_floor(&Mpz::from(4u64));
            let (q, _) = stage1(&p, n, &b, bound);
            find_divisor(&q.z, n)
        },
    }
}

/// A trial of both stages with the seed `sigma`: a divisor of `n` above
/// 1, or nothing.
pub fn ecm_trial2_seeded(sigma: &Mpz, n: &Mpz, bound1: &Mpz, bound2: &Mpz) -> (r: Option<Mpz>)
    requires
        value(*n) > 0,
    ensures
        opt_value(r) == trial2(value(*sigma), value(*n), value(*bound1), value(*bound2)),
        r matches Some(g) ==> 1 < value(g) <= value(*n) && divides(value(g), value(*n)),
{
    match random_curve(sigma, n) {
        Err(_) => None,
        Ok((a, p)) => {
            let degenerate = check_curve(&a, n);
            if degenerate.is_some() {
                return degenerate;
            }
            let b = big_add(&a, &Mpz::from(2u64)).div_floor(&Mpz::from(4u64));
            let (q, l) = stage1(&p, n, &b, bound1);
            let found = find_divisor(&q.z, n);
            if found.is_some() {
                return found;
            }
            stage2(&q, &l, n, &b, bound2)
        },
    }
}

/// A trial of the first stage alone on a curve drawn at random.
pub fn ecm_trial(rng: &mut RandState, n: &Mpz, bound: &Mpz) -> (r: Option<Mpz>)
    requires
        value(*n) > 6,
    ensures
        exists|sigma: int|
            5 <= sigma < value(*n) - 1 && opt_value(r) == #[trigger] trial(
                sigma,
                value(*n),
                value(*bound),
            ),
        r matches Some(g) ==> 1 < value(g) <= value(*n) && divides(value(g), value(*n)),
{
    let sigma = random_mpz(rng, n);
    ecm_trial_seeded(&sigma, n, bound)
}

/// A trial of both stages on a curve drawn at random.
pub fn ecm_trial2(rng: &mut RandState, n: &Mpz, bound1: &Mpz, bound2: &Mpz) -> (r: Option<Mpz>)
    requires
        value(*n) > 6,
    ensures
        exists|sigma: int|
            5 <= sigma < value(*n) - 1 && opt_value(r) == #[trigger] trial2(
                sigma,
                value(*n),
                value(*bound1),
                value(*bound2),
            ),
        r matches Some(g) ==> 1 < value(g) <= value(*n) && divides(value(g), value(*n)),
{
    let sigma = random_mpz(rng, n);
    ecm_trial2_seeded(&sigma, n, bound1, bound2)
}

} // verus!
