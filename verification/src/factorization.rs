//! The search for a complete factorization: trial division, then trials
//! of the elliptic-curve method on what is left, until that is certified
//! to be a prime.

use crate::bigint::{big_lt, big_primality, primality, value, Primality};
use crate::factor::{
    candidate, cofactor, factorable, lemma_cofactor_free, lemma_product_positive,
    lemma_product_push, lemma_trial_factors_valid, lemma_trial_product, power_in, prime_table,
    product, trial_division, trial_factors, views, Factor, FactorView,
};
use crate::numbers::{
    divides, is_prime, lemma_divides_multiple, lemma_divides_quotient, lemma_divisor_bound,
    lemma_multiplicity_divides, multiplicity,
};
use crate::trial::{ecm_trial2, trial2};
use gmp::mpz::Mpz;
use gmp::rand::RandState;
use vstd::arithmetic::power::*;
use vstd::prelude::*;

verus! {

/// The rounds of the primality test that certifies a cofactor.
pub const ROUNDS: i32 = 50;

/// A search as mathematical values: the prime powers found so far, in the
/// order of their discovery, and the cofactor that is still to be split.
pub struct Progress {
    pub factors: Seq<FactorView>,
    pub work: int,
}

impl Progress {
    /// The number that is being factored: the product of the prime powers
    /// found, times the cofactor.
    pub open spec fn number(self) -> int {
        product(self.factors) * self.work
    }

    /// The search is in order: the cofactor is positive and odd, the
    /// number can be factored, and each factor found is a power of a
    /// number from 2 on, with an exponent from 1 on.
    pub open spec fn wf(self) -> bool {
        &&& self.work >= 1
        &&& self.work % 2 == 1
        &&& factorable(self.number())
        &&& forall|i: int|
            0 <= i < self.factors.len() ==> {
                &&& (#[trigger] self.factors[i]).prime >= 2
                &&& self.factors[i].exp >= 1
            }
    }

    /// Nothing is left to split.
    pub open spec fn complete(self) -> bool {
        self.work == 1
    }

    /// The search after the divisor `f` was found: where `f` divides the
    /// cofactor, its full power is divided out and recorded.
    pub open spec fn record(self, f: int) -> Progress {
        if divides(f, self.work) {
            let e = multiplicity(f, self.work);
            Progress {
                factors: self.factors.push(FactorView { prime: f, exp: e }),
                work: self.work / pow(f, e),
            }
        } else {
            self
        }
    }

    /// The search after a trial that found a divisor, or nothing.
    pub open spec fn after_trial(self, found: Option<int>) -> Progress {
        match found {
            Some(f) => self.record(f),
            None => self,
        }
    }

    /// The search after the primality test of the cofactor: a cofactor
    /// other than 1 that passes is recorded as the last factor.
    pub open spec fn certify(self) -> Progress {
        if self.work != 1 && primality(self.work, ROUNDS as int) != Primality::NotPrime {
            Progress {
                factors: self.factors.push(FactorView { prime: self.work, exp: 1 }),
                work: 1,
            }
        } else {
            self
        }
    }

    /// The search after one round with the seed `sigma`: a trial on the
    /// cofactor, then the primality test of what it leaves. A complete
    /// search stays as it is.
    pub open spec fn after_round(self, sigma: int, bound1: int, bound2: int) -> Progress {
        if self.complete() {
            self
        } else {
            self.after_trial(trial2(sigma, self.work, bound1, bound2)).certify()
        }
    }

    /// The search after one round for each seed of a list, in their order.
    pub open spec fn after_rounds(self, seeds: Seq<int>, bound1: int, bound2: int) -> Progress
        decreases seeds.len(),
    {
        if seeds.len() == 0 {
            self
        } else {
            self.after_rounds(seeds.drop_last(), bound1, bound2).after_round(
                seeds.last(),
                bound1,
                bound2,
            )
        }
    }

    /// Each seed of a list can be drawn in its round: it lies from 5 to
    /// the cofactor of that round less 2.
    pub open spec fn drawable(self, seeds: Seq<int>, bound1: int, bound2: int) -> bool
        decreases seeds.len(),
    {
        seeds.len() == 0 || {
            &&& self.drawable(seeds.drop_last(), bound1, bound2)
            &&& 5 <= seeds.last() < self.after_rounds(seeds.drop_last(), bound1, bound2).work - 1
        }
    }

    /// The search of `n` as trial division by a table leaves it.
    pub open spec fn start(n: int, gaps: Seq<u32>) -> Progress {
        let found = trial_factors(n, gaps, gaps.len() + 1);
        Progress { factors: found, work: n / product(found) }
    }
}

/// Recording a divisor from 2 on keeps the search in order and the number
/// the same, and what was found before stays at the head of the list.
pub proof fn lemma_record(s: Progress, f: int)
    requires
        s.wf(),
        f >= 2,
    ensures
        s.record(f).wf(),
        s.record(f).number() == s.number(),
        s.factors.is_prefix_of(s.record(f).factors),
        s.record(f).work <= s.work,
{
    if divides(f, s.work) {
        let e = multiplicity(f, s.work);
        let d = pow(f, e);
        let left = s.work / d;
        lemma_multiplicity_divides(f, s.work);
        lemma_pow_positive(f, e);
        lemma_divides_quotient(d, s.work);
        lemma_divisor_bound(d, s.work);
        lemma_product_push(s.factors, FactorView { prime: f, exp: e });
        assert(product(s.factors) * d * left == product(s.factors) * s.work) by (nonlinear_arith)
            requires
                s.work == d * left,
        ;
        assert(left <= s.work) by (nonlinear_arith)
            requires
                s.work == d * left,
                d >= 1,
                left >= 1,
        ;
        if left % 2 == 0 {
            lemma_divides_quotient(2, left);
            assert(s.work == 2 * (d * (left / 2))) by (nonlinear_arith)
                requires
                    s.work == d * left,
                    left == 2 * (left / 2),
            ;
            lemma_divides_multiple(2, d * (left / 2));
        }
    }
}

/// The primality test of the cofactor keeps the search in order and the
/// number the same, and what was found before stays at the head of the
/// list.
pub proof fn lemma_certify(s: Progress)
    requires
        s.wf(),
    ensures
        s.certify().wf(),
        s.certify().number() == s.number(),
        s.factors.is_prefix_of(s.certify().factors),
{
    if s.certify() != s {
        lemma_product_push(s.factors, FactorView { prime: s.work, exp: 1 });
        lemma_pow1(s.work);
    }
}

/// The factor that the primality test appends is the cofactor itself, with
/// the exponent 1, and has passed the test.
pub proof fn lemma_certified_factor_passes(s: Progress)
    requires
        !s.complete(),
        s.certify().complete(),
    ensures
        s.certify().factors == s.factors.push(FactorView { prime: s.work, exp: 1 }),
        primality(s.certify().factors.last().prime, ROUNDS as int) != Primality::NotPrime,
{
}

/// Trial division by a table of primes starts a search that is in order,
/// of the number that was given, with a cofactor that no prime of the
/// table divides.
pub proof fn lemma_start(n: int, gaps: Seq<u32>)
    requires
        factorable(n),
        prime_table(gaps),
    ensures
        Progress::start(n, gaps).wf(),
        Progress::start(n, gaps).number() == n,
        forall|j: nat|
            j <= gaps.len() ==> !divides(
                #[trigger] candidate(gaps, j),
                Progress::start(n, gaps).work,
            ),
{
    let s = Progress::start(n, gaps);
    lemma_trial_product(n, gaps, gaps.len() + 1);
    lemma_trial_factors_valid(n, gaps, gaps.len() + 1);
    lemma_divides_quotient(product(s.factors), n);
    lemma_divisor_bound(product(s.factors), n);
    assert forall|j: nat| j <= gaps.len() implies !divides(
        #[trigger] candidate(gaps, j),
        s.work,
    ) by {
        lemma_cofactor_free(n, gaps, j);
    }
    assert(candidate(gaps, 0) == 2);
}

/// A search for the factorization of a number: the prime powers found so
/// far, and the cofactor that is still to be split.
pub struct Factorization {
    pub factors: Vec<Factor>,
    pub work: Mpz,
}

impl View for Factorization {
    type V = Progress;

    open spec fn view(&self) -> Progress {
        Progress { factors: views(self.factors@), work: value(self.work) }
    }
}

impl Factorization {
    /// Starts the search with trial division of `n` by a table of primes.
    pub fn new(n: &Mpz, gaps: &[u32]) -> (r: Factorization)
        requires
            factorable(value(*n)),
            prime_table(gaps@),
        ensures
            r@ == Progress::start(value(*n), gaps@),
            r@.wf(),
            r@.number() == value(*n),
    {
        let factors = trial_division(n, gaps);
        proof {
            lemma_start(value(*n), gaps@);
            lemma_trial_factors_valid(value(*n), gaps@, gaps@.len() + 1);
            assert forall|i: int| 0 <= i < factors@.len() implies value(factors@[i].prime)
                > 0 by {
                assert(views(factors@)[i] == factors@[i]@);
            }
        }
        let work = cofactor(n, factors.as_slice());
        Factorization { factors, work }
    }

    /// Whether nothing is left to split.
    pub fn is_complete(&self) -> (r: bool)
        ensures
            r == (value(self.work) == 1),
    {
        !big_lt(&self.work, &Mpz::one()) && !big_lt(&Mpz::one(), &self.work)
    }

    /// Records the divisor `f` of the cofactor: divides its full power out
    /// and appends it to the factors. A number that does not divide the
    /// cofactor changes nothing.
    pub fn record(&mut self, f: Mpz)
        requires
            old(self)@.wf(),
            value(f) >= 2,
        ensures
            final(self)@ == old(self)@.record(value(f)),
            final(self)@.wf(),
            final(self)@.number() == old(self)@.number(),
            old(self)@.factors.is_prefix_of(final(self)@.factors),
    {
        proof {
            lemma_record(self@, value(f));
            lemma_product_positive(self@.factors);
            assert(self@.work <= self@.number()) by (nonlinear_arith)
                requires
                    self@.number() == product(self@.factors) * self@.work,
                    product(self@.factors) >= 1,
                    self@.work >= 1,
            ;
        }
        let fact = power_in(&self.work, f);
        if fact.exp > 0 {
            proof {
                lemma_pow_positive(value(fact.prime), fact.exp as nat);
                assert(views(self.factors@.push(fact)) =~= views(self.factors@).push(fact@));
            }
            let d = fact.prime.pow(fact.exp);
            self.work = self.work.div_floor(&d);
            self.factors.push(fact);
        }
    }

    /// Tests the cofactor for primality: one that passes is recorded as
    /// the last factor. Returns whether the search is complete.
    pub fn certify(&mut self) -> (r: bool)
        requires
            old(self)@.wf(),
        ensures
            final(self)@ == old(self)@.certify(),
            final(self)@.wf(),
            final(self)@.number() == old(self)@.number(),
            old(self)@.factors.is_prefix_of(final(self)@.factors),
            r == final(self)@.complete(),
            !r ==> !is_prime(value(final(self).work)),
    {
        proof {
            lemma_certify(self@);
        }
        if self.is_complete() {
            return true;
        }
        if big_primality(&self.work, ROUNDS) == Primality::NotPrime {
            return false;
        }
        let last = Factor { prime: self.work.clone(), exp: 1 };
        proof {
            assert(views(self.factors@.push(last)) =~= views(self.factors@).push(last@));
        }
        self.factors.push(last);
        self.work = Mpz::one();
        true
    }

    /// Runs one trial of both stages on the cofactor and records the
    /// divisor that it finds. Returns whether it found one.
    pub fn attempt(&mut self, rng: &mut RandState, bound1: &Mpz, bound2: &Mpz) -> (r: bool)
        requires
            old(self)@.wf(),
            old(self)@.work > 6,
        ensures
            exists|sigma: int|
                5 <= sigma < old(self)@.work - 1 && final(self)@ == old(self)@.after_trial(
                    #[trigger] trial2(sigma, old(self)@.work, value(*bound1), value(*bound2)),
                ),
            final(self)@.wf(),
            final(self)@.number() == old(self)@.number(),
            old(self)@.factors.is_prefix_of(final(self)@.factors),
            r == (final(self)@.factors.len() > old(self)@.factors.len()),
    {
        match ecm_trial2(rng, &self.work, bound1, bound2) {
            Some(f) => {
                self.record(f);
                true
            },
            None => false,
        }
    }
}

/// The numbers 3, 5 and 7 are primes.
proof fn lemma_small_primes()
    ensures
        is_prime(3),
        is_prime(5),
        is_prime(7),
{
    assert forall|d: int| 1 < d < 3 implies #[trigger] (3int % d) != 0 by {
        if d == 2 {
        }
    }
    assert forall|d: int| 1 < d < 5 implies #[trigger] (5int % d) != 0 by {
        if d == 2 {
        } else if d == 3 {
        } else if d == 4 {
        }
    }
    assert forall|d: int| 1 < d < 7 implies #[trigger] (7int % d) != 0 by {
        if d == 2 {
        } else if d == 3 {
        } else if d == 4 {
        } else if d == 5 {
        } else if d == 6 {
        }
    }
}

/// The factorization of `n`: trial division by a table of primes, then
/// trials of both stages on the cofactor, each on a curve drawn at random,
/// until the cofactor is 1 or passes the primality test, or `max_trials`
/// trials are done. What was found multiplies to `n` with the cofactor
/// that is left, which is 1 where the search is complete.
pub fn factorization(
    n: &Mpz,
    bound1: &Mpz,
    bound2: &Mpz,
    gaps: &[u32],
    rng: &mut RandState,
    max_trials: u64,
) -> (r: Factorization)
    requires
        factorable(value(*n)),
        prime_table(gaps@),
    ensures
        r@.wf(),
        r@.number() == value(*n),
        r@.complete() ==> product(r@.factors) == value(*n),
        r@.certify() == r@,
        Progress::start(value(*n), gaps@).factors.is_prefix_of(r@.factors),
        Progress::start(value(*n), gaps@).certify().complete() || max_trials == 0 ==> r@
            == Progress::start(value(*n), gaps@).certify(),
        exists|seeds: Seq<int>|
            {
                &&& seeds.len() <= max_trials
                &&& r@.complete() || seeds.len() == max_trials
                &&& Progress::start(value(*n), gaps@).certify().drawable(
                    seeds,
                    value(*bound1),
                    value(*bound2),
                )
                &&& r@ == #[trigger] Progress::start(value(*n), gaps@).certify().after_rounds(
                    seeds,
                    value(*bound1),
                    value(*bound2),
                )
            },
{
    let mut search = Factorization::new(n, gaps);
    let mut done = search.certify();
    let mut left = max_trials;
    let ghost first = search@;
    let ghost mut seeds = Seq::<int>::empty();
    while !done && left > 0
        invariant
            first == Progress::start(value(*n), gaps@).certify(),
            seeds.len() == max_trials - left,
            first.drawable(seeds, value(*bound1), value(*bound2)),
            search@ == first.after_rounds(seeds, value(*bound1), value(*bound2)),
            search@.wf(),
            search@.number() == value(*n),
            search@.certify() == search@,
            done == search@.complete(),
            !done ==> !is_prime(search@.work),
            Progress::start(value(*n), gaps@).factors.is_prefix_of(search@.factors),
            left <= max_trials,
            search@ == Progress::start(value(*n), gaps@).certify() || (left < max_trials
                && !Progress::start(value(*n), gaps@).certify().complete()),
        decreases left,
    {
        proof {
            lemma_small_primes();
        }
        let ghost before = search@;
        search.attempt(rng, bound1, bound2);
        let ghost found = search@;
        done = search.certify();
        left = left - 1;
        proof {
            let sigma = choose|sigma: int|
                5 <= sigma < before.work - 1 && found == before.after_trial(
                    #[trigger] trial2(sigma, before.work, value(*bound1), value(*bound2)),
                );
            assert(seeds.push(sigma).drop_last() =~= seeds);
            seeds = seeds.push(sigma);
        }
    }
    search
}

} // verus!
