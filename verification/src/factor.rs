//! Prime-power factors, lists of them, and trial division by a table of
//! small primes.

use crate::bigint::{big_add, big_lt, big_mul, value};
use crate::numbers::{
    divides, is_prime, lemma_div_twice, lemma_divides_multiple, lemma_divides_quotient,
    lemma_divides_trans, lemma_divisor_bound, lemma_euclid, lemma_exponent_bound,
    lemma_multiplicity_divides, lemma_multiplicity_is, lemma_prime_divides_power,
    lemma_prime_divisors, lemma_prime_power_cancels, multiplicity, span,
};
use gmp::mpz::Mpz;
use vstd::arithmetic::div_mod::*;
use vstd::arithmetic::mul::*;
use vstd::arithmetic::power::*;
use vstd::arithmetic::power2::*;
use vstd::prelude::*;

verus! {

/// A factor as a pair of mathematical numbers.
pub struct FactorView {
    pub prime: int,
    pub exp: nat,
}

/// A power of a prime: the prime and its exponent.
#[derive(Clone, Debug)]
pub struct Factor {
    pub prime: Mpz,
    pub exp: u32,
}

impl View for Factor {
    type V = FactorView;

    open spec fn view(&self) -> FactorView {
        FactorView { prime: value(self.prime), exp: self.exp as nat }
    }
}

impl Factor {
    /// The factor of `prime` with exponent 0.
    pub fn new(prime: Mpz) -> (r: Factor)
        ensures
            r@ == (FactorView { prime: value(prime), exp: 0 }),
    {
        Factor { prime, exp: 0 }
    }

    /// Raises the exponent by 1.
    pub fn incr(&mut self)
        requires
            old(self).exp < u32::MAX,
        ensures
            final(self)@ == (FactorView { prime: old(self)@.prime, exp: old(self)@.exp + 1 }),
    {
        self.exp = self.exp + 1;
    }
}

/// The factors of a list as pairs of mathematical numbers.
pub open spec fn views(s: Seq<Factor>) -> Seq<FactorView> {
    s.map_values(|f: Factor| f@)
}

/// The product of the prime powers of a list.
pub open spec fn product(s: Seq<FactorView>) -> int
    decreases s.len(),
{
    if s.len() == 0 {
        1
    } else {
        product(s.drop_last()) * pow(s.last().prime, s.last().exp)
    }
}

/// The numbers that this library factors: positive, and so short that the
/// exponent of every prime power in them fits in a `u32`.
pub open spec fn factorable(n: int) -> bool {
    1 <= n < pow2(u32::MAX as nat)
}

/// Whether `n` is a number that this library factors.
pub fn is_factorable(n: &Mpz) -> (r: bool)
    ensures
        r == factorable(value(*n)),
{
    if !big_lt(&Mpz::zero(), n) {
        return false;
    }
    let bits = n.size_in_base(2);
    proof {
        let limit = u32::MAX as nat;
        if bits <= limit {
            if bits < limit {
                lemma_pow2_strictly_increases(bits as nat, limit);
            }
        } else {
            if limit < bits - 1 {
                lemma_pow2_strictly_increases(limit, (bits - 1) as nat);
            }
        }
    }
    bits <= 0xFFFF_FFFF
}

/// The power of `prime` in `n`: the factor of `prime` whose exponent is
/// the multiplicity of `prime` in `n`.
pub fn power_in(n: &Mpz, prime: Mpz) -> (f: Factor)
    requires
        factorable(value(*n)),
        value(prime) >= 2,
    ensures
        f@ == (FactorView { prime: value(prime), exp: multiplicity(value(prime), value(*n)) }),
{
    let mut div_test = prime.clone();
    let mut f = Factor::new(prime);
    let ghost p = value(f.prime);
    let ghost nv = value(*n);
    proof {
        lemma_pow1(p);
        lemma_pow0(p);
    }
    while n.is_multiple_of(&div_test)
        invariant
            p >= 2,
            factorable(nv),
            nv == value(*n),
            f@.prime == p,
            value(div_test) == pow(p, f@.exp + 1),
            value(div_test) > 0,
            divides(pow(p, f@.exp), nv),
        decreases span(value(div_test), nv),
    {
        proof {
            let e = f@.exp + 1;
            lemma_pow_positive(p, e);
            lemma_divisor_bound(pow(p, e), nv);
            lemma_exponent_bound(p, e, u32::MAX as nat);
            lemma_pow_adds(p, e, 1);
            lemma_pow1(p);
            lemma_mul_strictly_increases(p, pow(p, e));
        }
        div_test = big_mul(&div_test, &f.prime);
        f.incr();
    }
    proof {
        lemma_multiplicity_is(p, nv, f@.exp);
    }
    f
}

/// The candidate of index `i` that a table of gaps stands for: 2, then 3,
/// then each time the candidate before plus twice its gap.
pub open spec fn candidate(gaps: Seq<u32>, i: nat) -> int
    decreases i,
{
    if i == 0 {
        2
    } else if i == 1 {
        3
    } else {
        candidate(gaps, (i - 1) as nat) + 2 * gaps[i - 2]
    }
}

/// What trial division of `n` by the first `k` candidates of a table
/// finds: each candidate that divides `n`, with its multiplicity in `n`,
/// in the order of the table.
pub open spec fn trial_factors(n: int, gaps: Seq<u32>, k: nat) -> Seq<FactorView>
    decreases k,
{
    if k == 0 {
        Seq::empty()
    } else {
        let c = candidate(gaps, (k - 1) as nat);
        let found = trial_factors(n, gaps, (k - 1) as nat);
        if divides(c, n) {
            found.push(FactorView { prime: c, exp: multiplicity(c, n) })
        } else {
            found
        }
    }
}

/// Trial division of `n` by 2 and by the candidates of a table of gaps, as
/// many as the table has entries: the prime powers found, in the order of
/// the table.
pub fn trial_division(n: &Mpz, gaps: &[u32]) -> (res: Vec<Factor>)
    requires
        factorable(value(*n)),
    ensures
        views(res@) == trial_factors(value(*n), gaps@, gaps@.len() + 1),
{
    let mut res: Vec<Factor> = Vec::new();
    let two = power_in(n, Mpz::from(2u64));
    assert(views(res@) =~= trial_factors(value(*n), gaps@, 0));
    if two.exp > 0 {
        proof {
            assert(views(res@.push(two)) =~= views(res@).push(two@));
        }
        res.push(two);
    }
    let mut prime = Mpz::from(3u64);
    let mut i: usize = 0;
    while i < gaps.len()
        invariant
            i <= gaps.len(),
            factorable(value(*n)),
            value(prime) == candidate(gaps@, (i + 1) as nat),
            value(prime) >= 3,
            views(res@) == trial_factors(value(*n), gaps@, (i + 1) as nat),
        decreases gaps.len() - i,
    {
        let f = power_in(n, prime.clone());
        if f.exp > 0 {
            proof {
                assert(views(res@.push(f)) =~= views(res@).push(f@));
            }
            res.push(f);
        }
        let step: u64 = 2 * (gaps[i] as u64);
        prime = big_add(&prime, &Mpz::from(step));
        i = i + 1;
    }
    res
}

/// A list of powers of positive numbers has a positive product.
pub proof fn lemma_product_positive(s: Seq<FactorView>)
    requires
        forall|i: int| 0 <= i < s.len() ==> s[i].prime > 0,
    ensures
        product(s) > 0,
    decreases s.len(),
{
    if s.len() > 0 {
        lemma_product_positive(s.drop_last());
        lemma_pow_positive(s.last().prime, s.last().exp);
        lemma_mul_strictly_positive(product(s.drop_last()), pow(s.last().prime, s.last().exp));
    }
}

/// What is left of `n` when the prime powers of a list are divided out,
/// each division rounded down.
pub fn cofactor(n: &Mpz, factors: &[Factor]) -> (w: Mpz)
    requires
        forall|i: int| 0 <= i < factors@.len() ==> value(factors@[i].prime) > 0,
    ensures
        value(w) == value(*n) / product(views(factors@)),
{
    let mut work = n.clone();
    let mut i: usize = 0;
    let ghost all = views(factors@);
    proof {
        assert(all.take(0) =~= Seq::<FactorView>::empty());
    }
    while i < factors.len()
        invariant
            i <= factors.len(),
            all == views(factors@),
            forall|j: int| 0 <= j < factors@.len() ==> value(factors@[j].prime) > 0,
            value(work) == value(*n) / product(all.take(i as int)),
        decreases factors.len() - i,
    {
        let f = &factors[i];
        let d = f.prime.pow(f.exp);
        proof {
            let done = all.take(i as int);
            let next = all.take(i + 1);
            assert(next.drop_last() =~= done);
            assert(next.last() == f@);
            lemma_product_positive(done);
            lemma_pow_positive(value(f.prime), f.exp as nat);
            lemma_div_twice(value(*n), product(done), value(d));
        }
        work = work.div_floor(&d);
        i = i + 1;
    }
    proof {
        assert(all.take(i as int) =~= all);
    }
    work
}

/// A table of gaps stands for primes in ascending order: each candidate
/// that trial division tries is a prime, and no gap between two of them
/// is 0.
pub open spec fn prime_table(gaps: Seq<u32>) -> bool {
    &&& forall|i: nat| i <= gaps.len() ==> is_prime(#[trigger] candidate(gaps, i))
    &&& forall|i: int| 0 <= i && i + 1 < gaps.len() ==> #[trigger] gaps[i] > 0
}

/// The candidates of a table of primes ascend.
pub proof fn lemma_candidates_ascend(gaps: Seq<u32>, i: nat, j: nat)
    requires
        prime_table(gaps),
        i < j <= gaps.len(),
    ensures
        candidate(gaps, i) < candidate(gaps, j),
    decreases j,
{
    if j >= 2 {
        assert(gaps[j - 2] > 0);
        if i < j - 1 {
            lemma_candidates_ascend(gaps, i, (j - 1) as nat);
        }
    }
}

/// What trial division by a table of primes finds in `n`, taken together:
/// the product of the prime powers found divides `n`, holds each
/// candidate tried to its full power in `n`, and holds no later candidate.
pub proof fn lemma_trial_product(n: int, gaps: Seq<u32>, k: nat)
    requires
        n > 0,
        prime_table(gaps),
        k <= gaps.len() + 1,
    ensures
        product(trial_factors(n, gaps, k)) > 0,
        divides(product(trial_factors(n, gaps, k)), n),
        forall|j: nat|
            k <= j <= gaps.len() ==> !divides(
                #[trigger] candidate(gaps, j),
                product(trial_factors(n, gaps, k)),
            ),
        forall|j: nat|
            j < k ==> divides(
                pow(#[trigger] candidate(gaps, j), multiplicity(candidate(gaps, j), n)),
                product(trial_factors(n, gaps, k)),
            ),
    decreases k,
{
    let found = trial_factors(n, gaps, k);
    if k == 0 {
        lemma_mod_self_0(n);
        lemma_divides_multiple(1, n);
        assert forall|j: nat| 0 <= j <= gaps.len() implies !divides(
            #[trigger] candidate(gaps, j),
            1,
        ) by {
            lemma_small_mod(1, candidate(gaps, j) as nat);
        }
    } else {
        let k1 = (k - 1) as nat;
        let c = candidate(gaps, k1);
        let e = multiplicity(c, n);
        let before = trial_factors(n, gaps, k1);
        let p = product(before);
        lemma_trial_product(n, gaps, k1);
        lemma_pow_positive(c, e);
        lemma_pow0(c);
        if divides(c, n) {
            assert(found.drop_last() =~= before);
            let full = p * pow(c, e);
            assert(product(found) == full);
            lemma_mul_strictly_positive(p, pow(c, e));
            lemma_multiplicity_divides(c, n);
            lemma_divides_quotient(p, n);
            let m = n / p;
            lemma_prime_power_cancels(c, e, p, m);
            lemma_divides_quotient(pow(c, e), m);
            let m1 = m / pow(c, e);
            assert(n == full * m1) by (nonlinear_arith)
                requires
                    n == p * m,
                    m == pow(c, e) * m1,
                    full == p * pow(c, e),
            ;
            lemma_divides_multiple(full, m1);
            assert forall|j: nat| k <= j <= gaps.len() implies !divides(
                #[trigger] candidate(gaps, j),
                full,
            ) by {
                let cj = candidate(gaps, j);
                lemma_candidates_ascend(gaps, k1, j);
                if divides(cj, full) {
                    lemma_euclid(cj, p, pow(c, e));
                    lemma_prime_divides_power(cj, c, e);
                    lemma_prime_divisors(c, cj);
                }
            }
            assert forall|j: nat| j < k implies divides(
                pow(#[trigger] candidate(gaps, j), multiplicity(candidate(gaps, j), n)),
                full,
            ) by {
                let cj = candidate(gaps, j);
                lemma_pow_positive(cj, multiplicity(cj, n));
                lemma_divides_multiple(p, pow(c, e));
                lemma_divides_multiple(pow(c, e), p);
                if j < k1 {
                    lemma_divides_trans(pow(cj, multiplicity(cj, n)), p, full);
                }
            }
        } else {
            assert forall|j: nat| j < k implies divides(
                pow(#[trigger] candidate(gaps, j), multiplicity(candidate(gaps, j), n)),
                p,
            ) by {
                if j == k1 {
                    lemma_divides_multiple(1, p);
                }
            }
        }
    }
}

/// No candidate of a table of primes divides what trial division by the
/// table leaves of `n`.
pub proof fn lemma_cofactor_free(n: int, gaps: Seq<u32>, j: nat)
    requires
        n > 0,
        prime_table(gaps),
        j <= gaps.len(),
    ensures
        !divides(candidate(gaps, j), n / product(trial_factors(n, gaps, gaps.len() + 1))),
{
    let p = product(trial_factors(n, gaps, gaps.len() + 1));
    let c = candidate(gaps, j);
    let e = multiplicity(c, n);
    let m = n / p;
    lemma_trial_product(n, gaps, gaps.len() + 1);
    lemma_divides_quotient(p, n);
    lemma_pow_positive(c, e);
    lemma_pow_positive(c, e + 1);
    lemma_pow_adds(c, e, 1);
    lemma_pow1(c);
    lemma_multiplicity_divides(c, n);
    if divides(c, m) {
        lemma_divides_quotient(c, m);
        lemma_divides_quotient(pow(c, e), p);
        let (m1, r) = (m / c, p / pow(c, e));
        assert(n == pow(c, e + 1) * (r * m1)) by (nonlinear_arith)
            requires
                n == p * m,
                m == c * m1,
                p == pow(c, e) * r,
                pow(c, e + 1) == pow(c, e) * c,
        ;
        lemma_divides_multiple(pow(c, e + 1), r * m1);
    }
}

/// Every candidate is at least 2.
pub proof fn lemma_candidate_bound(gaps: Seq<u32>, i: nat)
    ensures
        candidate(gaps, i) >= 2,
    decreases i,
{
    if i >= 2 {
        lemma_candidate_bound(gaps, (i - 1) as nat);
    }
}

/// Each factor that trial division of a positive number finds is a power
/// of a number from 2 on, with an exponent from 1 on.
pub proof fn lemma_trial_factors_valid(n: int, gaps: Seq<u32>, k: nat)
    requires
        n > 0,
    ensures
        forall|i: int|
            0 <= i < trial_factors(n, gaps, k).len() ==> {
                &&& (#[trigger] trial_factors(n, gaps, k)[i]).prime >= 2
                &&& trial_factors(n, gaps, k)[i].exp >= 1
            },
    decreases k,
{
    if k > 0 {
        let found = trial_factors(n, gaps, k);
        let before = trial_factors(n, gaps, (k - 1) as nat);
        lemma_trial_factors_valid(n, gaps, (k - 1) as nat);
        lemma_candidate_bound(gaps, (k - 1) as nat);
        assert forall|i: int| 0 <= i < found.len() implies (#[trigger] found[i]).prime >= 2
            && found[i].exp >= 1 by {
            if i < before.len() {
                assert(found[i] == before[i]);
            }
        }
    }
}

/// Appending a prime power to a list multiplies the product by it.
pub proof fn lemma_product_push(s: Seq<FactorView>, f: FactorView)
    ensures
        product(s.push(f)) == product(s) * pow(f.prime, f.exp),
{
    assert(s.push(f).drop_last() =~= s);
}

/// Trial division by a table of primes finds its factors in ascending
/// order of the primes, none above the last candidate tried.
pub proof fn lemma_trial_factors_ascend(n: int, gaps: Seq<u32>, k: nat)
    requires
        prime_table(gaps),
        1 <= k <= gaps.len() + 1,
    ensures
        forall|i: int|
            0 <= i < trial_factors(n, gaps, k).len() ==> (#[trigger] trial_factors(
                n,
                gaps,
                k,
            )[i]).prime <= candidate(gaps, (k - 1) as nat),
        forall|i: int, j: int|
            0 <= i < j < trial_factors(n, gaps, k).len() ==> (#[trigger] trial_factors(
                n,
                gaps,
                k,
            )[i]).prime < (#[trigger] trial_factors(n, gaps, k)[j]).prime,
    decreases k,
{
    let found = trial_factors(n, gaps, k);
    let k1 = (k - 1) as nat;
    let before = trial_factors(n, gaps, k1);
    if k1 > 0 {
        lemma_trial_factors_ascend(n, gaps, k1);
        lemma_candidates_ascend(gaps, (k1 - 1) as nat, k1);
    }
    assert forall|i: int| 0 <= i < found.len() implies (#[trigger] found[i]).prime <= candidate(
        gaps,
        k1,
    ) by {
        if i < before.len() {
            assert(found[i] == before[i]);
        }
    }
    assert forall|i: int, j: int| 0 <= i < j < found.len() implies #[trigger] found[i].prime
        < #[trigger] found[j].prime by {
        assert(found[i] == before[i]);
        if j < before.len() {
            assert(found[j] == before[j]);
        }
    }
}

} // verus!
