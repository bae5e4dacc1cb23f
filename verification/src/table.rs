//! The test that a table of gaps stands for primes, as trial division
//! and the search want it.

use crate::factor::{candidate, prime_table};
use crate::numbers::{divides, is_prime, lemma_divides_multiple, lemma_divides_quotient};
use vstd::arithmetic::div_mod::*;
use vstd::prelude::*;

verus! {

/// A number from 2 on with no divisor from 2 up to `d - 1`, where `d`
/// exceeds `c / d`, is a prime: each divisor from `d` on would have a
/// partner below `d`.
proof fn lemma_no_small_divisor(c: int, d: int)
    requires
        c >= 2,
        d >= 2,
        d > c / d,
        forall|k: int| 1 < k < d ==> #[trigger] (c % k) != 0,
    ensures
        is_prime(c),
{
    assert forall|k: int| 1 < k < c implies #[trigger] (c % k) != 0 by {
        if k >= d && c % k == 0 {
            let j = c / k;
            lemma_divides_quotient(k, c);
            lemma_div_is_ordered_by_denominator(c, d, k);
            assert(1 < j) by (nonlinear_arith)
                requires
                    c == k * j,
                    1 < k < c,
            ;
            assert(c == j * k) by (nonlinear_arith)
                requires
                    c == k * j,
            ;
            lemma_divides_multiple(j, k);
            assert(c % j == 0);
        }
    }
}

/// Whether `c` is a prime, by trial division.
pub fn is_small_prime(c: u64) -> (r: bool)
    ensures
        r == is_prime(c as int),
{
    if c < 2 {
        return false;
    }
    let mut d: u64 = 2;
    while d <= c / d
        invariant
            c >= 2,
            2 <= d <= c,
            forall|k: int| 1 < k < d ==> #[trigger] (c as int % k) != 0,
        decreases c - d,
    {
        proof {
            lemma_fundamental_div_mod(c as int, d as int);
            assert(d < c) by (nonlinear_arith)
                requires
                    c == d * (c / d) + c % d,
                    0 <= c % d,
                    2 <= d <= c / d,
            ;
        }
        if c % d == 0 {
            return false;
        }
        d = d + 1;
    }
    proof {
        lemma_no_small_divisor(c as int, d as int);
    }
    true
}

/// The candidates of any table do not descend.
pub proof fn lemma_candidates_grow(gaps: Seq<u32>, i: nat, j: nat)
    requires
        i <= j,
    ensures
        candidate(gaps, i) <= candidate(gaps, j),
    decreases j,
{
    if i < j {
        lemma_candidates_grow(gaps, i, (j - 1) as nat);
    }
}

/// Whether a table of gaps stands for primes in ascending order. A table
/// whose candidates do not all fit in a `u64` is turned down.
pub fn table_in_order(gaps: &[u32]) -> (r: bool)
    ensures
        r ==> prime_table(gaps@),
        candidate(gaps@, gaps@.len()) <= u64::MAX ==> r == prime_table(gaps@),
{
    proof {
        assert forall|k: int| 1 < k < 2 implies #[trigger] (2int % k) != 0 by {
        }
        assert(is_prime(candidate(gaps@, 0)));
    }
    let mut c: u64 = 3;
    let mut i: usize = 0;
    while i < gaps.len()
        invariant
            i <= gaps.len(),
            i < gaps.len() ==> c == candidate(gaps@, (i + 1) as nat),
            forall|k: nat| k <= i ==> is_prime(#[trigger] candidate(gaps@, k)),
            forall|k: int| 0 <= k < i && k + 1 < gaps.len() ==> #[trigger] gaps@[k] > 0,
        decreases gaps.len() - i,
    {
        if !is_small_prime(c) {
            return false;
        }
        if i + 1 < gaps.len() {
            let gap = gaps[i];
            if gap == 0 {
                return false;
            }
            let step: u64 = 2 * (gap as u64);
            if c > u64::MAX - step {
                proof {
                    lemma_candidates_grow(gaps@, (i + 2) as nat, gaps@.len());
                }
                return false;
            }
            c = c + step;
        }
        i = i + 1;
    }
    true
}

} // verus!
