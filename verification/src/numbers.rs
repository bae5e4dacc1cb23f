//! The arithmetic notions that the contracts of this library speak of,
//! with the lemmas that its proofs rest on.

use vstd::arithmetic::div_mod::*;
use vstd::arithmetic::logarithm::*;
use vstd::arithmetic::mul::*;
use vstd::arithmetic::power::*;
use vstd::arithmetic::power2::*;
use vstd::prelude::*;

verus! {

/// `d` divides `n`. Only 0 is divisible by 0.
pub open spec fn divides(d: int, n: int) -> bool {
    if d == 0 {
        n == 0
    } else {
        n % d == 0
    }
}

/// `p` is a prime number.
pub open spec fn is_prime(p: int) -> bool {
    &&& p >= 2
    &&& forall|d: int| 1 < d < p ==> #[trigger] (p % d) != 0
}

/// The greatest common divisor of two natural numbers, with `gcd(0, 0) == 0`.
pub open spec fn gcd(a: nat, b: nat) -> nat
    decreases b,
{
    if b == 0 {
        a
    } else {
        gcd(b, a % b)
    }
}

/// Bit `i` of the binary expansion of a natural number `v`.
pub open spec fn bit(v: int, i: nat) -> bool {
    (v / (pow2(i) as int)) % 2 == 1
}

/// `w` is an inverse of `d` modulo `n`, reduced to the range from 0 to `n - 1`.
pub open spec fn is_inverse(w: int, d: int, n: int) -> bool {
    &&& 0 <= w < n
    &&& (d * w) % n == 1int % n
}

/// `d` has an inverse modulo `n`.
pub open spec fn invertible(d: int, n: int) -> bool {
    exists|w: int| is_inverse(w, d, n)
}

/// The inverse of `d` modulo `n`, where there is one.
pub open spec fn inverse(d: int, n: int) -> int {
    choose|w: int| is_inverse(w, d, n)
}

/// `a` and `b` leave the same residue modulo `n`.
pub open spec fn cong(a: int, b: int, n: int) -> bool {
    a % n == b % n
}

/// A residue is congruent to the number it was taken from.
pub proof fn lemma_cong_mod(a: int, n: int)
    requires
        n > 0,
    ensures
        cong(a % n, a, n),
{
    lemma_mod_twice(a, n);
}

/// Congruence is kept by addition.
pub proof fn lemma_cong_add(a: int, a2: int, b: int, b2: int, n: int)
    requires
        n > 0,
        cong(a, a2, n),
        cong(b, b2, n),
    ensures
        cong(a + b, a2 + b2, n),
{
    lemma_add_mod_noop(a, b, n);
    lemma_add_mod_noop(a2, b2, n);
}

/// Congruence is kept by subtraction.
pub proof fn lemma_cong_sub(a: int, a2: int, b: int, b2: int, n: int)
    requires
        n > 0,
        cong(a, a2, n),
        cong(b, b2, n),
    ensures
        cong(a - b, a2 - b2, n),
{
    lemma_sub_mod_noop(a, b, n);
    lemma_sub_mod_noop(a2, b2, n);
}

/// Congruence is kept by multiplication.
pub proof fn lemma_cong_mul(a: int, a2: int, b: int, b2: int, n: int)
    requires
        n > 0,
        cong(a, a2, n),
        cong(b, b2, n),
    ensures
        cong(a * b, a2 * b2, n),
{
    lemma_mul_mod_noop(a, b, n);
    lemma_mul_mod_noop(a2, b2, n);
}

/// A number has at most one reduced inverse modulo `n`.
pub proof fn lemma_inverse_unique(w: int, w2: int, d: int, n: int)
    requires
        is_inverse(w, d, n),
        is_inverse(w2, d, n),
    ensures
        w == w2,
{
    lemma_cong_mul(w, w, d * w2, 1, n);
    lemma_cong_mul(d * w, 1, w2, w2, n);
    assert(w * (d * w2) == (d * w) * w2) by (nonlinear_arith);
    lemma_small_mod(w as nat, n as nat);
    lemma_small_mod(w2 as nat, n as nat);
}

/// The inverse that was found is the inverse.
pub proof fn lemma_inverse_is(w: int, d: int, n: int)
    requires
        is_inverse(w, d, n),
    ensures
        invertible(d, n),
        inverse(d, n) == w,
{
    lemma_inverse_unique(w, inverse(d, n), d, n);
}

/// How many numbers lie from `a` up to `b`, both included.
pub open spec fn span(a: int, b: int) -> nat {
    if a <= b {
        (b - a + 1) as nat
    } else {
        0
    }
}

/// The exponent of the greatest power of `p` that divides `n`, for
/// `p >= 2` and `n > 0`.
pub open spec fn multiplicity(p: int, n: int) -> nat
    decreases n,
{
    if p >= 2 && n > 0 && n % p == 0 {
        proof {
            lemma_div_decreases(n, p);
            lemma_div_pos_is_pos(n, p);
        }
        1 + multiplicity(p, n / p)
    } else {
        0
    }
}

/// A number divides its multiples.
pub proof fn lemma_divides_multiple(d: int, k: int)
    requires
        d > 0,
    ensures
        divides(d, d * k),
        divides(d, k * d),
        (d * k) / d == k,
{
    lemma_mod_multiples_basic(k, d);
    assert(d * k == k * d) by (nonlinear_arith);
    lemma_div_multiples_vanish(k, d);
}

/// What a number divides is that number times the quotient.
pub proof fn lemma_divides_quotient(d: int, n: int)
    requires
        d != 0,
        divides(d, n),
    ensures
        n == d * (n / d),
{
    lemma_fundamental_div_mod(n, d);
}

/// A positive number is at least each of its positive divisors.
pub proof fn lemma_divisor_bound(d: int, n: int)
    requires
        d > 0,
        n > 0,
        divides(d, n),
    ensures
        d <= n,
        n / d >= 1,
{
    lemma_divides_quotient(d, n);
    let k = n / d;
    assert(k >= 1 && d <= n) by (nonlinear_arith)
        requires
            n == d * k,
            d > 0,
            n > 0,
    ;
}

/// Divisibility is transitive.
pub proof fn lemma_divides_trans(a: int, b: int, c: int)
    requires
        a > 0,
        b != 0,
        divides(a, b),
        divides(b, c),
    ensures
        divides(a, c),
{
    lemma_divides_quotient(a, b);
    lemma_divides_quotient(b, c);
    let (j, k) = (b / a, c / b);
    assert(c == a * (j * k)) by (nonlinear_arith)
        requires
            b == a * j,
            c == b * k,
    ;
    lemma_divides_multiple(a, j * k);
}

/// The exponent `e` of a power of `p` that divides `n`, while the next
/// power does not, is the multiplicity of `p` in `n`.
pub proof fn lemma_multiplicity_is(p: int, n: int, e: nat)
    requires
        p >= 2,
        n > 0,
        divides(pow(p, e), n),
        !divides(pow(p, e + 1), n),
    ensures
        multiplicity(p, n) == e,
    decreases e,
{
    lemma_pow1(p);
    if e > 0 {
        let e1 = (e - 1) as nat;
        lemma_pow_positive(p, e);
        lemma_pow_positive(p, e1);
        lemma_pow_positive(p, e + 1);
        lemma_pow_adds(p, 1, e1);
        lemma_pow_adds(p, 1, e);
        lemma_divides_quotient(pow(p, e), n);
        let k = n / pow(p, e);
        assert(n == p * (pow(p, e1) * k)) by (nonlinear_arith)
            requires
                n == pow(p, e) * k,
                pow(p, e) == p * pow(p, e1),
        ;
        lemma_divides_multiple(p, pow(p, e1) * k);
        lemma_divides_multiple(pow(p, e1), k);
        lemma_div_pos_is_pos(n, p);
        if divides(pow(p, e), n / p) {
            lemma_divides_quotient(pow(p, e), n / p);
            let j = (n / p) / pow(p, e);
            assert(n == pow(p, e + 1) * j) by (nonlinear_arith)
                requires
                    n == p * (n / p),
                    n / p == pow(p, e) * j,
                    pow(p, e + 1) == p * pow(p, e),
            ;
            lemma_divides_multiple(pow(p, e + 1), j);
        }
        assert(n / p > 0) by (nonlinear_arith)
            requires
                n == p * (n / p),
                n > 0,
                p >= 2,
        ;
        lemma_multiplicity_is(p, n / p, e1);
    } else {
        lemma_pow0(p);
    }
}

/// The greatest power of `p` in `n` divides `n`, and the next does not.
pub proof fn lemma_multiplicity_divides(p: int, n: int)
    requires
        p >= 2,
        n > 0,
    ensures
        divides(pow(p, multiplicity(p, n)), n),
        !divides(pow(p, multiplicity(p, n) + 1), n),
    decreases n,
{
    lemma_pow1(p);
    lemma_pow0(p);
    if n % p == 0 {
        lemma_divides_quotient(p, n);
        lemma_div_pos_is_pos(n, p);
        lemma_div_decreases(n, p);
        let q = n / p;
        assert(q > 0) by (nonlinear_arith)
            requires
                n == p * q,
                n > 0,
                p >= 2,
        ;
        let e = multiplicity(p, q);
        lemma_multiplicity_divides(p, q);
        lemma_pow_positive(p, e);
        lemma_pow_positive(p, e + 1);
        lemma_pow_positive(p, e + 2);
        lemma_pow_adds(p, 1, e);
        lemma_pow_adds(p, 1, e + 1);
        lemma_divides_quotient(pow(p, e), q);
        let k = q / pow(p, e);
        assert(n == pow(p, e + 1) * k) by (nonlinear_arith)
            requires
                n == p * q,
                q == pow(p, e) * k,
                pow(p, e + 1) == p * pow(p, e),
        ;
        lemma_divides_multiple(pow(p, e + 1), k);
        if divides(pow(p, e + 2), n) {
            lemma_divides_quotient(pow(p, e + 2), n);
            let j = n / pow(p, e + 2);
            assert(n == p * (pow(p, e + 1) * j)) by (nonlinear_arith)
                requires
                    n == pow(p, e + 2) * j,
                    pow(p, e + 2) == p * pow(p, e + 1),
            ;
            lemma_divides_multiple(p, pow(p, e + 1) * j);
            lemma_divides_multiple(pow(p, e + 1), j);
        }
    }
}

/// A power grows with its base.
pub proof fn lemma_pow_base_increases(a: int, b: int, e: nat)
    requires
        0 <= a <= b,
    ensures
        0 <= pow(a, e) <= pow(b, e),
    decreases e,
{
    reveal(pow);
    if e > 0 {
        lemma_pow_base_increases(a, b, (e - 1) as nat);
        lemma_mul_inequality(pow(a, (e - 1) as nat), pow(b, (e - 1) as nat), a);
        lemma_mul_inequality(a, b, pow(b, (e - 1) as nat));
        lemma_mul_is_commutative(a, pow(a, (e - 1) as nat));
        lemma_mul_is_commutative(a, pow(b, (e - 1) as nat));
        lemma_mul_nonnegative(a, pow(a, (e - 1) as nat));
    }
}

/// A power of a number from 2 on that stays under `2^limit` has an
/// exponent under `limit`.
pub proof fn lemma_exponent_bound(p: int, e: nat, limit: nat)
    requires
        p >= 2,
        pow(p, e) < pow2(limit),
    ensures
        e < limit,
{
    lemma_pow_base_increases(2, p, e);
    lemma_pow2(e);
    if e > limit {
        lemma_pow2_strictly_increases(limit, e);
    }
}

/// Dividing by `c` and then by `d`, rounding down each time, is dividing
/// by `c * d`, whatever the sign of `x`.
pub proof fn lemma_div_twice(x: int, c: int, d: int)
    requires
        0 < c,
        0 < d,
    ensures
        c * d > 0,
        (x / c) / d == x / (c * d),
{
    lemma_mul_strictly_positive(c, d);
    lemma_fundamental_div_mod(x, c);
    lemma_fundamental_div_mod(x / c, d);
    lemma_mod_bound(x, c);
    lemma_mod_bound(x / c, d);
    let (q1, r1) = (x / c, x % c);
    let (q2, r2) = (q1 / d, q1 % d);
    assert(x == q2 * (c * d) + (c * r2 + r1) && 0 <= c * r2 + r1 < c * d) by (nonlinear_arith)
        requires
            x == c * q1 + r1,
            q1 == d * q2 + r2,
            0 <= r1 < c,
            0 <= r2 < d,
    ;
    lemma_fundamental_div_mod_converse(x, c * d, q2, c * r2 + r1);
}

/// What divides two numbers divides every combination `x k + y` of them.
pub proof fn lemma_divides_combination(g: int, x: int, y: int, k: int)
    requires
        g > 0,
        divides(g, x),
        divides(g, y),
    ensures
        divides(g, x * k + y),
{
    lemma_divides_quotient(g, x);
    lemma_divides_quotient(g, y);
    let (i, j) = (x / g, y / g);
    assert(x * k + y == g * (i * k + j)) by (nonlinear_arith)
        requires
            x == g * i,
            y == g * j,
    ;
    lemma_divides_multiple(g, i * k + j);
}

/// The greatest common divisor divides both numbers, and is positive
/// unless both are 0.
pub proof fn lemma_gcd_divides(a: nat, b: nat)
    ensures
        divides(gcd(a, b) as int, a as int),
        divides(gcd(a, b) as int, b as int),
        a > 0 || b > 0 ==> gcd(a, b) > 0,
    decreases b,
{
    if b > 0 {
        let g = gcd(b, a % b) as int;
        lemma_mod_bound(a as int, b as int);
        lemma_gcd_divides(b, a % b);
        lemma_fundamental_div_mod(a as int, b as int);
        lemma_divides_combination(g, b as int, (a % b) as int, (a / b) as int);
    } else if a > 0 {
        lemma_mod_self_0(a as int);
    }
}

/// The greatest common divisor with a positive number is a positive
/// divisor of that number, and so not above it.
pub proof fn lemma_gcd_bound(a: nat, n: nat)
    requires
        n > 0,
    ensures
        1 <= gcd(a, n) <= n,
        divides(gcd(a, n) as int, n as int),
        divides(gcd(a, n) as int, a as int),
{
    lemma_gcd_divides(a, n);
    lemma_divisor_bound(gcd(a, n) as int, n as int);
}

/// The exponent `k` of a power of `b` that does not exceed `x`, while the
/// next power does, is the logarithm of `x` to the base `b`, rounded down.
pub proof fn lemma_log_is(b: int, x: int, k: nat)
    requires
        b >= 2,
        pow(b, k) <= x < pow(b, k + 1),
    ensures
        log(b, x) == k,
    decreases k,
{
    reveal(log);
    lemma_pow0(b);
    lemma_pow1(b);
    if k > 0 {
        let k1 = (k - 1) as nat;
        lemma_pow_adds(b, 1, k1);
        lemma_pow_adds(b, 1, k);
        lemma_pow_positive(b, k1);
        lemma_pow_positive(b, k);
        assert(x >= b) by (nonlinear_arith)
            requires
                x >= b * pow(b, k1),
                pow(b, k1) >= 1,
                b >= 2,
        ;
        lemma_div_decreases(x, b);
        lemma_div_pos_is_pos(x, b);
        lemma_div_multiples_vanish(pow(b, k1), b);
        lemma_div_multiples_vanish(pow(b, k), b);
        lemma_mul_is_commutative(b, pow(b, k1));
        lemma_mul_is_commutative(b, pow(b, k));
        lemma_div_is_ordered(pow(b, k), x, b);
        lemma_div_by_multiple_is_strongly_ordered(x, pow(b, k + 1), pow(b, k), b);
        lemma_log_is(b, x / b, k1);
    }
}

/// Bezout's identity: the greatest common divisor of `a` and `b` is a
/// combination `a x + b y` of them. The lemma returns such `x` and `y`.
pub proof fn lemma_bezout(a: nat, b: nat) -> (r: (int, int))
    ensures
        a * r.0 + b * r.1 == gcd(a, b),
    decreases b,
{
    if b == 0 {
        (1, 0)
    } else {
        lemma_mod_bound(a as int, b as int);
        let (x, y) = lemma_bezout(b, a % b);
        lemma_fundamental_div_mod(a as int, b as int);
        let q = (a / b) as int;
        let g = gcd(a, b) as int;
        assert(a * y + b * (x - q * y) == g) by (nonlinear_arith)
            requires
                b * x + (a % b) * y == g,
                a == b * q + (a % b),
        ;
        (y, x - q * y)
    }
}

/// A positive divisor of a prime is 1 or the prime.
pub proof fn lemma_prime_divisors(p: int, d: int)
    requires
        is_prime(p),
        d > 0,
        divides(d, p),
    ensures
        d == 1 || d == p,
{
    lemma_divisor_bound(d, p);
}

/// A prime that does not divide `a` has no divisor in common with it.
pub proof fn lemma_prime_coprime(p: int, a: nat)
    requires
        is_prime(p),
        !divides(p, a as int),
    ensures
        gcd(p as nat, a) == 1,
{
    lemma_gcd_divides(p as nat, a);
    lemma_prime_divisors(p, gcd(p as nat, a) as int);
}

/// Euclid's lemma: a prime that divides a product divides one of the two.
pub proof fn lemma_euclid(p: int, a: int, b: int)
    requires
        is_prime(p),
        a >= 0,
        divides(p, a * b),
    ensures
        divides(p, a) || divides(p, b),
{
    if !divides(p, a) {
        lemma_prime_coprime(p, a as nat);
        let (x, y) = lemma_bezout(p as nat, a as nat);
        lemma_divides_quotient(p, a * b);
        let k = (a * b) / p;
        assert(b == p * (x * b + k * y)) by (nonlinear_arith)
            requires
                p * x + a * y == 1,
                a * b == p * k,
        ;
        lemma_divides_multiple(p, x * b + k * y);
    }
}

/// A prime that divides a power of a number divides the number.
pub proof fn lemma_prime_divides_power(p: int, c: int, e: nat)
    requires
        is_prime(p),
        c >= 0,
        divides(p, pow(c, e)),
    ensures
        divides(p, c),
    decreases e,
{
    reveal(pow);
    if e == 0 {
        lemma_small_mod(1, p as nat);
    } else {
        lemma_euclid(p, c, pow(c, (e - 1) as nat));
        if !divides(p, c) {
            lemma_prime_divides_power(p, c, (e - 1) as nat);
        }
    }
}

/// A power of a prime that divides a product, where the prime does not
/// divide the first of the two, divides the second.
pub proof fn lemma_prime_power_cancels(p: int, e: nat, a: int, m: int)
    requires
        is_prime(p),
        a >= 0,
        !divides(p, a),
        divides(pow(p, e), a * m),
    ensures
        divides(pow(p, e), m),
    decreases e,
{
    reveal(pow);
    lemma_pow_positive(p, e);
    if e == 0 {
        lemma_divides_multiple(1, m);
    } else {
        let e1 = (e - 1) as nat;
        lemma_pow_positive(p, e1);
        lemma_divides_quotient(pow(p, e), a * m);
        let t = (a * m) / pow(p, e);
        assert(a * m == p * (pow(p, e1) * t)) by (nonlinear_arith)
            requires
                a * m == pow(p, e) * t,
                pow(p, e) == p * pow(p, e1),
        ;
        lemma_divides_multiple(p, pow(p, e1) * t);
        lemma_euclid(p, a, m);
        lemma_divides_quotient(p, m);
        let m1 = m / p;
        assert(a * m1 == pow(p, e1) * t) by (nonlinear_arith)
            requires
                a * m == p * (pow(p, e1) * t),
                m == p * m1,
                p >= 2,
        ;
        lemma_divides_multiple(pow(p, e1), t);
        lemma_prime_power_cancels(p, e1, a, m1);
        lemma_divides_quotient(pow(p, e1), m1);
        let j = m1 / pow(p, e1);
        assert(m == pow(p, e) * j) by (nonlinear_arith)
            requires
                m == p * m1,
                m1 == pow(p, e1) * j,
                pow(p, e) == p * pow(p, e1),
        ;
        lemma_divides_multiple(pow(p, e), j);
    }
}

} // verus!
