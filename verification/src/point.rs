//! Points of a Montgomery curve in projective x-z coordinates, and the
//! arithmetic on them: differential addition, doubling and the ladder.

use crate::bigint::{big_add, big_lt, big_mul, big_sub, value};
use crate::numbers::{bit, cong, lemma_cong_add, lemma_cong_mod, lemma_cong_mul, lemma_cong_sub};
use gmp::mpz::Mpz;
use vstd::arithmetic::div_mod::*;
use vstd::arithmetic::power::*;
use vstd::arithmetic::power2::*;
use vstd::prelude::*;

verus! {

/// A projective point as a pair of mathematical integers.
pub struct ProjPoint {
    pub x: int,
    pub z: int,
}

impl ProjPoint {
    /// Both coordinates are least non-negative residues modulo `n`.
    pub open spec fn reduced(self, n: int) -> bool {
        0 <= self.x < n && 0 <= self.z < n
    }
}

/// The point at infinity, the identity of the group.
pub open spec fn identity() -> ProjPoint {
    ProjPoint { x: 1, z: 0 }
}

/// The sum of `p` and `q` modulo `n`, given their difference `d`.
pub open spec fn diff_add(p: ProjPoint, q: ProjPoint, d: ProjPoint, n: int) -> ProjPoint {
    let u = (p.x - p.z) * (q.x + q.z);
    let v = (p.x + p.z) * (q.x - q.z);
    ProjPoint { x: (d.z * ((u + v) * (u + v))) % n, z: (d.x * ((u - v) * (u - v))) % n }
}

/// The double of `p` modulo `n` on the curve of coefficient `a`.
pub open spec fn double(p: ProjPoint, n: int, a: int) -> ProjPoint {
    let q = (p.x + p.z) * (p.x + p.z);
    let r = (p.x - p.z) * (p.x - p.z);
    let s = q - r;
    ProjPoint { x: (q * r) % n, z: (s * (r + a * s)) % n }
}

/// A point of a Montgomery curve modulo some `n`, in x-z coordinates.
#[derive(Clone, Debug)]
pub struct Point {
    pub x: Mpz,
    pub z: Mpz,
}

impl View for Point {
    type V = ProjPoint;

    open spec fn view(&self) -> ProjPoint {
        ProjPoint { x: value(self.x), z: value(self.z) }
    }
}

impl Point {
    /// The point at infinity.
    pub fn zero() -> (r: Point)
        ensures
            r@ == identity(),
    {
        Point { x: Mpz::one(), z: Mpz::zero() }
    }
}

/// Differential addition: `p + q` modulo `n`, where `pmq` is `p - q`.
pub fn x_add(p: &Point, q: &Point, pmq: &Point, n: &Mpz) -> (r: Point)
    requires
        value(*n) > 0,
    ensures
        r@ == diff_add(p@, q@, pmq@, value(*n)),
        r@.reduced(value(*n)),
{
    let two = Mpz::from(2u64);
    let pz = p.z.modulus(n);
    let qz = q.z.modulus(n);
    let u = big_mul(&big_sub(&p.x, &pz), &big_add(&q.x, &qz)).modulus(n);
    let v = big_mul(&big_add(&p.x, &pz), &big_sub(&q.x, &qz)).modulus(n);
    let upv = big_add(&u, &v).powm(&two, n);
    let umv = big_sub(&u, &v).powm(&two, n);
    let x = big_mul(&pmq.z, &upv).modulus(n);
    let z = big_mul(&pmq.x, &umv).modulus(n);
    proof {
        let m = value(*n);
        let (px, pzv, qx, qzv) = (value(p.x), value(p.z), value(q.x), value(q.z));
        let uu = (px - pzv) * (qx + qzv);
        let vv = (px + pzv) * (qx - qzv);
        lemma_cong_mod(pzv, m);
        lemma_cong_mod(qzv, m);
        lemma_cong_sub(px, px, value(pz), pzv, m);
        lemma_cong_add(px, px, value(pz), pzv, m);
        lemma_cong_sub(qx, qx, value(qz), qzv, m);
        lemma_cong_add(qx, qx, value(qz), qzv, m);
        lemma_cong_mul(px - value(pz), px - pzv, qx + value(qz), qx + qzv, m);
        lemma_cong_mul(px + value(pz), px + pzv, qx - value(qz), qx - qzv, m);
        lemma_cong_mod((px - value(pz)) * (qx + value(qz)), m);
        lemma_cong_mod((px + value(pz)) * (qx - value(qz)), m);
        assert(cong(value(u), uu, m));
        assert(cong(value(v), vv, m));
        lemma_cong_add(value(u), uu, value(v), vv, m);
        lemma_cong_sub(value(u), uu, value(v), vv, m);
        lemma_square_is_pow2(value(u) + value(v));
        lemma_square_is_pow2(value(u) - value(v));
        lemma_cong_mul(value(u) + value(v), uu + vv, value(u) + value(v), uu + vv, m);
        lemma_cong_mul(value(u) - value(v), uu - vv, value(u) - value(v), uu - vv, m);
        lemma_cong_mod((value(u) + value(v)) * (value(u) + value(v)), m);
        lemma_cong_mod((value(u) - value(v)) * (value(u) - value(v)), m);
        lemma_cong_mul(value(pmq.z), value(pmq.z), value(upv), (uu + vv) * (uu + vv), m);
        lemma_cong_mul(value(pmq.x), value(pmq.x), value(umv), (uu - vv) * (uu - vv), m);
        lemma_mod_bound(value(pmq.z) * value(upv), m);
        lemma_mod_bound(value(pmq.x) * value(umv), m);
    }
    Point { x, z }
}

/// Doubling: `2 p` modulo `n` on the curve of coefficient `a`.
pub fn x_dbl(p: &Point, n: &Mpz, a: &Mpz) -> (r: Point)
    requires
        value(*n) > 0,
    ensures
        r@ == double(p@, value(*n), value(*a)),
        r@.reduced(value(*n)),
{
    let two = Mpz::from(2u64);
    let q = big_add(&p.x, &p.z).powm(&two, n);
    let r = big_sub(&p.x, &p.z).powm(&two, n);
    let s = big_sub(&q, &r);
    let x = big_mul(&q, &r).modulus(n);
    let z = big_mul(&s, &big_add(&r, &big_mul(a, &s))).modulus(n);
    proof {
        let m = value(*n);
        let (px, pz, av) = (value(p.x), value(p.z), value(*a));
        let qq = (px + pz) * (px + pz);
        let rr = (px - pz) * (px - pz);
        let ss = qq - rr;
        lemma_square_is_pow2(px + pz);
        lemma_square_is_pow2(px - pz);
        lemma_cong_mod(qq, m);
        lemma_cong_mod(rr, m);
        lemma_cong_sub(value(q), qq, value(r), rr, m);
        lemma_cong_mul(value(q), qq, value(r), rr, m);
        lemma_cong_mul(av, av, value(s), ss, m);
        lemma_cong_add(value(r), rr, av * value(s), av * ss, m);
        lemma_cong_mul(value(s), ss, value(r) + av * value(s), rr + av * ss, m);
        lemma_mod_bound(value(q) * value(r), m);
        lemma_mod_bound(value(s) * (value(r) + av * value(s)), m);
    }
    Point { x, z }
}

/// The pair `(m p, (m + 1) p)` that the ladder reaches for the scalar `m`:
/// from the pair for `m / 2`, one doubling and one differential addition,
/// in the order that the last bit of `m` decides.
pub open spec fn ladder_pair(m: nat, p: ProjPoint, n: int, a: int) -> (ProjPoint, ProjPoint)
    decreases m,
{
    if m == 0 {
        (identity(), p)
    } else {
        let (q0, q1) = ladder_pair(m / 2, p, n, a);
        if m % 2 == 0 {
            (double(q0, n, a), diff_add(q0, q1, p, n))
        } else {
            (diff_add(q0, q1, p, n), double(q1, n, a))
        }
    }
}

/// The multiple `m p` modulo `n` on the curve of coefficient `a`.
pub open spec fn multiple(m: nat, p: ProjPoint, n: int, a: int) -> ProjPoint {
    ladder_pair(m, p, n, a).0
}

/// Dropping one bit less from `m` appends the bit of that index.
proof fn lemma_prefix_step(m: nat, k: nat)
    ensures
        (m / pow2(k)) / 2 == m / pow2(k + 1),
        ((m / pow2(k)) % 2 == 1) == bit(m as int, k),
{
    lemma_pow2_pos(k);
    lemma_pow2_unfold(k + 1);
    lemma_div_denominator(m as int, pow2(k) as int, 2);
}

/// The Montgomery ladder: `m x` modulo `n` on the curve of coefficient `a`,
/// and the point at infinity for `m == 0`.
pub fn ladder(m: &Mpz, x: &Point, n: &Mpz, a: &Mpz) -> (r: Point)
    requires
        value(*m) >= 0,
        value(*n) > 0,
    ensures
        r@ == multiple(value(*m) as nat, x@, value(*n), value(*a)),
        value(*m) > 0 ==> r@.reduced(value(*n)),
{
    let mut x0 = Point::zero();
    if !big_lt(&Mpz::zero(), m) {
        return x0;
    }
    let beta = m.size_in_base(2);
    let mut x1 = Point { x: x.x.clone(), z: x.z.clone() };
    let ghost mv = value(*m) as nat;
    proof {
        lemma_basic_div(mv as int, pow2(beta as nat) as int);
    }
    let mut i: usize = 0;
    while i < beta
        invariant
            i <= beta,
            beta >= 1,
            mv == value(*m),
            value(*n) > 0,
            pow2((beta - 1) as nat) <= mv < pow2(beta as nat),
            (x0@, x1@) == ladder_pair(mv / pow2((beta - i) as nat), x@, value(*n), value(*a)),
            i > 0 ==> x0@.reduced(value(*n)),
        decreases beta - i,
    {
        let k = beta - i - 1;
        let b = m.tstbit(k);
        proof {
            lemma_prefix_step(mv, k as nat);
            lemma_pow2_pos(k as nat);
            if k < beta - 1 {
                lemma_pow2_strictly_increases(k as nat, (beta - 1) as nat);
            }
            lemma_div_non_zero(mv as int, pow2(k as nat) as int);
        }
        if b {
            let t = x_dbl(&x1, n, a);
            x0 = x_add(&x0, &x1, x, n);
            x1 = t;
        } else {
            let t = x_dbl(&x0, n, a);
            x1 = x_add(&x0, &x1, x, n);
            x0 = t;
        }
        i = i + 1;
    }
    proof {
        lemma2_to64();
        let d = pow2((beta - i) as nat);
        assert(d == 1);
        assert(mv / d == mv) by (nonlinear_arith)
            requires
                d == 1,
        ;
    }
    x0
}

/// Two pairs of coordinates stand for the same point of the projective
/// line modulo `n`: their cross products are congruent.
pub open spec fn same_point(p: ProjPoint, q: ProjPoint, n: int) -> bool {
    (p.x * q.z - p.z * q.x) % n == 0
}

/// The first coordinate of a double, before it is reduced.
spec fn double_x(x: int, z: int) -> int {
    ((x + z) * (x + z)) * ((x - z) * (x - z))
}

/// The second coordinate of a double, before it is reduced.
spec fn double_z(x: int, z: int, a: int) -> int {
    let r = (x - z) * (x - z);
    let s = (x + z) * (x + z) - r;
    s * (r + a * s)
}

/// Doubling sees the coordinates of a point only modulo `n`.
proof fn lemma_double_congruent(x: int, z: int, x2: int, z2: int, n: int, a: int)
    requires
        n > 0,
        cong(x, x2, n),
        cong(z, z2, n),
    ensures
        cong(double_x(x, z), double_x(x2, z2), n),
        cong(double_z(x, z, a), double_z(x2, z2, a), n),
{
    lemma_cong_add(x, x2, z, z2, n);
    lemma_cong_sub(x, x2, z, z2, n);
    lemma_cong_mul(x + z, x2 + z2, x + z, x2 + z2, n);
    lemma_cong_mul(x - z, x2 - z2, x - z, x2 - z2, n);
    let (q, q2) = ((x + z) * (x + z), (x2 + z2) * (x2 + z2));
    let (r, r2) = ((x - z) * (x - z), (x2 - z2) * (x2 - z2));
    lemma_cong_mul(q, q2, r, r2, n);
    lemma_cong_sub(q, q2, r, r2, n);
    lemma_cong_mul(a, a, q - r, q2 - r2, n);
    lemma_cong_add(r, r2, a * (q - r), a * (q2 - r2), n);
    lemma_cong_mul(q - r, q2 - r2, r + a * (q - r), r2 + a * (q2 - r2), n);
}

/// Doubling is homogeneous of degree 4 in the coordinates.
proof fn lemma_double_homogeneous(x: int, z: int, a: int, l: int)
    ensures
        double_x(l * x, l * z) == (l * l * l * l) * double_x(x, z),
        double_z(l * x, l * z, a) == (l * l * l * l) * double_z(x, z, a),
{
    let q = (x + z) * (x + z);
    let r = (x - z) * (x - z);
    let s = q - r;
    let l2 = l * l;
    let q2 = (l * x + l * z) * (l * x + l * z);
    let r2 = (l * x - l * z) * (l * x - l * z);
    assert(q2 == l2 * q) by (nonlinear_arith)
        requires
            q == (x + z) * (x + z),
            q2 == (l * x + l * z) * (l * x + l * z),
            l2 == l * l,
    ;
    assert(r2 == l2 * r) by (nonlinear_arith)
        requires
            r == (x - z) * (x - z),
            r2 == (l * x - l * z) * (l * x - l * z),
            l2 == l * l,
    ;
    assert(q2 * r2 == (l * l * l * l) * (q * r)) by (nonlinear_arith)
        requires
            q2 == l2 * q,
            r2 == l2 * r,
            l2 == l * l,
    ;
    let s2 = q2 - r2;
    assert(s2 == l2 * s) by (nonlinear_arith)
        requires
            q2 == l2 * q,
            r2 == l2 * r,
            s == q - r,
            s2 == q2 - r2,
    ;
    assert(s2 * (r2 + a * s2) == (l * l * l * l) * (s * (r + a * s))) by (nonlinear_arith)
        requires
            s2 == l2 * s,
            r2 == l2 * r,
            l2 == l * l,
    ;
}

/// The ladder for the scalar 2 reaches the double: `multiple(2, p, n, a)`
/// and `double(p, n, a)` stand for the same point modulo `n`, whatever
/// the point, the modulus and the curve.
pub proof fn lemma_ladder_two_is_double(p: ProjPoint, n: int, a: int)
    requires
        n > 0,
    ensures
        same_point(multiple(2, p, n, a), double(p, n, a), n),
{
    reveal_with_fuel(ladder_pair, 3);
    let (x, z) = (p.x, p.z);
    let q0 = diff_add(identity(), p, p, n);
    assert(ladder_pair(1, p, n, a).0 == q0);
    let twice = multiple(2, p, n, a);
    assert(twice == double(q0, n, a));
    let l = 4 * x * z;
    assert(z * (((x + z) + (x - z)) * ((x + z) + (x - z))) == l * x) by (nonlinear_arith)
        requires
            l == 4 * x * z,
    ;
    assert(x * (((x + z) - (x - z)) * ((x + z) - (x - z))) == l * z) by (nonlinear_arith)
        requires
            l == 4 * x * z,
    ;
    assert((1 - 0) * (x + z) == x + z && (1 + 0) * (x - z) == x - z) by (nonlinear_arith);
    lemma_cong_mod(l * x, n);
    lemma_cong_mod(l * z, n);
    lemma_double_congruent(q0.x, q0.z, l * x, l * z, n, a);
    lemma_double_homogeneous(x, z, a, l);
    let l4 = l * l * l * l;
    let (dx, dz) = (double_x(x, z), double_z(x, z, a));
    let d = double(p, n, a);
    assert(d.x == dx % n && d.z == dz % n);
    assert(twice.x == double_x(q0.x, q0.z) % n && twice.z == double_z(q0.x, q0.z, a) % n);
    lemma_cong_mod(dx, n);
    lemma_cong_mod(dz, n);
    lemma_cong_mod(double_x(q0.x, q0.z), n);
    lemma_cong_mod(double_z(q0.x, q0.z, a), n);
    lemma_cong_mul(twice.x, l4 * dx, d.z, dz, n);
    lemma_cong_mul(twice.z, l4 * dz, d.x, dx, n);
    lemma_cong_sub(twice.x * d.z, (l4 * dx) * dz, twice.z * d.x, (l4 * dz) * dx, n);
    assert((l4 * dx) * dz - (l4 * dz) * dx == 0) by (nonlinear_arith);
}

} // verus!
