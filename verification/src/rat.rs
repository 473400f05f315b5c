//! Exact rational numbers over arbitrary-precision integers.
//!
//! A `Rat` is a fraction `num / den` with `den > 0`; it is not kept in
//! lowest terms. In specifications a rational is a `RatV`, a pair of
//! mathematical integers, and `rv_eq` is equality of the fractions the
//! pairs stand for (cross multiplication). All arithmetic here is exact.

use vstd::prelude::*;
use crate::bignum::{int_of, int_from_i64, int_add, int_sub, int_mul, int_lt, int_eq};

verus! {

/// The mathematical value of a rational: numerator and denominator.
pub struct RatV {
    pub n: int,
    pub d: int,
}

/// A well-formed rational value has a positive denominator.
pub open spec fn rv_wf(x: RatV) -> bool {
    x.d > 0
}

pub open spec fn rv_int(v: int) -> RatV {
    RatV { n: v, d: 1 }
}

pub open spec fn rv_add(x: RatV, y: RatV) -> RatV {
    RatV { n: x.n * y.d + y.n * x.d, d: x.d * y.d }
}

pub open spec fn rv_sub(x: RatV, y: RatV) -> RatV {
    RatV { n: x.n * y.d - y.n * x.d, d: x.d * y.d }
}

pub open spec fn rv_mul(x: RatV, y: RatV) -> RatV {
    RatV { n: x.n * y.n, d: x.d * y.d }
}

/// Exact division, with the sign moved into the numerator so that the
/// result's denominator is positive whenever both arguments are
/// well-formed and `y` is not zero.
pub open spec fn rv_div(x: RatV, y: RatV) -> RatV {
    if y.n >= 0 {
        RatV { n: x.n * y.d, d: x.d * y.n }
    } else {
        RatV { n: -(x.n * y.d), d: -(x.d * y.n) }
    }
}

pub open spec fn rv_neg(x: RatV) -> RatV {
    RatV { n: -x.n, d: x.d }
}

pub open spec fn rv_abs(x: RatV) -> RatV {
    RatV { n: vstd::math::abs(x.n) as int, d: x.d }
}

/// The two pairs stand for the same fraction.
pub open spec fn rv_eq(x: RatV, y: RatV) -> bool {
    x.n * y.d == y.n * x.d
}

/// Order of the fractions; meaningful when both denominators are positive.
pub open spec fn rv_le(x: RatV, y: RatV) -> bool {
    x.n * y.d <= y.n * x.d
}

pub open spec fn rv_lt(x: RatV, y: RatV) -> bool {
    x.n * y.d < y.n * x.d
}

pub open spec fn rv_is_zero(x: RatV) -> bool {
    x.n == 0
}

/// An exact rational number: `num / den` with `den > 0`.
pub struct Rat {
    num: num_bigint::BigInt,
    den: num_bigint::BigInt,
}

impl View for Rat {
    type V = RatV;

    closed spec fn view(&self) -> RatV {
        RatV { n: int_of(self.num), d: int_of(self.den) }
    }
}

impl Rat {
    pub open spec fn wf(&self) -> bool {
        rv_wf(self@)
    }

    pub fn zero() -> (r: Rat)
        ensures
            r.wf(),
            r@ == rv_int(0),
    {
        Rat { num: int_from_i64(0), den: int_from_i64(1) }
    }

    pub fn one() -> (r: Rat)
        ensures
            r.wf(),
            r@ == rv_int(1),
    {
        Rat { num: int_from_i64(1), den: int_from_i64(1) }
    }

    pub fn from_i64(v: i64) -> (r: Rat)
        ensures
            r.wf(),
            r@ == rv_int(v as int),
    {
        Rat { num: int_from_i64(v), den: int_from_i64(1) }
    }

    /// Builds the fraction `num / den` directly from big integers; the
    /// denominator must be positive.
    pub fn from_big(num: num_bigint::BigInt, den: num_bigint::BigInt) -> (r: Rat)
        requires
            int_of(den) > 0,
        ensures
            r.wf(),
            r@ == (RatV { n: int_of(num), d: int_of(den) }),
    {
        Rat { num, den }
    }

    /// An independently owned copy of the same rational.
    pub fn dup(&self) -> (r: Rat)
        ensures
            r@ == self@,
    {
        Rat { num: self.num.clone(), den: self.den.clone() }
    }

    pub fn add(&self, o: &Rat) -> (r: Rat)
        requires
            self.wf(),
            o.wf(),
        ensures
            r.wf(),
            r@ == rv_add(self@, o@),
    {
        let n1 = int_mul(&self.num, &o.den);
        let n2 = int_mul(&o.num, &self.den);
        let r = Rat { num: int_add(&n1, &n2), den: int_mul(&self.den, &o.den) };
        proof {
            assert(self@.d * o@.d > 0) by (nonlinear_arith)
                requires
                    self@.d > 0,
                    o@.d > 0,
            ;
        }
        r
    }

    pub fn sub(&self, o: &Rat) -> (r: Rat)
        requires
            self.wf(),
            o.wf(),
        ensures
            r.wf(),
            r@ == rv_sub(self@, o@),
    {
        let n1 = int_mul(&self.num, &o.den);
        let n2 = int_mul(&o.num, &self.den);
        let r = Rat { num: int_sub(&n1, &n2), den: int_mul(&self.den, &o.den) };
        proof {
            assert(self@.d * o@.d > 0) by (nonlinear_arith)
                requires
                    self@.d > 0,
                    o@.d > 0,
            ;
        }
        r
    }

    pub fn mul(&self, o: &Rat) -> (r: Rat)
        requires
            self.wf(),
            o.wf(),
        ensures
            r.wf(),
            r@ == rv_mul(self@, o@),
    {
        let r = Rat { num: int_mul(&self.num, &o.num), den: int_mul(&self.den, &o.den) };
        proof {
            assert(self@.d * o@.d > 0) by (nonlinear_arith)
                requires
                    self@.d > 0,
                    o@.d > 0,
            ;
        }
        r
    }

    pub fn div(&self, o: &Rat) -> (r: Rat)
        requires
            self.wf(),
            o.wf(),
            o@.n != 0,
        ensures
            r.wf(),
            r@ == rv_div(self@, o@),
    {
        let zero = int_from_i64(0);
        let n = int_mul(&self.num, &o.den);
        let d = int_mul(&self.den, &o.num);
        if int_lt(&o.num, &zero) {
            let r = Rat { num: int_sub(&zero, &n), den: int_sub(&zero, &d) };
            proof {
                assert(-(self@.d * o@.n) > 0) by (nonlinear_arith)
                    requires
                        self@.d > 0,
                        o@.n < 0,
                ;
            }
            r
        } else {
            let r = Rat { num: n, den: d };
            proof {
                assert(self@.d * o@.n > 0) by (nonlinear_arith)
                    requires
                        self@.d > 0,
                        o@.n > 0,
                ;
            }
            r
        }
    }

    pub fn neg(&self) -> (r: Rat)
        ensures
            r@ == rv_neg(self@),
            self.wf() ==> r.wf(),
    {
        let zero = int_from_i64(0);
        Rat { num: int_sub(&zero, &self.num), den: self.den.clone() }
    }

    pub fn abs(&self) -> (r: Rat)
        ensures
            r@ == rv_abs(self@),
            self.wf() ==> r.wf(),
    {
        let zero = int_from_i64(0);
        if int_lt(&self.num, &zero) {
            Rat { num: int_sub(&zero, &self.num), den: self.den.clone() }
        } else {
            Rat { num: self.num.clone(), den: self.den.clone() }
        }
    }

    pub fn is_zero(&self) -> (r: bool)
        ensures
            r == rv_is_zero(self@),
    {
        let zero = int_from_i64(0);
        int_eq(&self.num, &zero)
    }

    /// Whether the two fractions are equal as rationals.
    pub fn eq_rat(&self, o: &Rat) -> (r: bool)
        ensures
            r == rv_eq(self@, o@),
    {
        let p = int_mul(&self.num, &o.den);
        let q = int_mul(&o.num, &self.den);
        int_eq(&p, &q)
    }

    pub fn le(&self, o: &Rat) -> (r: bool)
        ensures
            r == rv_le(self@, o@),
    {
        let p = int_mul(&self.num, &o.den);
        let q = int_mul(&o.num, &self.den);
        !int_lt(&q, &p)
    }

    pub fn lt(&self, o: &Rat) -> (r: bool)
        ensures
            r == rv_lt(self@, o@),
    {
        let p = int_mul(&self.num, &o.den);
        let q = int_mul(&o.num, &self.den);
        int_lt(&p, &q)
    }

    /// The numerator and denominator as arbitrary-precision integers.
    pub fn parts(&self) -> (r: (num_bigint::BigInt, num_bigint::BigInt))
        ensures
            int_of(r.0) == self@.n,
            int_of(r.1) == self@.d,
    {
        (self.num.clone(), self.den.clone())
    }
}

/// Sum of well-formed rationals is well-formed.
pub proof fn lemma_rv_add_wf(x: RatV, y: RatV)
    requires
        rv_wf(x),
        rv_wf(y),
    ensures
        rv_wf(rv_add(x, y)),
{
    assert(x.d * y.d > 0) by (nonlinear_arith)
        requires
            x.d > 0,
            y.d > 0,
    ;
}

/// Difference of well-formed rationals is well-formed.
pub proof fn lemma_rv_sub_wf(x: RatV, y: RatV)
    requires
        rv_wf(x),
        rv_wf(y),
    ensures
        rv_wf(rv_sub(x, y)),
{
    assert(x.d * y.d > 0) by (nonlinear_arith)
        requires
            x.d > 0,
            y.d > 0,
    ;
}

/// Product of well-formed rationals is well-formed.
pub proof fn lemma_rv_mul_wf(x: RatV, y: RatV)
    requires
        rv_wf(x),
        rv_wf(y),
    ensures
        rv_wf(rv_mul(x, y)),
{
    assert(x.d * y.d > 0) by (nonlinear_arith)
        requires
            x.d > 0,
            y.d > 0,
    ;
}

/// Quotient of well-formed rationals by a nonzero one is well-formed.
pub proof fn lemma_rv_div_wf(x: RatV, y: RatV)
    requires
        rv_wf(x),
        rv_wf(y),
        y.n != 0,
    ensures
        rv_wf(rv_div(x, y)),
{
    if y.n >= 0 {
        assert(x.d * y.n > 0) by (nonlinear_arith)
            requires
                x.d > 0,
                y.n > 0,
        ;
    } else {
        assert(-(x.d * y.n) > 0) by (nonlinear_arith)
            requires
                x.d > 0,
                y.n < 0,
        ;
    }
}

/// `rv_eq` is transitive across a well-formed middle term.
pub proof fn lemma_rv_eq_trans(x: RatV, y: RatV, z: RatV)
    requires
        rv_wf(y),
        rv_eq(x, y),
        rv_eq(y, z),
    ensures
        rv_eq(x, z),
{
    assert(x.n * z.d == z.n * x.d) by (nonlinear_arith)
        requires
            x.n * y.d == y.n * x.d,
            y.n * z.d == z.n * y.d,
            y.d > 0,
    ;
}

/// Sums of equal rationals are equal.
pub proof fn lemma_rv_add_cong2(u: RatV, u2: RatV, w: RatV, w2: RatV)
    requires
        rv_eq(u, u2),
        rv_eq(w, w2),
    ensures
        rv_eq(rv_add(u, w), rv_add(u2, w2)),
{
    vstd::arithmetic::mul::lemma_mul_is_distributive_add_other_way(
        u2.d * w2.d, u.n * w.d, w.n * u.d);
    vstd::arithmetic::mul::lemma_mul_is_distributive_add_other_way(
        u.d * w.d, u2.n * w2.d, w2.n * u2.d);
    assert((u.n * w.d) * (u2.d * w2.d) == (u.n * u2.d) * (w.d * w2.d)) by (nonlinear_arith);
    assert((w.n * u.d) * (u2.d * w2.d) == (w.n * w2.d) * (u.d * u2.d)) by (nonlinear_arith);
    assert((u2.n * w2.d) * (u.d * w.d) == (u2.n * u.d) * (w.d * w2.d)) by (nonlinear_arith);
    assert((w2.n * u2.d) * (u.d * w.d) == (w2.n * w.d) * (u.d * u2.d)) by (nonlinear_arith);
}

/// Differences of equal rationals are equal.
pub proof fn lemma_rv_sub_cong2(u: RatV, u2: RatV, w: RatV, w2: RatV)
    requires
        rv_eq(u, u2),
        rv_eq(w, w2),
    ensures
        rv_eq(rv_sub(u, w), rv_sub(u2, w2)),
{
    vstd::arithmetic::mul::lemma_mul_is_distributive_sub_other_way(
        u2.d * w2.d, u.n * w.d, w.n * u.d);
    vstd::arithmetic::mul::lemma_mul_is_distributive_sub_other_way(
        u.d * w.d, u2.n * w2.d, w2.n * u2.d);
    assert((u.n * w.d) * (u2.d * w2.d) == (u.n * u2.d) * (w.d * w2.d)) by (nonlinear_arith);
    assert((w.n * u.d) * (u2.d * w2.d) == (w.n * w2.d) * (u.d * u2.d)) by (nonlinear_arith);
    assert((u2.n * w2.d) * (u.d * w.d) == (u2.n * u.d) * (w.d * w2.d)) by (nonlinear_arith);
    assert((w2.n * u2.d) * (u.d * w.d) == (w2.n * w.d) * (u.d * u2.d)) by (nonlinear_arith);
}

/// Products of equal rationals are equal.
pub proof fn lemma_rv_mul_cong2(u: RatV, u2: RatV, w: RatV, w2: RatV)
    requires
        rv_eq(u, u2),
        rv_eq(w, w2),
    ensures
        rv_eq(rv_mul(u, w), rv_mul(u2, w2)),
{
    assert((u.n * w.n) * (u2.d * w2.d) == (u2.n * w2.n) * (u.d * w.d)) by (nonlinear_arith)
        requires
            u.n * u2.d == u2.n * u.d,
            w.n * w2.d == w2.n * w.d,
    ;
}

/// Negations of equal rationals are equal.
pub proof fn lemma_rv_neg_cong(u: RatV, w: RatV)
    requires
        rv_eq(u, w),
    ensures
        rv_eq(rv_neg(u), rv_neg(w)),
{
    assert((-u.n) * w.d == (-w.n) * u.d) by (nonlinear_arith)
        requires
            u.n * w.d == w.n * u.d,
    ;
}

/// Multiplication distributes over addition, as rationals.
pub proof fn lemma_rv_mul_add_dist(a: RatV, u: RatV, v: RatV)
    ensures
        rv_eq(rv_mul(a, rv_add(u, v)), rv_add(rv_mul(a, u), rv_mul(a, v))),
{
    vstd::arithmetic::mul::lemma_mul_is_distributive_add(a.n, u.n * v.d, v.n * u.d);
    vstd::arithmetic::mul::lemma_mul_is_distributive_add_other_way(
        (a.d * u.d) * (a.d * v.d), a.n * (u.n * v.d), a.n * (v.n * u.d));
    vstd::arithmetic::mul::lemma_mul_is_distributive_add_other_way(
        a.d * (u.d * v.d), (a.n * u.n) * (a.d * v.d), (a.n * v.n) * (a.d * u.d));
    assert((a.n * (u.n * v.d)) * ((a.d * u.d) * (a.d * v.d)) == ((a.n * u.n) * (a.d * v.d)) * (a.d
        * (u.d * v.d))) by (nonlinear_arith);
    assert((a.n * (v.n * u.d)) * ((a.d * u.d) * (a.d * v.d)) == ((a.n * v.n) * (a.d * u.d)) * (a.d
        * (u.d * v.d))) by (nonlinear_arith);
}

/// Multiplication of pairs is associative, exactly.
pub proof fn lemma_rv_mul_assoc(x: RatV, y: RatV, z: RatV)
    ensures
        rv_mul(rv_mul(x, y), z) == rv_mul(x, rv_mul(y, z)),
{
    assert((x.n * y.n) * z.n == x.n * (y.n * z.n)) by (nonlinear_arith);
    assert((x.d * y.d) * z.d == x.d * (y.d * z.d)) by (nonlinear_arith);
}

/// Adding and then subtracting the same rational is the identity.
pub proof fn lemma_rv_add_sub_cancel(x: RatV, y: RatV)
    ensures
        rv_eq(rv_sub(rv_add(x, y), y), x),
{
    assert(((x.n * y.d + y.n * x.d) * y.d - y.n * (x.d * y.d)) * x.d == x.n * ((x.d * y.d) * y.d))
        by (nonlinear_arith);
}

/// Subtracting a sum is subtracting both terms in turn.
pub proof fn lemma_rv_sub_add_regroup(x: RatV, u: RatV, v: RatV)
    ensures
        rv_eq(rv_sub(x, rv_add(u, v)), rv_sub(rv_sub(x, u), v)),
{
    vstd::arithmetic::mul::lemma_mul_is_distributive_add_other_way(x.d, u.n * v.d, v.n * u.d);
    vstd::arithmetic::mul::lemma_mul_is_distributive_sub_other_way(
        (x.d * u.d) * v.d, x.n * (u.d * v.d), (u.n * v.d + v.n * u.d) * x.d);
    vstd::arithmetic::mul::lemma_mul_is_distributive_add_other_way(
        (x.d * u.d) * v.d, (u.n * v.d) * x.d, (v.n * u.d) * x.d);
    vstd::arithmetic::mul::lemma_mul_is_distributive_sub_other_way(v.d, x.n * u.d, u.n * x.d);
    vstd::arithmetic::mul::lemma_mul_is_distributive_sub_other_way(
        x.d * (u.d * v.d), (x.n * u.d) * v.d - (u.n * x.d) * v.d, v.n * (x.d * u.d));
    vstd::arithmetic::mul::lemma_mul_is_distributive_sub_other_way(
        x.d * (u.d * v.d), (x.n * u.d) * v.d, (u.n * x.d) * v.d);
    assert((x.n * (u.d * v.d)) * ((x.d * u.d) * v.d) == ((x.n * u.d) * v.d) * (x.d * (u.d * v.d)))
        by (nonlinear_arith);
    assert(((u.n * v.d) * x.d) * ((x.d * u.d) * v.d) == ((u.n * x.d) * v.d) * (x.d * (u.d * v.d)))
        by (nonlinear_arith);
    assert(((v.n * u.d) * x.d) * ((x.d * u.d) * v.d) == (v.n * (x.d * u.d)) * (x.d * (u.d * v.d)))
        by (nonlinear_arith);
}

/// `(1 - k) * x` equals `x - k*x`, as rationals.
pub proof fn lemma_rv_one_minus_mul(k: RatV, x: RatV)
    ensures
        rv_eq(rv_mul(rv_sub(rv_int(1), k), x), rv_sub(x, rv_mul(k, x))),
{
    assert(((1 * k.d - k.n * 1) * x.n) * (x.d * (k.d * x.d)) == (x.n * (k.d * x.d) - (k.n * x.n)
        * x.d) * ((1 * k.d) * x.d)) by (nonlinear_arith);
}

/// `(p*x + g) - q*x` regroups to `(p - q)*x + g`, as rationals.
pub proof fn lemma_rv_muladd_sub_regroup(p: RatV, g: RatV, q: RatV, x: RatV)
    ensures
        rv_eq(
            rv_sub(rv_add(rv_mul(p, x), g), rv_mul(q, x)),
            rv_add(rv_mul(rv_sub(p, q), x), g),
        ),
{
    let ln = ((p.n * x.n) * g.d + g.n * (p.d * x.d)) * (q.d * x.d) - (q.n * x.n) * ((p.d * x.d)
        * g.d);
    let ld = ((p.d * x.d) * g.d) * (q.d * x.d);
    let rn = ((p.n * q.d - q.n * p.d) * x.n) * g.d + g.n * ((p.d * q.d) * x.d);
    let rd = ((p.d * q.d) * x.d) * g.d;
    assert(rv_sub(rv_add(rv_mul(p, x), g), rv_mul(q, x)).n == ln);
    assert(rv_sub(rv_add(rv_mul(p, x), g), rv_mul(q, x)).d == ld);
    assert(rv_add(rv_mul(rv_sub(p, q), x), g).n == rn);
    assert(rv_add(rv_mul(rv_sub(p, q), x), g).d == rd);
    vstd::arithmetic::mul::lemma_mul_is_distributive_add_other_way(
        q.d * x.d, (p.n * x.n) * g.d, g.n * (p.d * x.d));
    vstd::arithmetic::mul::lemma_mul_is_distributive_sub_other_way(
        rd, ((p.n * x.n) * g.d) * (q.d * x.d) + (g.n * (p.d * x.d)) * (q.d * x.d),
        (q.n * x.n) * ((p.d * x.d) * g.d));
    vstd::arithmetic::mul::lemma_mul_is_distributive_add_other_way(
        rd, ((p.n * x.n) * g.d) * (q.d * x.d), (g.n * (p.d * x.d)) * (q.d * x.d));
    vstd::arithmetic::mul::lemma_mul_is_distributive_sub_other_way(x.n, p.n * q.d, q.n * p.d);
    vstd::arithmetic::mul::lemma_mul_is_distributive_sub_other_way(
        g.d, (p.n * q.d) * x.n, (q.n * p.d) * x.n);
    vstd::arithmetic::mul::lemma_mul_is_distributive_add_other_way(
        ld, ((p.n * q.d) * x.n) * g.d - ((q.n * p.d) * x.n) * g.d, g.n * ((p.d * q.d) * x.d));
    vstd::arithmetic::mul::lemma_mul_is_distributive_sub_other_way(
        ld, ((p.n * q.d) * x.n) * g.d, ((q.n * p.d) * x.n) * g.d);
    let w = q.d * x.d;
    let k0 = (p.d * x.d) * g.d;
    let t1 = (p.n * x.n) * g.d;
    assert(((p.n * q.d) * x.n) * g.d == t1 * q.d) by (nonlinear_arith)
        requires
            t1 == (p.n * x.n) * g.d,
    ;
    assert(((p.d * q.d) * x.d) * g.d == k0 * q.d) by (nonlinear_arith)
        requires
            k0 == (p.d * x.d) * g.d,
    ;
    assert((t1 * w) * (k0 * q.d) == (t1 * q.d) * (k0 * w)) by (nonlinear_arith);
    let h = (p.d * x.d) * (q.d * x.d);
    vstd::arithmetic::mul::lemma_mul_is_associative(g.n, p.d * x.d, q.d * x.d);
    assert(((p.d * x.d) * g.d) * (q.d * x.d) == h * g.d) by (nonlinear_arith)
        requires
            h == (p.d * x.d) * (q.d * x.d),
    ;
    assert((g.n * h) * (((p.d * q.d) * x.d) * g.d) == (g.n * ((p.d * q.d) * x.d)) * (h * g.d))
        by (nonlinear_arith)
        requires
            h == (p.d * x.d) * (q.d * x.d),
    ;
    let t3 = q.n * x.n;
    assert(((q.n * p.d) * x.n) * g.d == t3 * (p.d * g.d)) by (nonlinear_arith)
        requires
            t3 == q.n * x.n,
    ;
    assert((t3 * k0) * (k0 * q.d) == (t3 * (p.d * g.d)) * (k0 * w)) by (nonlinear_arith)
        requires
            k0 == (p.d * x.d) * g.d,
            w == q.d * x.d,
    ;
    assert(ln * rd == rn * ld);
}

/// Multiplying a quotient back by its divisor recovers the dividend,
/// as rationals.
pub proof fn lemma_rv_mul_div_cancel(x: RatV, y: RatV)
    requires
        rv_wf(x),
        rv_wf(y),
        y.n != 0,
    ensures
        rv_eq(rv_mul(y, rv_div(x, y)), x),
{
    if y.n >= 0 {
        assert((y.n * (x.n * y.d)) * x.d == x.n * (y.d * (x.d * y.n))) by (nonlinear_arith);
    } else {
        assert((y.n * (-(x.n * y.d))) * x.d == x.n * (y.d * (-(x.d * y.n)))) by (nonlinear_arith);
    }
}

} // verus!
