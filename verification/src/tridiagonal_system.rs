//! The boundary-extended tridiagonal system and its exact solver.
//!
//! A system of size `n = m + 2` consists of the boundary equations
//! `x_0 - kappa1*x_1 = mu1` and `x_N - kappa2*x_(N-1) = mu2` (with
//! `N = n - 1`) and `m` interior rows `a_i*x_(i-1) - b_i*x_i + c_i*x_(i+1) = -d_i`,
//! the right-hand side stored pre-negated as `d_i`. The size invariant
//! `n == rows.len() + 2` is fixed at construction and used uniformly.
//!
//! `solve` is the generalized Thomas algorithm: the forward relations
//! `x_i = alpha_i*x_(i+1) + beta_i` are swept from the left boundary,
//! the right boundary equation is solved jointly with the last forward
//! relation, and back-substitution recovers the solution. Every pivot is
//! tested against exact zero; no tolerance is involved.

use vstd::prelude::*;
use crate::rat::{
    Rat, RatV, rv_wf, rv_int, rv_add, rv_sub, rv_mul, rv_div, rv_abs, rv_le, rv_lt, rv_is_zero,
};
use crate::vector::Vector;

verus! {

/// The mathematical value of one interior row.
pub struct RowV {
    pub a: RatV,
    pub b: RatV,
    pub c: RatV,
    pub d: RatV,
}

pub open spec fn rowv_wf(r: RowV) -> bool {
    rv_wf(r.a) && rv_wf(r.b) && rv_wf(r.c) && rv_wf(r.d)
}

/// The mathematical value of a whole system.
pub struct SysV {
    pub k1: RatV,
    pub k2: RatV,
    pub m1: RatV,
    pub m2: RatV,
    pub rows: Seq<RowV>,
}

pub open spec fn sysv_wf(s: SysV) -> bool {
    rv_wf(s.k1) && rv_wf(s.k2) && rv_wf(s.m1) && rv_wf(s.m2)
        && forall|i: int| 0 <= i < s.rows.len() ==> rowv_wf(#[trigger] s.rows[i])
}

/// Coefficient of the forward relation `x_i = alpha_i*x_(i+1) + beta_i`.
pub open spec fn alpha_at(s: SysV, i: nat) -> RatV
    decreases i,
{
    if i == 0 {
        s.k1
    } else {
        let r = s.rows[i - 1];
        rv_div(r.c, rv_sub(r.b, rv_mul(alpha_at(s, (i - 1) as nat), r.a)))
    }
}

/// The pivot denominator consumed by interior row `i`.
pub open spec fn denom_at(s: SysV, i: nat) -> RatV {
    rv_sub(s.rows[i as int].b, rv_mul(alpha_at(s, i), s.rows[i as int].a))
}

/// Constant term of the forward relation `x_i = alpha_i*x_(i+1) + beta_i`.
pub open spec fn beta_at(s: SysV, i: nat) -> RatV
    decreases i,
{
    if i == 0 {
        s.m1
    } else {
        let r = s.rows[i - 1];
        rv_div(rv_sub(rv_mul(beta_at(s, (i - 1) as nat), r.a), r.d), denom_at(s, (i - 1) as nat))
    }
}

/// Denominator of the joint solve of the right boundary equation with the
/// last forward relation.
pub open spec fn final_denom(s: SysV) -> RatV {
    rv_sub(rv_int(1), rv_mul(s.k2, alpha_at(s, s.rows.len())))
}

/// Every pivot of the forward sweep, and the final joint denominator, is
/// a nonzero rational.
pub open spec fn pivots_ok(s: SysV) -> bool {
    (forall|i: int| 0 <= i < s.rows.len() ==> !rv_is_zero(#[trigger] denom_at(s, i as nat)))
        && !rv_is_zero(final_denom(s))
}

/// The last solution component, from `x_N - kappa2*x_(N-1) = mu2` and
/// `x_(N-1) = alpha_last*x_N + beta_last`.
pub open spec fn x_last(s: SysV) -> RatV {
    rv_div(rv_add(s.m2, rv_mul(s.k2, beta_at(s, s.rows.len()))), final_denom(s))
}

/// The solution components, defined by back-substitution.
pub open spec fn x_at(s: SysV, j: nat) -> RatV
    decreases s.rows.len() + 1 - j,
{
    if j >= s.rows.len() + 1 {
        x_last(s)
    } else {
        rv_add(rv_mul(alpha_at(s, j), x_at(s, (j + 1) as nat)), beta_at(s, j))
    }
}

/// The first sufficient stability condition: `|kappa1| <= 1`, `|kappa2| < 1`
/// and non-strict diagonal dominance `|b| >= |a| + |c|` on every row.
pub open spec fn t1_holds(s: SysV) -> bool {
    rv_le(rv_abs(s.k1), rv_int(1)) && rv_lt(rv_abs(s.k2), rv_int(1)) && forall|i: int|
        0 <= i < s.rows.len() ==> rv_le(
            rv_add(rv_abs(#[trigger] s.rows[i].a), rv_abs(s.rows[i].c)),
            rv_abs(s.rows[i].b),
        )
}

/// The second sufficient condition: `|kappa1| <= 1`, `|kappa2| <= 1` and
/// strict, non-degenerate dominance `a != 0`, `c != 0`, `|b| > |a| + |c|`.
pub open spec fn t2_holds(s: SysV) -> bool {
    rv_le(rv_abs(s.k1), rv_int(1)) && rv_le(rv_abs(s.k2), rv_int(1)) && forall|i: int|
        0 <= i < s.rows.len() ==> (!rv_is_zero(#[trigger] s.rows[i].a) && !rv_is_zero(
            s.rows[i].c,
        ) && rv_lt(rv_add(rv_abs(s.rows[i].a), rv_abs(s.rows[i].c)), rv_abs(s.rows[i].b)))
}

/// Entry `j` of the assembled right-hand side `(mu1, d_1..d_m, mu2)`.
pub open spec fn right_at(s: SysV, j: int) -> RatV {
    if j == 0 {
        s.m1
    } else if j <= s.rows.len() {
        s.rows[j - 1].d
    } else {
        s.m2
    }
}

/// Entry `j` of the system applied as a linear operator to a candidate `v`.
pub open spec fn apply_at(s: SysV, v: Seq<RatV>, j: int) -> RatV {
    if j == 0 {
        rv_sub(v[0], rv_mul(s.k1, v[1]))
    } else if j <= s.rows.len() {
        rv_add(
            rv_sub(rv_mul(s.rows[j - 1].a, v[j - 1]), rv_mul(s.rows[j - 1].b, v[j])),
            rv_mul(s.rows[j - 1].c, v[j + 1]),
        )
    } else {
        rv_sub(v[j], rv_mul(s.k2, v[j - 1]))
    }
}

/// Returned by `solve` when a pivot denominator is exactly zero.
#[derive(Clone, Copy, Debug, PartialEq, Eq, Structural)]
pub struct UnsolvableError;

/// One interior row `a*x_(i-1) - b*x_i + c*x_(i+1) = -d`.
pub struct Row {
    a: Rat,
    b: Rat,
    c: Rat,
    d: Rat,
}

impl View for Row {
    type V = RowV;

    closed spec fn view(&self) -> RowV {
        RowV { a: self.a@, b: self.b@, c: self.c@, d: self.d@ }
    }
}

impl Row {
    pub fn new(a: Rat, b: Rat, c: Rat, d: Rat) -> (r: Row)
        ensures
            r@ == (RowV { a: a@, b: b@, c: c@, d: d@ }),
    {
        Row { a, b, c, d }
    }
}

/// An immutable boundary-extended tridiagonal system.
pub struct TridiagonalSystem {
    n: usize,
    kappa1: Rat,
    kappa2: Rat,
    mu1: Rat,
    mu2: Rat,
    rows: Vec<Row>,
}

impl View for TridiagonalSystem {
    type V = SysV;

    closed spec fn view(&self) -> SysV {
        SysV {
            k1: self.kappa1@,
            k2: self.kappa2@,
            m1: self.mu1@,
            m2: self.mu2@,
            rows: self.rows@.map_values(|r: Row| r@),
        }
    }
}

impl TridiagonalSystem {
    /// The size `n` recorded at construction.
    pub closed spec fn spec_n(&self) -> usize {
        self.n
    }

    pub open spec fn wf(&self) -> bool {
        sysv_wf(self@) && self.spec_n() == self@.rows.len() + 2
    }

    /// Builds the immutable system; the size invariant `n == rows.len() + 2`
    /// is established here once and for all.
    pub fn new(kappa1: Rat, kappa2: Rat, mu1: Rat, mu2: Rat, rows: Vec<Row>) -> (r:
        TridiagonalSystem)
        requires
            kappa1.wf(),
            kappa2.wf(),
            mu1.wf(),
            mu2.wf(),
            forall|i: int| 0 <= i < rows@.len() ==> rowv_wf((#[trigger] rows@[i])@),
            rows@.len() + 2 <= usize::MAX,
        ensures
            r.wf(),
            r@ == (SysV {
                k1: kappa1@,
                k2: kappa2@,
                m1: mu1@,
                m2: mu2@,
                rows: rows@.map_values(|x: Row| x@),
            }),
            r.spec_n() == rows@.len() + 2,
    {
        let n = rows.len() + 2;
        TridiagonalSystem { n, kappa1, kappa2, mu1, mu2, rows }
    }

    /// The total system size `n = rows.len() + 2`.
    pub fn size(&self) -> (r: usize)
        requires
            self.wf(),
        ensures
            r == self@.rows.len() + 2,
    {
        self.n
    }

    /// Evaluates the first stability condition; purely informational.
    #[allow(non_snake_case)]
    pub fn checkT1(&self) -> (r: bool)
        requires
            self.wf(),
        ensures
            r == t1_holds(self@),
    {
        let one = Rat::one();
        let a1 = self.kappa1.abs();
        let a2 = self.kappa2.abs();
        if one.lt(&a1) {
            return false;
        }
        if !a2.lt(&one) {
            return false;
        }
        let mut i: usize = 0;
        while i < self.rows.len()
            invariant
                self.wf(),
                i <= self@.rows.len(),
                rv_le(rv_abs(self@.k1), rv_int(1)),
                rv_lt(rv_abs(self@.k2), rv_int(1)),
                forall|t: int| 0 <= t < i ==> rv_le(
                    rv_add(rv_abs(#[trigger] self@.rows[t].a), rv_abs(self@.rows[t].c)),
                    rv_abs(self@.rows[t].b),
                ),
            decreases self@.rows.len() - i,
        {
            proof {
                assert(self.rows@[i as int]@ == self@.rows[i as int]);
            }
            let row = &self.rows[i];
            let lhs = row.a.abs().add(&row.c.abs());
            let rhs = row.b.abs();
            if !lhs.le(&rhs) {
                return false;
            }
            i = i + 1;
        }
        true
    }

    /// Evaluates the second stability condition; purely informational.
    #[allow(non_snake_case)]
    pub fn checkT2(&self) -> (r: bool)
        requires
            self.wf(),
        ensures
            r == t2_holds(self@),
    {
        let one = Rat::one();
        let a1 = self.kappa1.abs();
        let a2 = self.kappa2.abs();
        if one.lt(&a1) {
            return false;
        }
        if one.lt(&a2) {
            return false;
        }
        let mut i: usize = 0;
        while i < self.rows.len()
            invariant
                self.wf(),
                i <= self@.rows.len(),
                rv_le(rv_abs(self@.k1), rv_int(1)),
                rv_le(rv_abs(self@.k2), rv_int(1)),
                forall|t: int| 0 <= t < i ==> (!rv_is_zero(#[trigger] self@.rows[t].a)
                    && !rv_is_zero(self@.rows[t].c) && rv_lt(
                    rv_add(rv_abs(self@.rows[t].a), rv_abs(self@.rows[t].c)),
                    rv_abs(self@.rows[t].b),
                )),
            decreases self@.rows.len() - i,
        {
            proof {
                assert(self.rows@[i as int]@ == self@.rows[i as int]);
            }
            let row = &self.rows[i];
            if row.a.is_zero() || row.c.is_zero() {
                return false;
            }
            let lhs = row.a.abs().add(&row.c.abs());
            let rhs = row.b.abs();
            if !lhs.lt(&rhs) {
                return false;
            }
            i = i + 1;
        }
        true
    }

    /// Assembles the right-hand side `(mu1, d_1..d_m, mu2)` as a fresh vector.
    #[allow(non_snake_case)]
    pub fn getRight(&self) -> (r: Vector)
        requires
            self.wf(),
        ensures
            r.wf(),
            r@.len() == self@.rows.len() + 2,
            forall|j: int| 0 <= j < r@.len() ==> r@[j] == right_at(self@, j),
    {
        let mut values: Vec<Rat> = Vec::new();
        values.push(self.mu1.dup());
        let mut i: usize = 0;
        while i < self.rows.len()
            invariant
                self.wf(),
                i <= self@.rows.len(),
                values@.len() == i + 1,
                values@[0]@ == self@.m1,
                forall|t: int| 1 <= t <= i ==> (#[trigger] values@[t])@ == self@.rows[t - 1].d,
            decreases self@.rows.len() - i,
        {
            proof {
                assert(self.rows@[i as int]@ == self@.rows[i as int]);
            }
            values.push(self.rows[i].d.dup());
            i = i + 1;
        }
        values.push(self.mu2.dup());
        let r = Vector::from(values);
        proof {
            assert forall|j: int| 0 <= j < r@.len() implies r@[j] == right_at(self@, j) by {
                assert(r@[j] == values@[j]@);
            }
        }
        r
    }

    /// Applies the system as a linear operator to a candidate vector,
    /// producing a freshly allocated result.
    pub fn apply(&self, v: &Vector) -> (r: Vector)
        requires
            self.wf(),
            v.wf(),
            v@.len() == self@.rows.len() + 2,
        ensures
            r.wf(),
            r@.len() == v@.len(),
            forall|j: int| 0 <= j < r@.len() ==> r@[j] == apply_at(self@, v@, j),
    {
        let mut values: Vec<Rat> = Vec::new();
        values.push(v.get(0).sub(&self.kappa1.mul(v.get(1))));
        let mut i: usize = 0;
        while i < self.rows.len()
            invariant
                self.wf(),
                v.wf(),
                v@.len() == self@.rows.len() + 2,
                i <= self@.rows.len(),
                values@.len() == i + 1,
                values@[0]@ == rv_sub(v@[0], rv_mul(self@.k1, v@[1])),
                forall|t: int| 1 <= t <= i ==> (#[trigger] values@[t])@ == apply_at(self@, v@, t),
                forall|t: int| 0 <= t <= i ==> rv_wf((#[trigger] values@[t])@),
            decreases self@.rows.len() - i,
        {
            proof {
                assert(self.rows@[i as int]@ == self@.rows[i as int]);
            }
            let row = &self.rows[i];
            let term = row.a.mul(v.get(i)).sub(&row.b.mul(v.get(i + 1))).add(
                &row.c.mul(v.get(i + 2)),
            );
            values.push(term);
            i = i + 1;
        }
        let last = v.len() - 1;
        values.push(v.get(last).sub(&self.kappa2.mul(v.get(last - 1))));
        let r = Vector::from(values);
        proof {
            assert forall|j: int| 0 <= j < r@.len() implies r@[j] == apply_at(self@, v@, j)
                && rv_wf(r@[j]) by {
                assert(r@[j] == values@[j]@);
            }
        }
        r
    }

    /// The generalized Thomas algorithm over exact rationals. Succeeds if
    /// and only if every pivot is a nonzero rational, and then returns
    /// exactly the back-substituted solution.
    pub fn solve(&self) -> (r: Result<Vector, UnsolvableError>)
        requires
            self.wf(),
        ensures
            r is Ok <==> pivots_ok(self@),
            r matches Ok(v) ==> v.wf() && v@.len() == self@.rows.len() + 2 && forall|j: int|
                0 <= j < v@.len() ==> v@[j] == x_at(self@, j as nat),
    {
        let m = self.rows.len();
        let mut alpha: Vec<Rat> = Vec::new();
        let mut beta: Vec<Rat> = Vec::new();
        alpha.push(self.kappa1.dup());
        beta.push(self.mu1.dup());
        let mut i: usize = 0;
        while i < m
            invariant
                self.wf(),
                m == self@.rows.len(),
                i <= m,
                alpha@.len() == i + 1,
                beta@.len() == i + 1,
                forall|t: int| 0 <= t <= i ==> (#[trigger] alpha@[t])@ == alpha_at(
                    self@,
                    t as nat,
                ) && rv_wf(alpha@[t]@),
                forall|t: int| 0 <= t <= i ==> (#[trigger] beta@[t])@ == beta_at(self@, t as nat)
                    && rv_wf(beta@[t]@),
                forall|t: int| 0 <= t < i ==> !rv_is_zero(#[trigger] denom_at(self@, t as nat)),
            decreases m - i,
        {
            proof {
                assert(self.rows@[i as int]@ == self@.rows[i as int]);
            }
            let row = &self.rows[i];
            let denom = row.b.sub(&alpha[i].mul(&row.a));
            proof {
                assert(denom@ == denom_at(self@, i as nat));
            }
            if denom.is_zero() {
                return Err(UnsolvableError);
            }
            let nalpha = row.c.div(&denom);
            let nbeta = beta[i].mul(&row.a).sub(&row.d).div(&denom);
            proof {
                assert(nalpha@ == alpha_at(self@, (i + 1) as nat));
                assert(nbeta@ == beta_at(self@, (i + 1) as nat));
            }
            alpha.push(nalpha);
            beta.push(nbeta);
            i = i + 1;
        }
        let one = Rat::one();
        let fd = one.sub(&self.kappa2.mul(&alpha[m]));
        proof {
            assert(fd@ == final_denom(self@));
        }
        if fd.is_zero() {
            return Err(UnsolvableError);
        }
        let xlast = self.mu2.add(&self.kappa2.mul(&beta[m])).div(&fd);
        proof {
            assert(xlast@ == x_last(self@));
            assert(pivots_ok(self@));
        }
        // back-substitution, computed in descending index order
        let mut rev: Vec<Rat> = Vec::new();
        rev.push(xlast);
        let mut k: usize = 0;
        while k <= m
            invariant
                self.wf(),
                m == self@.rows.len(),
                k <= m + 1,
                alpha@.len() == m + 1,
                beta@.len() == m + 1,
                forall|t: int| 0 <= t <= m ==> (#[trigger] alpha@[t])@ == alpha_at(
                    self@,
                    t as nat,
                ) && rv_wf(alpha@[t]@),
                forall|t: int| 0 <= t <= m ==> (#[trigger] beta@[t])@ == beta_at(self@, t as nat)
                    && rv_wf(beta@[t]@),
                rev@.len() == k + 1,
                forall|t: int| 0 <= t <= k ==> (#[trigger] rev@[t])@ == x_at(
                    self@,
                    (m + 1 - t) as nat,
                ) && rv_wf(rev@[t]@),
            decreases m + 1 - k,
        {
            let j = m - k;
            let xnext = &rev[rev.len() - 1];
            let x = alpha[j].mul(xnext).add(&beta[j]);
            proof {
                assert(x@ == x_at(self@, j as nat));
            }
            rev.push(x);
            k = k + 1;
        }
        // reverse into ascending order
        let mut values: Vec<Rat> = Vec::new();
        while rev.len() > 0
            invariant
                m == self@.rows.len(),
                values@.len() + rev@.len() == m + 2,
                forall|t: int| 0 <= t < rev@.len() ==> (#[trigger] rev@[t])@ == x_at(
                    self@,
                    (m + 1 - t) as nat,
                ) && rv_wf(rev@[t]@),
                forall|q: int| 0 <= q < values@.len() ==> (#[trigger] values@[q])@ == x_at(
                    self@,
                    q as nat,
                ) && rv_wf(values@[q]@),
            decreases rev@.len(),
        {
            let x = rev.pop().unwrap();
            values.push(x);
        }
        let v = Vector::from(values);
        Ok(v)
    }
}

} // verus!
