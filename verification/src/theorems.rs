//! The two theorems of the solver, proved over the spec-level model.
//!
//! `lemma_solution_is_exact`: whenever the forward sweep succeeds, the
//! back-substituted solution reproduces the right-hand side exactly —
//! the residual of an exact-arithmetic solve is zero.
//!
//! `lemma_dominance_gives_pivots`: strict diagonal dominance of the rows
//! together with the boundary bounds of the first stability condition
//! guarantees that every pivot of the sweep is nonzero, so `solve`
//! cannot fail.

use vstd::prelude::*;
use crate::rat::{
    RatV, rv_wf, rv_int, rv_add, rv_sub, rv_mul, rv_div, rv_abs, rv_neg, rv_eq, rv_le, rv_lt,
    rv_is_zero, lemma_rv_add_wf, lemma_rv_sub_wf, lemma_rv_mul_wf, lemma_rv_div_wf,
    lemma_rv_mul_div_cancel, lemma_rv_eq_trans, lemma_rv_add_cong2, lemma_rv_sub_cong2,
    lemma_rv_mul_cong2, lemma_rv_neg_cong, lemma_rv_mul_add_dist, lemma_rv_mul_assoc,
    lemma_rv_add_sub_cancel, lemma_rv_sub_add_regroup, lemma_rv_one_minus_mul,
    lemma_rv_muladd_sub_regroup,
};
use crate::tridiagonal_system::{
    SysV, sysv_wf, alpha_at, beta_at, denom_at, final_denom, x_last, x_at, t1_holds, pivots_ok,
    right_at, apply_at,
};

verus! {

/// The solution of the system as one sequence of rationals.
pub open spec fn solution_of(s: SysV) -> Seq<RatV> {
    Seq::new((s.rows.len() + 2) as nat, |j: int| x_at(s, j as nat))
}

/// Strict diagonal dominance `|b| > |a| + |c|` on every interior row.
pub open spec fn strict_rows(s: SysV) -> bool {
    forall|i: int| 0 <= i < s.rows.len() ==> rv_lt(
        rv_add(rv_abs(#[trigger] s.rows[i].a), rv_abs(s.rows[i].c)),
        rv_abs(s.rows[i].b),
    )
}

/// The sweep coefficients stay well-formed as long as the pivots consumed
/// so far are nonzero.
pub proof fn lemma_sweep_wf(s: SysV, i: nat)
    requires
        sysv_wf(s),
        i <= s.rows.len(),
        forall|t: int| 0 <= t < i ==> !rv_is_zero(#[trigger] denom_at(s, t as nat)),
    ensures
        rv_wf(alpha_at(s, i)),
        rv_wf(beta_at(s, i)),
    decreases i,
{
    if i > 0 {
        let t = (i - 1) as nat;
        lemma_sweep_wf(s, t);
        let r = s.rows[i - 1];
        let d = denom_at(s, t);
        lemma_rv_mul_wf(alpha_at(s, t), r.a);
        lemma_rv_sub_wf(r.b, rv_mul(alpha_at(s, t), r.a));
        assert(!rv_is_zero(d));
        lemma_rv_div_wf(r.c, d);
        lemma_rv_mul_wf(beta_at(s, t), r.a);
        lemma_rv_sub_wf(rv_mul(beta_at(s, t), r.a), r.d);
        lemma_rv_div_wf(rv_sub(rv_mul(beta_at(s, t), r.a), r.d), d);
    }
}

/// Every component of the solution is well-formed once all pivots are
/// nonzero.
pub proof fn lemma_x_wf(s: SysV, j: nat)
    requires
        sysv_wf(s),
        pivots_ok(s),
    ensures
        rv_wf(x_at(s, j)),
    decreases s.rows.len() + 1 - j,
{
    let m = s.rows.len();
    if j >= m + 1 {
        lemma_sweep_wf(s, m);
        lemma_rv_mul_wf(s.k2, beta_at(s, m));
        lemma_rv_add_wf(s.m2, rv_mul(s.k2, beta_at(s, m)));
        lemma_rv_mul_wf(s.k2, alpha_at(s, m));
        lemma_rv_sub_wf(rv_int(1), rv_mul(s.k2, alpha_at(s, m)));
        lemma_rv_div_wf(rv_add(s.m2, rv_mul(s.k2, beta_at(s, m))), final_denom(s));
    } else {
        lemma_x_wf(s, (j + 1) as nat);
        lemma_sweep_wf(s, j);
        lemma_rv_mul_wf(alpha_at(s, j), x_at(s, (j + 1) as nat));
        lemma_rv_add_wf(rv_mul(alpha_at(s, j), x_at(s, (j + 1) as nat)), beta_at(s, j));
    }
}

/// The first entry of the operator image of the solution equals `mu1`:
/// the forward relation at index zero is the left boundary equation.
proof fn lemma_first_row(s: SysV)
    requires
        sysv_wf(s),
        pivots_ok(s),
        s.rows.len() + 2 <= usize::MAX,
    ensures
        rv_eq(apply_at(s, solution_of(s), 0), right_at(s, 0)),
{
    let x0 = x_at(s, 0);
    let x1 = x_at(s, 1);
    lemma_x_wf(s, 1);
    assert(x0 == rv_add(rv_mul(s.k1, x1), s.m1));
    let k1n = s.k1.n;
    let k1d = s.k1.d;
    let m1n = s.m1.n;
    let m1d = s.m1.d;
    let x1n = x1.n;
    let x1d = x1.d;
    let x0n = x0.n;
    let x0d = x0.d;
    let en = x0n * (k1d * x1d) - (k1n * x1n) * x0d;
    let ed = x0d * (k1d * x1d);
    assert(en * m1d == m1n * ed) by (nonlinear_arith)
        requires
            en == x0n * (k1d * x1d) - (k1n * x1n) * x0d,
            ed == x0d * (k1d * x1d),
            x0n == (k1n * x1n) * m1d + m1n * (k1d * x1d),
            x0d == (k1d * x1d) * m1d,
    ;
    assert(solution_of(s)[0] == x0);
    assert(solution_of(s)[1] == x1);
}

/// The last entry of the operator image of the solution equals `mu2`:
/// the joint solve of the right boundary with the last forward relation.
proof fn lemma_last_row(s: SysV)
    requires
        sysv_wf(s),
        pivots_ok(s),
        s.rows.len() + 2 <= usize::MAX,
    ensures
        rv_eq(
            apply_at(s, solution_of(s), s.rows.len() + 1 as int),
            right_at(s, s.rows.len() + 1 as int),
        ),
{
    let m = s.rows.len();
    let al = alpha_at(s, m);
    let be = beta_at(s, m);
    let fd = final_denom(s);
    let kk = rv_mul(s.k2, al);
    let k2be = rv_mul(s.k2, be);
    let num = rv_add(s.m2, k2be);
    let xn = x_at(s, (m + 1) as nat);
    let xm = x_at(s, m);
    lemma_sweep_wf(s, m);
    lemma_x_wf(s, m);
    lemma_x_wf(s, (m + 1) as nat);
    assert(xn == x_last(s));
    assert(xn == rv_div(num, fd));
    assert(xm == rv_add(rv_mul(al, xn), be));
    assert(fd == rv_sub(rv_int(1), kk));
    assert(!rv_is_zero(fd));
    lemma_rv_mul_wf(s.k2, al);
    lemma_rv_mul_wf(s.k2, be);
    lemma_rv_add_wf(s.m2, k2be);
    lemma_rv_sub_wf(rv_int(1), kk);
    lemma_rv_mul_wf(kk, xn);
    lemma_rv_mul_wf(fd, xn);
    lemma_rv_add_wf(rv_mul(kk, xn), k2be);
    lemma_rv_sub_wf(xn, rv_add(rv_mul(kk, xn), k2be));
    lemma_rv_sub_wf(xn, rv_mul(kk, xn));
    lemma_rv_sub_wf(rv_sub(xn, rv_mul(kk, xn)), k2be);
    lemma_rv_sub_wf(num, k2be);
    let ee = rv_sub(xn, rv_mul(s.k2, xm));
    assert(apply_at(s, solution_of(s), m + 1 as int) == ee);
    lemma_rv_mul_add_dist(s.k2, rv_mul(al, xn), be);
    lemma_rv_mul_assoc(s.k2, al, xn);
    let t_right = rv_add(rv_mul(kk, xn), k2be);
    assert(rv_eq(rv_mul(s.k2, xm), t_right));
    lemma_rv_sub_cong2(xn, xn, rv_mul(s.k2, xm), t_right);
    lemma_rv_sub_add_regroup(xn, rv_mul(kk, xn), k2be);
    lemma_rv_one_minus_mul(kk, xn);
    lemma_rv_mul_div_cancel(num, fd);
    lemma_rv_eq_trans(rv_sub(xn, rv_mul(kk, xn)), rv_mul(fd, xn), num);
    lemma_rv_sub_cong2(rv_sub(xn, rv_mul(kk, xn)), num, k2be, k2be);
    lemma_rv_add_sub_cancel(s.m2, k2be);
    lemma_rv_eq_trans(ee, rv_sub(xn, t_right), rv_sub(rv_sub(xn, rv_mul(kk, xn)), k2be));
    lemma_rv_eq_trans(ee, rv_sub(rv_sub(xn, rv_mul(kk, xn)), k2be), rv_sub(num, k2be));
    lemma_rv_eq_trans(ee, rv_sub(num, k2be), s.m2);
    assert(solution_of(s)[m + 1 as int] == xn);
    assert(solution_of(s)[m as int] == xm);
}

/// The interior row `i` of the operator image of the solution equals its
/// stored right-hand side `d_i`.
proof fn lemma_interior_row(s: SysV, i: int)
    requires
        sysv_wf(s),
        pivots_ok(s),
        s.rows.len() + 2 <= usize::MAX,
        0 <= i < s.rows.len(),
    ensures
        rv_eq(apply_at(s, solution_of(s), i + 1), right_at(s, i + 1)),
{
    let r = s.rows[i];
    let al = alpha_at(s, i as nat);
    let be = beta_at(s, i as nat);
    let dd = denom_at(s, i as nat);
    let al2 = alpha_at(s, (i + 1) as nat);
    let be2 = beta_at(s, (i + 1) as nat);
    let x0 = x_at(s, i as nat);
    let x1 = x_at(s, (i + 1) as nat);
    let x2 = x_at(s, (i + 2) as nat);
    lemma_sweep_wf(s, i as nat);
    lemma_sweep_wf(s, (i + 1) as nat);
    lemma_x_wf(s, i as nat);
    lemma_x_wf(s, (i + 1) as nat);
    lemma_x_wf(s, (i + 2) as nat);
    assert(x0 == rv_add(rv_mul(al, x1), be));
    assert(x1 == rv_add(rv_mul(al2, x2), be2));
    assert(al2 == rv_div(r.c, dd));
    assert(be2 == rv_div(rv_sub(rv_mul(be, r.a), r.d), dd));
    assert(dd == rv_sub(r.b, rv_mul(al, r.a)));
    assert(!rv_is_zero(dd));
    // named pieces of the chain
    let p = rv_mul(r.a, al);
    let g = rv_mul(r.a, be);
    let h = rv_mul(r.c, x2);
    let bx1 = rv_mul(r.b, x1);
    let sba = rv_sub(rv_mul(be, r.a), r.d);
    let cbad = rv_add(h, sba);
    let z = rv_neg(cbad);
    // well-formedness of every intermediate
    lemma_rv_mul_wf(r.a, al);
    lemma_rv_mul_wf(r.a, be);
    lemma_rv_mul_wf(r.c, x2);
    lemma_rv_mul_wf(r.b, x1);
    lemma_rv_mul_wf(al, r.a);
    lemma_rv_sub_wf(r.b, rv_mul(al, r.a));
    lemma_rv_mul_wf(be, r.a);
    lemma_rv_sub_wf(rv_mul(be, r.a), r.d);
    lemma_rv_add_wf(h, sba);
    lemma_rv_mul_wf(r.a, x0);
    lemma_rv_mul_wf(p, x1);
    lemma_rv_add_wf(rv_mul(p, x1), g);
    lemma_rv_sub_wf(rv_add(rv_mul(p, x1), g), bx1);
    lemma_rv_sub_wf(p, r.b);
    lemma_rv_mul_wf(rv_sub(p, r.b), x1);
    lemma_rv_add_wf(rv_mul(rv_sub(p, r.b), x1), g);
    lemma_rv_mul_wf(dd, x1);
    lemma_rv_mul_wf(dd, al2);
    lemma_rv_mul_wf(rv_mul(dd, al2), x2);
    lemma_rv_mul_wf(dd, be2);
    lemma_rv_add_wf(rv_mul(rv_mul(dd, al2), x2), rv_mul(dd, be2));
    lemma_rv_add_wf(z, g);
    lemma_rv_add_wf(rv_add(z, g), h);
    lemma_rv_sub_wf(rv_mul(r.a, x0), bx1);
    lemma_rv_add_wf(rv_sub(rv_mul(r.a, x0), bx1), h);
    lemma_rv_add_wf(rv_mul(rv_neg(dd), x1), g);
    lemma_rv_add_wf(rv_add(rv_mul(rv_neg(dd), x1), g), h);
    // the operator entry
    let ee = rv_add(rv_sub(rv_mul(r.a, x0), bx1), h);
    assert(apply_at(s, solution_of(s), i + 1) == ee);
    // step 1: a*x0 = (a*al)*x1 + a*be, as rationals
    lemma_rv_mul_add_dist(r.a, rv_mul(al, x1), be);
    lemma_rv_mul_assoc(r.a, al, x1);
    let w1 = rv_add(rv_mul(p, x1), g);
    assert(rv_eq(rv_mul(r.a, x0), w1));
    lemma_rv_sub_cong2(rv_mul(r.a, x0), w1, bx1, bx1);
    lemma_rv_add_cong2(rv_sub(rv_mul(r.a, x0), bx1), rv_sub(w1, bx1), h, h);
    // step 2: regroup and recognize the pivot: p - b == -dd exactly
    lemma_rv_muladd_sub_regroup(p, g, r.b, x1);
    assert((r.a.n * al.n) * r.b.d == (al.n * r.a.n) * r.b.d) by (nonlinear_arith);
    assert(r.a.d * al.d == al.d * r.a.d) by (nonlinear_arith);
    assert((r.a.d * al.d) * r.b.d == r.b.d * (al.d * r.a.d)) by (nonlinear_arith);
    assert(rv_sub(p, r.b) == rv_neg(dd));
    let m_core = rv_add(rv_mul(rv_neg(dd), x1), g);
    lemma_rv_add_cong2(rv_sub(w1, bx1), m_core, h, h);
    lemma_rv_sub_wf(w1, bx1);
    lemma_rv_add_wf(rv_sub(w1, bx1), h);
    lemma_rv_eq_trans(ee, rv_add(rv_sub(w1, bx1), h), rv_add(m_core, h));
    // step 3: dd*x1 equals c*x2 + (be*a - d), by the two cancellations
    lemma_rv_mul_add_dist(dd, rv_mul(al2, x2), be2);
    lemma_rv_mul_assoc(dd, al2, x2);
    lemma_rv_mul_div_cancel(r.c, dd);
    assert(rv_eq(rv_mul(dd, al2), r.c));
    lemma_rv_mul_cong2(rv_mul(dd, al2), r.c, x2, x2);
    lemma_rv_mul_div_cancel(sba, dd);
    assert(rv_eq(rv_mul(dd, be2), sba));
    lemma_rv_add_cong2(rv_mul(rv_mul(dd, al2), x2), h, rv_mul(dd, be2), sba);
    lemma_rv_eq_trans(
        rv_mul(dd, x1),
        rv_add(rv_mul(rv_mul(dd, al2), x2), rv_mul(dd, be2)),
        cbad,
    );
    lemma_rv_neg_cong(rv_mul(dd, x1), cbad);
    assert((-dd.n) * x1.n == -(dd.n * x1.n)) by (nonlinear_arith);
    assert(rv_mul(rv_neg(dd), x1) == rv_neg(rv_mul(dd, x1)));
    // step 4: replace the core and collect
    lemma_rv_add_cong2(rv_mul(rv_neg(dd), x1), z, g, g);
    lemma_rv_add_cong2(rv_add(rv_mul(rv_neg(dd), x1), g), rv_add(z, g), h, h);
    lemma_rv_eq_trans(ee, rv_add(m_core, h), rv_add(rv_add(z, g), h));
    lemma_final_collect(r.a, be, r.d, h, z, g, sba, cbad);
    lemma_rv_eq_trans(ee, rv_add(rv_add(z, g), h), r.d);
    assert(solution_of(s)[i] == x0);
    assert(solution_of(s)[i + 1] == x1);
    assert(solution_of(s)[i + 2] == x2);
}

/// `(-(h + (be*a - d)) + a*be) + h` collapses to `d`, as rationals.
proof fn lemma_final_collect(
    a: RatV,
    be: RatV,
    d: RatV,
    h: RatV,
    z: RatV,
    g: RatV,
    sba: RatV,
    cbad: RatV,
)
    requires
        rv_wf(a),
        rv_wf(be),
        rv_wf(d),
        rv_wf(h),
        sba == rv_sub(rv_mul(be, a), d),
        cbad == rv_add(h, sba),
        z == rv_neg(cbad),
        g == rv_mul(a, be),
    ensures
        rv_eq(rv_add(rv_add(z, g), h), d),
{
    let zn = z.n;
    let zd = z.d;
    let gn = g.n;
    let gd = g.d;
    let hn = h.n;
    let hd = h.d;
    let dn = d.n;
    let ddd = d.d;
    let sn = sba.n;
    let sd = sba.d;
    assert(zn == -(hn * sd + sn * hd));
    assert(zd == hd * sd);
    assert(sn == (be.n * a.n) * ddd - dn * (be.d * a.d));
    assert(sd == (be.d * a.d) * ddd);
    assert(gn == a.n * be.n);
    assert(gd == a.d * be.d);
    let en = (zn * gd + gn * zd) * hd + hn * (zd * gd);
    let ed = (zd * gd) * hd;
    assert(rv_add(rv_add(z, g), h).n == en);
    assert(rv_add(rv_add(z, g), h).d == ed);
    let q = be.d * a.d;
    let q2 = be.n * a.n;
    assert(q > 0) by (nonlinear_arith)
        requires
            q == be.d * a.d,
            be.d > 0,
            a.d > 0,
    ;
    let u1 = hn * (q * ddd);
    let u2 = (q2 * ddd) * hd;
    let u3 = (dn * q) * hd;
    vstd::arithmetic::mul::lemma_mul_is_distributive_sub_other_way(hd, q2 * ddd, dn * q);
    assert(sn * hd == u2 - u3);
    assert(zn == -(u1 + (u2 - u3)));
    vstd::arithmetic::mul::lemma_mul_unary_negation(u1 + (u2 - u3), q);
    vstd::arithmetic::mul::lemma_mul_is_distributive_add_other_way(q, u1, u2 - u3);
    vstd::arithmetic::mul::lemma_mul_is_distributive_sub_other_way(q, u2, u3);
    assert(zn * gd == -(u1 * q + (u2 * q - u3 * q)));
    assert(u2 * q == q2 * (hd * (q * ddd))) by (nonlinear_arith)
        requires
            u2 == (q2 * ddd) * hd,
    ;
    assert(gn * zd == q2 * (hd * (q * ddd)));
    assert(u3 * q == (dn * (q * q)) * hd) by (nonlinear_arith)
        requires
            u3 == (dn * q) * hd,
    ;
    assert(u1 * q == hn * ((q * q) * ddd)) by (nonlinear_arith)
        requires
            u1 == hn * (q * ddd),
    ;
    assert(zn * gd + gn * zd == (dn * (q * q)) * hd - hn * ((q * q) * ddd));
    vstd::arithmetic::mul::lemma_mul_is_distributive_sub_other_way(
        hd, (dn * (q * q)) * hd, hn * ((q * q) * ddd));
    assert(en == ((dn * (q * q)) * hd) * hd - (hn * ((q * q) * ddd)) * hd + hn * ((hd * (q * ddd))
        * q));
    assert(hn * ((hd * (q * ddd)) * q) == (hn * ((q * q) * ddd)) * hd) by (nonlinear_arith);
    assert(en == ((dn * (q * q)) * hd) * hd);
    assert(ed == ((hd * (q * ddd)) * q) * hd);
    assert((((dn * (q * q)) * hd) * hd) * ddd == dn * (((hd * (q * ddd)) * q) * hd))
        by (nonlinear_arith);
    assert(en * ddd == dn * ed);
}

/// For every successfully solved system the operator image of the
/// solution equals the assembled right-hand side, entry by entry, as
/// rationals: the residual of an exact solve is exactly zero.
pub proof fn lemma_solution_is_exact(s: SysV)
    requires
        sysv_wf(s),
        pivots_ok(s),
        s.rows.len() + 2 <= usize::MAX,
    ensures
        forall|j: int| 0 <= j < s.rows.len() + 2 ==> rv_eq(
            #[trigger] apply_at(s, solution_of(s), j),
            right_at(s, j),
        ),
{
    assert forall|j: int| 0 <= j < s.rows.len() + 2 implies rv_eq(
        #[trigger] apply_at(s, solution_of(s), j),
        right_at(s, j),
    ) by {
        if j == 0 {
            lemma_first_row(s);
        } else if j <= s.rows.len() {
            lemma_interior_row(s, j - 1);
        } else {
            lemma_last_row(s);
        }
    }
}

/// A chain `x <= y < z` over well-formed rationals is strict.
proof fn lemma_rv_le_lt_strict(x: RatV, y: RatV, z: RatV)
    by (nonlinear_arith)
    requires
        rv_wf(x),
        rv_wf(y),
        rv_wf(z),
        rv_le(x, y),
        rv_lt(y, z),
    ensures
        rv_lt(x, z),
{
}

/// Boundary coefficients bounded by one half in absolute value, together
/// with non-strict dominance `|b| >= |a| + |c|` on every row, establish
/// the first stability condition.
pub proof fn lemma_half_bounds_give_t1(s: SysV)
    requires
        sysv_wf(s),
        rv_le(rv_abs(s.k1), (RatV { n: 1, d: 2 })),
        rv_le(rv_abs(s.k2), (RatV { n: 1, d: 2 })),
        forall|i: int| 0 <= i < s.rows.len() ==> rv_le(
            rv_add(rv_abs(#[trigger] s.rows[i].a), rv_abs(s.rows[i].c)),
            rv_abs(s.rows[i].b),
        ),
    ensures
        t1_holds(s),
{
    let half = RatV { n: 1, d: 2 };
    assert(rv_lt(half, rv_int(1)));
    lemma_rv_le_lt_strict(rv_abs(s.k1), half, rv_int(1));
    lemma_rv_le_lt_strict(rv_abs(s.k2), half, rv_int(1));
}

/// A single row violating `|b| >= |a| + |c|` falsifies the first
/// stability condition, whatever the other rows look like.
pub proof fn lemma_violated_row_breaks_t1(s: SysV, j: int)
    requires
        0 <= j < s.rows.len(),
        rv_lt(rv_abs(s.rows[j].b), rv_add(rv_abs(s.rows[j].a), rv_abs(s.rows[j].c))),
    ensures
        !t1_holds(s),
{
    if t1_holds(s) {
        assert(rv_le(rv_add(rv_abs(s.rows[j].a), rv_abs(s.rows[j].c)), rv_abs(s.rows[j].b)));
    }
}

/// One step of the forward sweep under strict dominance: with
/// `|alpha| <= 1` and `|b| > |a| + |c|`, the pivot `b - alpha*a` is a
/// nonzero rational and the next coefficient `c / (b - alpha*a)` again
/// has absolute value at most one. This is the inductive heart of the
/// classical stability argument for the sweep.
pub proof fn lemma_dominant_step(a: RatV, b: RatV, c: RatV, al: RatV)
    requires
        rv_wf(a),
        rv_wf(b),
        rv_wf(c),
        rv_wf(al),
        rv_lt(rv_add(rv_abs(a), rv_abs(c)), rv_abs(b)),
        rv_le(rv_abs(al), rv_int(1)),
    ensures
        !rv_is_zero(rv_sub(b, rv_mul(al, a))),
        rv_le(rv_abs(rv_div(c, rv_sub(b, rv_mul(al, a)))), rv_int(1)),
{
    let aa = vstd::math::abs(a.n) as int;
    let bb = vstd::math::abs(b.n) as int;
    let cc = vstd::math::abs(c.n) as int;
    let ll = vstd::math::abs(al.n) as int;
    assert((aa * c.d + cc * a.d) * b.d < bb * (a.d * c.d));
    assert(ll <= al.d);
    // scaled strict gap between |b| and |a|
    let kk = bb * a.d - aa * b.d;
    vstd::arithmetic::mul::lemma_mul_is_distributive_add_other_way(b.d, aa * c.d, cc * a.d);
    assert((aa * c.d) * b.d == (aa * b.d) * c.d) by (nonlinear_arith);
    assert(bb * (a.d * c.d) == (bb * a.d) * c.d) by (nonlinear_arith);
    vstd::arithmetic::mul::lemma_mul_is_distributive_sub_other_way(c.d, bb * a.d, aa * b.d);
    assert(kk * c.d > (cc * a.d) * b.d);
    assert((cc * a.d) * b.d >= 0) by (nonlinear_arith)
        requires
            cc >= 0,
            a.d > 0,
            b.d > 0,
    ;
    assert(kk > 0) by (nonlinear_arith)
        requires
            kk * c.d > 0,
            c.d > 0,
    ;
    // bound the cross product al.n * a.n by ll * aa <= al.d * aa
    assert(al.n * a.n <= ll * aa && -(ll * aa) <= al.n * a.n) by (nonlinear_arith)
        requires
            -ll <= al.n,
            al.n <= ll,
            -aa <= a.n,
            a.n <= aa,
            ll >= 0,
            aa >= 0,
    ;
    vstd::arithmetic::mul::lemma_mul_inequality(ll, al.d, aa * b.d);
    assert(ll * (aa * b.d) == (ll * aa) * b.d) by (nonlinear_arith);
    assert(al.d * (aa * b.d) == (al.d * aa) * b.d) by (nonlinear_arith);
    let dn = b.n * (al.d * a.d) - (al.n * a.n) * b.d;
    assert(rv_sub(b, rv_mul(al, a)).n == dn);
    assert(rv_sub(b, rv_mul(al, a)).d == b.d * (al.d * a.d));
    // al.d * kk is a lower bound for |dn|, by cases on the sign of b.n
    vstd::arithmetic::mul::lemma_mul_is_distributive_sub(al.d, bb * a.d, aa * b.d);
    assert(al.d * (bb * a.d) == bb * (al.d * a.d)) by (nonlinear_arith);
    assert((al.n * a.n) * b.d <= (ll * aa) * b.d && -((ll * aa) * b.d) <= (al.n * a.n) * b.d)
        by (nonlinear_arith)
        requires
            al.n * a.n <= ll * aa,
            -(ll * aa) <= al.n * a.n,
            b.d > 0,
    ;
    if b.n >= 0 {
        assert(bb == b.n);
        assert(dn >= bb * (al.d * a.d) - (al.d * aa) * b.d);
        assert(dn >= al.d * kk);
    } else {
        assert(bb == -b.n);
        assert(b.n * (al.d * a.d) == -(bb * (al.d * a.d))) by (nonlinear_arith)
            requires
                bb == -b.n,
        ;
        assert(dn <= -(bb * (al.d * a.d)) + (al.d * aa) * b.d);
        assert(dn <= -(al.d * kk));
    }
    assert(al.d * kk > 0) by (nonlinear_arith)
        requires
            al.d > 0,
            kk > 0,
    ;
    assert(dn != 0);
    // the quotient stays bounded: cc * (b.d * (al.d * a.d)) <= c.d * |dn|
    vstd::arithmetic::mul::lemma_mul_strict_inequality((cc * a.d) * b.d, kk * c.d, al.d);
    assert(al.d * ((cc * a.d) * b.d) == cc * (b.d * (al.d * a.d))) by (nonlinear_arith);
    assert(al.d * (kk * c.d) == c.d * (al.d * kk)) by (nonlinear_arith);
    assert(cc * (b.d * (al.d * a.d)) < c.d * (al.d * kk));
    let dd = rv_sub(b, rv_mul(al, a));
    if dn >= 0 {
        assert(rv_div(c, dd).n == c.n * (b.d * (al.d * a.d)));
        assert(rv_div(c, dd).d == c.d * dn);
        assert(c.d * (al.d * kk) <= c.d * dn) by (nonlinear_arith)
            requires
                al.d * kk <= dn,
                c.d > 0,
        ;
        assert(vstd::math::abs(c.n * (b.d * (al.d * a.d))) == cc * (b.d * (al.d * a.d)))
            by (nonlinear_arith)
            requires
                cc == vstd::math::abs(c.n),
                b.d * (al.d * a.d) >= 0,
        ;
        assert(rv_le(rv_abs(rv_div(c, dd)), rv_int(1)));
    } else {
        assert(rv_div(c, dd).n == -(c.n * (b.d * (al.d * a.d))));
        assert(rv_div(c, dd).d == -(c.d * dn));
        assert(c.d * (al.d * kk) <= -(c.d * dn)) by (nonlinear_arith)
            requires
                dn <= -(al.d * kk),
                c.d > 0,
        ;
        assert(vstd::math::abs(-(c.n * (b.d * (al.d * a.d)))) == cc * (b.d * (al.d * a.d)))
            by (nonlinear_arith)
            requires
                cc == vstd::math::abs(c.n),
                b.d * (al.d * a.d) >= 0,
        ;
        assert(rv_le(rv_abs(rv_div(c, dd)), rv_int(1)));
    }
}

/// Under `|kappa1| <= 1` and strict row dominance every forward-sweep
/// coefficient satisfies `|alpha_i| <= 1`, and every pivot consumed on
/// the way is a nonzero rational.
proof fn lemma_alpha_bounded(s: SysV, i: nat)
    requires
        sysv_wf(s),
        rv_le(rv_abs(s.k1), rv_int(1)),
        strict_rows(s),
        i <= s.rows.len(),
    ensures
        rv_wf(alpha_at(s, i)),
        rv_le(rv_abs(alpha_at(s, i)), rv_int(1)),
        forall|t: int| 0 <= t < i ==> !rv_is_zero(#[trigger] denom_at(s, t as nat)),
    decreases i,
{
    if i > 0 {
        let t = (i - 1) as nat;
        lemma_alpha_bounded(s, t);
        let r = s.rows[i - 1];
        let al = alpha_at(s, t);
        lemma_dominant_step(r.a, r.b, r.c, al);
        assert(denom_at(s, t) == rv_sub(r.b, rv_mul(al, r.a)));
        assert(!rv_is_zero(denom_at(s, t)));
        lemma_rv_mul_wf(al, r.a);
        lemma_rv_sub_wf(r.b, rv_mul(al, r.a));
        lemma_rv_div_wf(r.c, rv_sub(r.b, rv_mul(al, r.a)));
        assert(alpha_at(s, i) == rv_div(r.c, rv_sub(r.b, rv_mul(al, r.a))));
    }
}

/// With `|kappa2| < 1` and `|alpha_last| <= 1` the joint denominator
/// `1 - kappa2*alpha_last` of the right boundary solve is nonzero.
proof fn lemma_final_denom_nonzero(s: SysV)
    requires
        sysv_wf(s),
        rv_lt(rv_abs(s.k2), rv_int(1)),
        rv_wf(alpha_at(s, s.rows.len())),
        rv_le(rv_abs(alpha_at(s, s.rows.len())), rv_int(1)),
    ensures
        !rv_is_zero(final_denom(s)),
{
    let al = alpha_at(s, s.rows.len());
    let kk = vstd::math::abs(s.k2.n) as int;
    let ll = vstd::math::abs(al.n) as int;
    assert(kk < s.k2.d);
    assert(ll <= al.d);
    assert(s.k2.n * al.n <= kk * ll) by (nonlinear_arith)
        requires
            -kk <= s.k2.n,
            s.k2.n <= kk,
            -ll <= al.n,
            al.n <= ll,
            kk >= 0,
            ll >= 0,
    ;
    vstd::arithmetic::mul::lemma_mul_inequality(ll, al.d, kk);
    assert(kk * ll == ll * kk) by (nonlinear_arith);
    assert(al.d * kk == kk * al.d) by (nonlinear_arith);
    vstd::arithmetic::mul::lemma_mul_strict_inequality(kk, s.k2.d, al.d);
    assert(al.d * kk == kk * al.d && al.d * s.k2.d == s.k2.d * al.d) by (nonlinear_arith);
    assert(s.k2.n * al.n < s.k2.d * al.d);
    assert(final_denom(s).n == 1 * (s.k2.d * al.d) - (s.k2.n * al.n) * 1);
    assert(!rv_is_zero(final_denom(s)));
}

/// Strict diagonal dominance of every row, with the boundary bounds of
/// the first stability condition, guarantees that every pivot of the
/// sweep is nonzero: `solve` cannot fail on such a system. The
/// non-strict dominance of the first condition alone does not suffice,
/// so the row hypothesis here is strict.
pub proof fn lemma_dominance_gives_pivots(s: SysV)
    requires
        sysv_wf(s),
        rv_le(rv_abs(s.k1), rv_int(1)),
        rv_lt(rv_abs(s.k2), rv_int(1)),
        strict_rows(s),
    ensures
        pivots_ok(s),
{
    lemma_alpha_bounded(s, s.rows.len());
    lemma_final_denom_nonzero(s);
}

} // verus!
