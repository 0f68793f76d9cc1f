//! The library's stated laws, proved from the solver's contracts:
//! determinism, feasibility of the result after at least one iteration,
//! the zero-iteration identity, correctness of the hyperplane projection,
//! strict decay of the decaying step schedule, and rejection of a
//! degenerate constraint.
//!
//! The first half is a toolbox: value equality `feq` is a congruence for the
//! rational operations, and reduction (`norm`) preserves value.

use vstd::prelude::*;
use crate::rational::{
    fadd, fdiv, feq, fint, fits, flt, fmax, fmul, fneg, fsub, fwf, fzero, lemma_norm_feq,
    lemma_norm_zero, oadd, odiv, omul, onorm, osub, Frac,
};
use crate::vecops::{all_fits, all_fwf, fdot, odot, oproject, oprojs};
use crate::solver::{
    dims_ok, oiter, ostep_size, oy_at, oys, psd_spec, rule_wf, SolveError, StepRule,
};

verus! {

/// Value equality is transitive over well-formed fractions.
pub proof fn lemma_feq_trans(x: Frac, y: Frac, z: Frac)
    requires
        fwf(x),
        fwf(y),
        fwf(z),
        feq(x, y),
        feq(y, z),
    ensures
        feq(x, z),
{
    assert((x.n * z.d) * y.d == (z.n * x.d) * y.d) by (nonlinear_arith)
        requires
            x.n * y.d == y.n * x.d,
            y.n * z.d == z.n * y.d,
    ;
    assert(x.n * z.d == z.n * x.d) by (nonlinear_arith)
        requires
            (x.n * z.d) * y.d == (z.n * x.d) * y.d,
            y.d >= 1,
    ;
}

/// The sum and product of well-formed fractions are well formed.
pub proof fn lemma_ops_fwf(x: Frac, y: Frac)
    by (nonlinear_arith)
    requires
        fwf(x),
        fwf(y),
    ensures
        fwf(fadd(x, y)),
        fwf(fsub(x, y)),
        fwf(fmul(x, y)),
        fwf(fneg(x)),
        fwf(fmax(x, y)),
{
}

/// The quotient by a nonzero fraction is well formed.
pub proof fn lemma_fdiv_fwf(x: Frac, w: Frac)
    by (nonlinear_arith)
    requires
        fwf(x),
        fwf(w),
        w.n != 0,
    ensures
        fwf(fdiv(x, w)),
{
}

/// Addition respects value equality.
pub proof fn lemma_fadd_cong(x: Frac, x2: Frac, y: Frac, y2: Frac)
    requires
        fwf(x),
        fwf(x2),
        fwf(y),
        fwf(y2),
        feq(x, x2),
        feq(y, y2),
    ensures
        feq(fadd(x, y), fadd(x2, y2)),
{
    assert((x.n * y.d) * (x2.d * y2.d) == (x2.n * y2.d) * (x.d * y.d)) by (nonlinear_arith)
        requires
            x.n * x2.d == x2.n * x.d,
    ;
    assert((y.n * x.d) * (x2.d * y2.d) == (y2.n * x2.d) * (x.d * y.d)) by (nonlinear_arith)
        requires
            y.n * y2.d == y2.n * y.d,
    ;
    assert((x.n * y.d + y.n * x.d) * (x2.d * y2.d) == (x2.n * y2.d + y2.n * x2.d) * (x.d * y.d))
        by (nonlinear_arith)
        requires
            (x.n * y.d) * (x2.d * y2.d) == (x2.n * y2.d) * (x.d * y.d),
            (y.n * x.d) * (x2.d * y2.d) == (y2.n * x2.d) * (x.d * y.d),
    ;
}

/// Multiplication respects value equality.
pub proof fn lemma_fmul_cong(x: Frac, x2: Frac, y: Frac, y2: Frac)
    requires
        fwf(x),
        fwf(x2),
        fwf(y),
        fwf(y2),
        feq(x, x2),
        feq(y, y2),
    ensures
        feq(fmul(x, y), fmul(x2, y2)),
{
    assert((x.n * y.n) * (x2.d * y2.d) == (x2.n * y2.n) * (x.d * y.d)) by (nonlinear_arith)
        requires
            x.n * x2.d == x2.n * x.d,
            y.n * y2.d == y2.n * y.d,
    ;
}

/// Subtraction respects value equality.
pub proof fn lemma_fsub_cong(x: Frac, x2: Frac, y: Frac, y2: Frac)
    requires
        fwf(x),
        fwf(x2),
        fwf(y),
        fwf(y2),
        feq(x, x2),
        feq(y, y2),
    ensures
        feq(fsub(x, y), fsub(x2, y2)),
{
    assert((-y.n) * y2.d == (-y2.n) * y.d) by (nonlinear_arith)
        requires
            y.n * y2.d == y2.n * y.d,
    ;
    assert(feq(fneg(y), fneg(y2)));
    lemma_ops_fwf(y, y2);
    lemma_ops_fwf(y2, y);
    lemma_fadd_cong(x, x2, fneg(y), fneg(y2));
}

/// Division respects value equality of the dividend.
pub proof fn lemma_fdiv_cong_left(x: Frac, x2: Frac, w: Frac)
    by (nonlinear_arith)
    requires
        fwf(x),
        fwf(x2),
        fwf(w),
        w.n != 0,
        feq(x, x2),
    ensures
        feq(fdiv(x, w), fdiv(x2, w)),
{
}

/// Multiplying a quotient by its divisor recovers the dividend.
pub proof fn lemma_div_cancel(u: Frac, w: Frac)
    by (nonlinear_arith)
    requires
        fwf(u),
        fwf(w),
        w.n != 0,
    ensures
        feq(fmul(fdiv(u, w), w), u),
{
}

/// Adding `e − v` back to `v` gives `e`.
pub proof fn lemma_fadd_fsub_cancel(v: Frac, e: Frac)
    by (nonlinear_arith)
    requires
        fwf(v),
        fwf(e),
    ensures
        feq(fadd(v, fsub(e, v)), e),
{
}

/// A reduced, representable result keeps the value of the exact fraction.
pub proof fn lemma_onorm_some(p: Frac, r: Frac)
    requires
        fwf(p),
        onorm(p) == Some(r),
    ensures
        fits(r),
        fwf(r),
        feq(r, p),
        feq(p, r),
{
    lemma_norm_feq(p);
}

/// The vector x + t·a, exactly.
pub open spec fn axpy(x: Seq<Frac>, t: Frac, a: Seq<Frac>) -> Seq<Frac> {
    Seq::new(x.len(), |i: int| fadd(x[i], fmul(t, a[i])))
}

/// Dropping the last element keeps every element well formed.
pub proof fn lemma_all_fwf_drop(s: Seq<Frac>)
    requires
        all_fwf(s),
        s.len() > 0,
    ensures
        all_fwf(s.drop_last()),
        fwf(s.last()),
{
    assert forall|i: int| 0 <= i < s.drop_last().len() implies fwf(#[trigger] s.drop_last()[i]) by {
        assert(s.drop_last()[i] == s[i]);
    }
}

/// The exact dot product of well-formed vectors is well formed.
pub proof fn lemma_fdot_fwf(a: Seq<Frac>, x: Seq<Frac>)
    requires
        a.len() == x.len(),
        all_fwf(a),
        all_fwf(x),
    ensures
        fwf(fdot(a, x)),
    decreases a.len(),
{
    if a.len() > 0 {
        lemma_all_fwf_drop(a);
        lemma_all_fwf_drop(x);
        lemma_fdot_fwf(a.drop_last(), x.drop_last());
        lemma_ops_fwf(a.last(), x.last());
        lemma_ops_fwf(fdot(a.drop_last(), x.drop_last()), fmul(a.last(), x.last()));
    }
}

/// When the checked dot product succeeds, its result has the value of the
/// exact dot product.
pub proof fn lemma_odot_sound(a: Seq<Frac>, x: Seq<Frac>, v: Frac)
    requires
        a.len() == x.len(),
        all_fwf(a),
        all_fwf(x),
        odot(a, x) == Some(v),
    ensures
        fits(v),
        fwf(v),
        feq(v, fdot(a, x)),
        feq(fdot(a, x), v),
        fwf(fdot(a, x)),
    decreases a.len(),
{
    lemma_fdot_fwf(a, x);
    if a.len() == 0 {
        assert(feq(v, fdot(a, x)));
    } else {
        lemma_all_fwf_drop(a);
        lemma_all_fwf_drop(x);
        let acc = odot(a.drop_last(), x.drop_last())->Some_0;
        let pr = omul(a.last(), x.last())->Some_0;
        lemma_odot_sound(a.drop_last(), x.drop_last(), acc);
        lemma_ops_fwf(a.last(), x.last());
        lemma_onorm_some(fmul(a.last(), x.last()), pr);
        lemma_ops_fwf(acc, pr);
        lemma_onorm_some(fadd(acc, pr), v);
        let da = a.drop_last();
        let dx = x.drop_last();
        lemma_fdot_fwf(da, dx);
        lemma_ops_fwf(fdot(da, dx), fmul(a.last(), x.last()));
        lemma_fadd_cong(acc, fdot(da, dx), pr, fmul(a.last(), x.last()));
        lemma_feq_trans(v, fadd(acc, pr), fdot(a, x));
    }
}

/// Dot products respect pointwise value equality of the second vector.
pub proof fn lemma_dot_cong(a: Seq<Frac>, z: Seq<Frac>, w: Seq<Frac>)
    requires
        a.len() == z.len(),
        a.len() == w.len(),
        all_fwf(a),
        all_fwf(z),
        all_fwf(w),
        forall|i: int| 0 <= i < z.len() ==> feq(#[trigger] z[i], w[i]),
    ensures
        feq(fdot(a, z), fdot(a, w)),
    decreases a.len(),
{
    if a.len() == 0 {
        assert(feq(fdot(a, z), fdot(a, w)));
    } else {
        lemma_all_fwf_drop(a);
        lemma_all_fwf_drop(z);
        lemma_all_fwf_drop(w);
        assert forall|i: int| 0 <= i < z.drop_last().len() implies feq(
            #[trigger] z.drop_last()[i],
            w.drop_last()[i],
        ) by {
            assert(z.drop_last()[i] == z[i]);
            assert(w.drop_last()[i] == w[i]);
        }
        lemma_dot_cong(a.drop_last(), z.drop_last(), w.drop_last());
        lemma_fmul_cong(a.last(), a.last(), z.last(), w.last());
        lemma_fdot_fwf(a.drop_last(), z.drop_last());
        lemma_fdot_fwf(a.drop_last(), w.drop_last());
        lemma_ops_fwf(a.last(), z.last());
        lemma_ops_fwf(a.last(), w.last());
        lemma_fadd_cong(
            fdot(a.drop_last(), z.drop_last()),
            fdot(a.drop_last(), w.drop_last()),
            fmul(a.last(), z.last()),
            fmul(a.last(), w.last()),
        );
    }
}

/// Distributing one factor over a sum of fractions.
pub proof fn lemma_fmul_dist(p: Frac, u: Frac, v: Frac)
    ensures
        feq(fmul(p, fadd(u, v)), fadd(fmul(p, u), fmul(p, v))),
{
    let a1 = p.n * u.n * v.d + p.n * v.n * u.d;
    assert(p.n * (u.n * v.d + v.n * u.d) == a1) by (nonlinear_arith)
        requires
            a1 == p.n * u.n * v.d + p.n * v.n * u.d,
    ;
    assert((p.n * u.n) * (p.d * v.d) + (p.n * v.n) * (p.d * u.d) == p.d * a1) by (nonlinear_arith)
        requires
            a1 == p.n * u.n * v.d + p.n * v.n * u.d,
    ;
    assert(a1 * ((p.d * u.d) * (p.d * v.d)) == (p.d * a1) * (p.d * (u.d * v.d)))
        by (nonlinear_arith);
}

/// Products of fractions commute and associate by value.
pub proof fn lemma_fmul_shuffle(a: Frac, t: Frac)
    ensures
        feq(fmul(a, fmul(t, a)), fmul(t, fmul(a, a))),
{
    assert(a.n * (t.n * a.n) == t.n * (a.n * a.n)) by (nonlinear_arith);
    assert(a.d * (t.d * a.d) == t.d * (a.d * a.d)) by (nonlinear_arith);
}

/// Four-factor products are equal under reordering of the factors.
proof fn lemma_mono4(a: int, b: int, c: int, d: int)
    by (nonlinear_arith)
    ensures
        a * b * c * d == a * c * b * d,
        a * b * c * d == a * d * b * c,
        a * b * c * d == a * c * d * b,
        a * b * c * d == a * d * c * b,
{
}

/// Sums of fractions can be re-bracketed pairwise by value.
pub proof fn lemma_fadd_exchange(p: Frac, q: Frac, r: Frac, s: Frac)
    ensures
        feq(fadd(fadd(p, q), fadd(r, s)), fadd(fadd(p, r), fadd(q, s))),
{
    let ln = fadd(fadd(p, q), fadd(r, s)).n;
    let rn = fadd(fadd(p, r), fadd(q, s)).n;
    let ld = fadd(fadd(p, q), fadd(r, s)).d;
    let rd = fadd(fadd(p, r), fadd(q, s)).d;
    assert((p.n * q.d + q.n * p.d) * (r.d * s.d) == p.n * q.d * r.d * s.d + q.n * p.d * r.d * s.d)
        by (nonlinear_arith);
    assert((r.n * s.d + s.n * r.d) * (p.d * q.d) == r.n * s.d * p.d * q.d + s.n * r.d * p.d * q.d)
        by (nonlinear_arith);
    assert((p.n * r.d + r.n * p.d) * (q.d * s.d) == p.n * r.d * q.d * s.d + r.n * p.d * q.d * s.d)
        by (nonlinear_arith);
    assert((q.n * s.d + s.n * q.d) * (p.d * r.d) == q.n * s.d * p.d * r.d + s.n * q.d * p.d * r.d)
        by (nonlinear_arith);
    lemma_mono4(p.n, r.d, q.d, s.d);
    lemma_mono4(r.n, p.d, q.d, s.d);
    lemma_mono4(q.n, s.d, p.d, r.d);
    lemma_mono4(s.n, q.d, p.d, r.d);
    assert(ln == rn);
    assert(ld == rd) by (nonlinear_arith)
        requires
            ld == (p.d * q.d) * (r.d * s.d),
            rd == (p.d * r.d) * (q.d * s.d),
    ;
}

/// The empty ray identity: 0 = 0 + t·0.
proof fn lemma_zero_ray(t: Frac)
    by (nonlinear_arith)
    ensures
        feq(fzero(), fadd(fzero(), fmul(t, fzero()))),
{
}

/// The dot product is linear along a ray: aᵀ(y + t·a) = aᵀy + t·(aᵀa).
pub proof fn lemma_dot_linear(a: Seq<Frac>, y: Seq<Frac>, t: Frac)
    requires
        a.len() == y.len(),
        all_fwf(a),
        all_fwf(y),
        fwf(t),
    ensures
        feq(fdot(a, axpy(y, t, a)), fadd(fdot(a, y), fmul(t, fdot(a, a)))),
    decreases a.len(),
{
    let p = axpy(y, t, a);
    assert forall|i: int| 0 <= i < p.len() implies fwf(#[trigger] p[i]) by {
        lemma_ops_fwf(t, a[i]);
        lemma_ops_fwf(y[i], fmul(t, a[i]));
    }
    lemma_fdot_fwf(a, p);
    if a.len() == 0 {
        lemma_zero_ray(t);
        assert(feq(fdot(a, p), fadd(fdot(a, y), fmul(t, fdot(a, a)))));
    } else {
        let da = a.drop_last();
        let dy = y.drop_last();
        let al = a.last();
        let yl = y.last();
        lemma_all_fwf_drop(a);
        lemma_all_fwf_drop(y);
        lemma_all_fwf_drop(p);
        assert(p.drop_last() =~= axpy(dy, t, da));
        assert(p.last() == fadd(yl, fmul(t, al)));
        lemma_dot_linear(da, dy, t);
        // well-formedness of every node in the rearrangement
        lemma_fdot_fwf(da, dy);
        lemma_fdot_fwf(da, da);
        lemma_fdot_fwf(da, axpy(dy, t, da));
        lemma_ops_fwf(t, fdot(da, da));
        lemma_ops_fwf(fdot(da, dy), fmul(t, fdot(da, da)));
        lemma_ops_fwf(t, al);
        lemma_ops_fwf(yl, fmul(t, al));
        lemma_ops_fwf(al, fadd(yl, fmul(t, al)));
        lemma_ops_fwf(al, yl);
        lemma_ops_fwf(al, al);
        lemma_ops_fwf(t, fmul(al, al));
        lemma_ops_fwf(al, fmul(t, al));
        lemma_ops_fwf(fmul(al, yl), fmul(t, fmul(al, al)));
        // head term: al·(yl + t·al) = al·yl + t·(al·al)
        lemma_fmul_dist(al, yl, fmul(t, al));
        lemma_fmul_shuffle(al, t);
        lemma_ops_fwf(fmul(al, yl), fmul(al, fmul(t, al)));
        lemma_fadd_cong(
            fmul(al, yl),
            fmul(al, yl),
            fmul(al, fmul(t, al)),
            fmul(t, fmul(al, al)),
        );
        lemma_feq_trans(
            fmul(al, p.last()),
            fadd(fmul(al, yl), fmul(al, fmul(t, al))),
            fadd(fmul(al, yl), fmul(t, fmul(al, al))),
        );
        // combine with the induction hypothesis
        lemma_fadd_cong(
            fdot(da, axpy(dy, t, da)),
            fadd(fdot(da, dy), fmul(t, fdot(da, da))),
            fmul(al, p.last()),
            fadd(fmul(al, yl), fmul(t, fmul(al, al))),
        );
        // re-bracket: (A + B) + (C + D) = (A + C) + (B + D)
        lemma_fadd_exchange(fdot(da, dy), fmul(t, fdot(da, da)), fmul(al, yl), fmul(t, fmul(al, al)));
        lemma_ops_fwf(fadd(fdot(da, dy), fmul(t, fdot(da, da))), fadd(fmul(al, yl), fmul(t, fmul(al, al))));
        lemma_ops_fwf(fdot(da, dy), fmul(al, yl));
        lemma_ops_fwf(fmul(t, fdot(da, da)), fmul(t, fmul(al, al)));
        lemma_ops_fwf(
            fadd(fdot(da, dy), fmul(al, yl)),
            fadd(fmul(t, fdot(da, da)), fmul(t, fmul(al, al))),
        );
        lemma_feq_trans(
            fdot(a, p),
            fadd(
                fadd(fdot(da, dy), fmul(t, fdot(da, da))),
                fadd(fmul(al, yl), fmul(t, fmul(al, al))),
            ),
            fadd(
                fadd(fdot(da, dy), fmul(al, yl)),
                fadd(fmul(t, fdot(da, da)), fmul(t, fmul(al, al))),
            ),
        );
        // pull t out of the second bracket
        lemma_fmul_dist(t, fdot(da, da), fmul(al, al));
        lemma_ops_fwf(fdot(da, da), fmul(al, al));
        lemma_ops_fwf(t, fadd(fdot(da, da), fmul(al, al)));
        lemma_fadd_cong(
            fadd(fdot(da, dy), fmul(al, yl)),
            fadd(fdot(da, dy), fmul(al, yl)),
            fadd(fmul(t, fdot(da, da)), fmul(t, fmul(al, al))),
            fmul(t, fadd(fdot(da, da), fmul(al, al))),
        );
        assert(fadd(fdot(da, dy), fmul(al, yl)) == fdot(a, y));
        assert(fadd(fdot(da, da), fmul(al, al)) == fdot(a, a));
        lemma_ops_fwf(fdot(a, y), fmul(t, fdot(a, a)));
        lemma_feq_trans(
            fdot(a, p),
            fadd(
                fadd(fdot(da, dy), fmul(al, yl)),
                fadd(fmul(t, fdot(da, da)), fmul(t, fmul(al, al))),
            ),
            fadd(fdot(a, y), fmul(t, fdot(a, a))),
        );
    }
}

/// Representable elements are well formed.
pub proof fn lemma_all_fits_fwf(s: Seq<Frac>)
    requires
        all_fits(s),
    ensures
        all_fwf(s),
{
    assert forall|i: int| 0 <= i < s.len() implies fwf(#[trigger] s[i]) by {
        assert(fits(s[i]));
    }
}

/// Subtracting a summand from a sum leaves the other summand.
pub proof fn lemma_fsub_fadd_cancel(u: Frac, w: Frac)
    by (nonlinear_arith)
    requires
        fwf(u),
        fwf(w),
    ensures
        feq(fsub(fadd(u, w), u), w),
{
}

/// A successful division is well formed and has the exact quotient's value.
pub proof fn lemma_odiv_some(x: Frac, y: Frac, r: Frac)
    requires
        fwf(x),
        fwf(y),
        odiv(x, y) == Some(r),
    ensures
        y.n != 0,
        fits(r),
        fwf(r),
        feq(r, fdiv(x, y)),
        feq(fdiv(x, y), r),
        fwf(fdiv(x, y)),
{
    lemma_fdiv_fwf(x, y);
    lemma_onorm_some(fdiv(x, y), r);
}

/// What a successful projection pass returns, componentwise: a value equal
/// to xᵢ + t·aᵢ, whose difference from xᵢ is t·aᵢ.
pub proof fn lemma_oprojs_sound(x: Seq<Frac>, t: Frac, a: Seq<Frac>, k: int, z: Seq<Frac>)
    requires
        0 <= k <= x.len(),
        x.len() == a.len(),
        all_fwf(x),
        all_fwf(a),
        fwf(t),
        oprojs(x, t, a, k) == Some(z),
    ensures
        z.len() == k,
        forall|i: int| 0 <= i < k ==> fits(#[trigger] z[i]),
        forall|i: int| 0 <= i < k ==> feq(#[trigger] z[i], fadd(x[i], fmul(t, a[i]))),
        forall|i: int| 0 <= i < k ==> feq(fsub(#[trigger] z[i], x[i]), fmul(t, a[i])),
    decreases k,
{
    if k > 0 {
        let pre = oprojs(x, t, a, k - 1)->Some_0;
        let dx = omul(t, a[k - 1])->Some_0;
        let zi = oadd(x[k - 1], dx)->Some_0;
        lemma_oprojs_sound(x, t, a, k - 1, pre);
        assert(z == pre.push(zi));
        lemma_ops_fwf(t, a[k - 1]);
        lemma_onorm_some(fmul(t, a[k - 1]), dx);
        lemma_ops_fwf(x[k - 1], dx);
        lemma_onorm_some(fadd(x[k - 1], dx), zi);
        lemma_ops_fwf(x[k - 1], fmul(t, a[k - 1]));
        lemma_fadd_cong(x[k - 1], x[k - 1], dx, fmul(t, a[k - 1]));
        lemma_feq_trans(zi, fadd(x[k - 1], dx), fadd(x[k - 1], fmul(t, a[k - 1])));
        lemma_fsub_cong(zi, fadd(x[k - 1], fmul(t, a[k - 1])), x[k - 1], x[k - 1]);
        lemma_fsub_fadd_cancel(x[k - 1], fmul(t, a[k - 1]));
        lemma_ops_fwf(zi, x[k - 1]);
        lemma_ops_fwf(fadd(x[k - 1], fmul(t, a[k - 1])), x[k - 1]);
        lemma_feq_trans(
            fsub(zi, x[k - 1]),
            fsub(fadd(x[k - 1], fmul(t, a[k - 1])), x[k - 1]),
            fmul(t, a[k - 1]),
        );
        assert forall|i: int| 0 <= i < k - 1 implies #[trigger] z[i] == pre[i] by {}
    }
}

/// The step scalar t = (e − aᵀx) / (aᵀa) of a successful projection.
pub open spec fn oproj_t(x: Seq<Frac>, a: Seq<Frac>, e: Frac) -> Option<Frac> {
    match odot(a, x) {
        Option::None => Option::None,
        Option::Some(ax) => match odot(a, a) {
            Option::None => Option::None,
            Option::Some(aa) => match osub(e, ax) {
                Option::None => Option::None,
                Option::Some(diff) => odiv(diff, aa),
            },
        },
    }
}

/// Correctness of the hyperplane projection: when it succeeds, the returned
/// point z satisfies aᵀz = e exactly, and z − x is the multiple t·a of the
/// normal, for the computed scalar t.
pub proof fn lemma_oproject_sound(x: Seq<Frac>, a: Seq<Frac>, e: Frac, z: Seq<Frac>)
    requires
        x.len() == a.len(),
        all_fwf(x),
        all_fwf(a),
        fwf(e),
        oproject(x, a, e) == Some(z),
    ensures
        z.len() == x.len(),
        all_fits(z),
        feq(fdot(a, z), e),
        oproj_t(x, a, e) is Some,
        fwf(oproj_t(x, a, e)->Some_0),
        forall|i: int|
            0 <= i < z.len() ==> feq(
                fsub(#[trigger] z[i], x[i]),
                fmul(oproj_t(x, a, e)->Some_0, a[i]),
            ),
{
    let ax = odot(a, x)->Some_0;
    let aa = odot(a, a)->Some_0;
    let diff = osub(e, ax)->Some_0;
    let t = odiv(diff, aa)->Some_0;
    lemma_odot_sound(a, x, ax);
    lemma_odot_sound(a, a, aa);
    lemma_ops_fwf(e, ax);
    lemma_onorm_some(fsub(e, ax), diff);
    lemma_odiv_some(diff, aa, t);
    lemma_oprojs_sound(x, t, a, x.len() as int, z);
    assert forall|i: int| 0 <= i < z.len() implies fits(#[trigger] z[i]) by {}
    lemma_all_fits_fwf(z);
    // aᵀz = aᵀ(x + t·a) by pointwise congruence
    let p = axpy(x, t, a);
    assert forall|i: int| 0 <= i < p.len() implies fwf(#[trigger] p[i]) by {
        lemma_ops_fwf(t, a[i]);
        lemma_ops_fwf(x[i], fmul(t, a[i]));
    }
    lemma_dot_cong(a, z, p);
    // aᵀ(x + t·a) = aᵀx + t·(aᵀa)
    lemma_dot_linear(a, x, t);
    // t·(aᵀa) = e − aᵀx
    let dx = fdot(a, x);
    let u = fsub(e, dx);
    lemma_fdot_fwf(a, x);
    lemma_fdot_fwf(a, a);
    lemma_ops_fwf(e, dx);
    lemma_fsub_cong(e, e, ax, dx);
    lemma_feq_trans(diff, fsub(e, ax), u);
    lemma_fdiv_cong_left(diff, u, aa);
    lemma_fdiv_fwf(diff, aa);
    lemma_fdiv_fwf(u, aa);
    lemma_feq_trans(t, fdiv(diff, aa), fdiv(u, aa));
    lemma_fmul_cong(t, fdiv(u, aa), fdot(a, a), aa);
    lemma_div_cancel(u, aa);
    lemma_ops_fwf(t, fdot(a, a));
    lemma_ops_fwf(fdiv(u, aa), aa);
    lemma_feq_trans(fmul(t, fdot(a, a)), fmul(fdiv(u, aa), aa), u);
    // assemble: aᵀz = aᵀx + (e − aᵀx) = e
    lemma_fadd_cong(dx, dx, fmul(t, fdot(a, a)), u);
    lemma_fadd_fsub_cancel(dx, e);
    lemma_fdot_fwf(a, z);
    lemma_fdot_fwf(a, p);
    lemma_ops_fwf(dx, fmul(t, fdot(a, a)));
    lemma_ops_fwf(dx, u);
    lemma_feq_trans(fdot(a, z), fdot(a, p), fadd(dx, fmul(t, fdot(a, a))));
    lemma_feq_trans(fdot(a, z), fadd(dx, fmul(t, fdot(a, a))), fadd(dx, u));
    lemma_feq_trans(fdot(a, z), fadd(dx, u), e);
}

/// Every coordinate a successful descent pass returns is representable.
pub proof fn lemma_oys_sound(
    amat: Seq<Seq<Frac>>,
    q: Seq<Frac>,
    b: Seq<Frac>,
    s: Seq<Frac>,
    st: Frac,
    x: Seq<Frac>,
    k: int,
    y: Seq<Frac>,
)
    requires
        0 <= k,
        oys(amat, q, b, s, st, x, k) == Some(y),
    ensures
        y.len() == k,
        all_fits(y),
    decreases k,
{
    if k > 0 {
        let pre = oys(amat, q, b, s, st, x, k - 1)->Some_0;
        let yi = oy_at(amat[k - 1], q[k - 1], b[k - 1], s[k - 1], st, x, x[k - 1])->Some_0;
        lemma_oys_sound(amat, q, b, s, st, x, k - 1, pre);
        assert(y == pre.push(yi));
        assert forall|i: int| 0 <= i < y.len() implies fits(#[trigger] y[i]) by {
            if i < k - 1 {
                assert(y[i] == pre[i]);
            }
        }
    }
}

/// Every iterate the solver reaches keeps the dimension of the start point,
/// with every coordinate representable.
pub proof fn lemma_oiter_sound(
    amat: Seq<Seq<Frac>>,
    q: Seq<Frac>,
    b: Seq<Frac>,
    s: Seq<Frac>,
    an: Seq<Frac>,
    e: Frac,
    rule: StepRule,
    x0: Seq<Frac>,
    k: nat,
    x: Seq<Frac>,
)
    requires
        dims_ok(amat, q, b, s, x0, an),
        all_fits(x0),
        all_fwf(an),
        fwf(e),
        oiter(amat, q, b, s, an, e, rule, x0, k) == Some(x),
    ensures
        x.len() == x0.len(),
        all_fits(x),
    decreases k,
{
    if k > 0 {
        let xp = oiter(amat, q, b, s, an, e, rule, x0, (k - 1) as nat)->Some_0;
        let st = ostep_size(rule, (k - 1) as nat)->Some_0;
        lemma_oiter_sound(amat, q, b, s, an, e, rule, x0, (k - 1) as nat, xp);
        let y = oys(amat, q, b, s, st, xp, xp.len() as int)->Some_0;
        lemma_oys_sound(amat, q, b, s, st, xp, xp.len() as int, y);
        lemma_all_fits_fwf(y);
        lemma_oproject_sound(y, an, e, x);
    }
}

/// Feasibility after at least one iteration: whenever the solver returns a
/// point and ran one or more iterations, that point lies exactly on the
/// constraint hyperplane, aᵀx = E.
pub proof fn lemma_solver_feasible(
    amat: Seq<Seq<Frac>>,
    q: Seq<Frac>,
    b: Seq<Frac>,
    s: Seq<Frac>,
    x0: Seq<Frac>,
    an: Seq<Frac>,
    e: Frac,
    rule: StepRule,
    max_iter: nat,
    xs: Seq<Frac>,
)
    requires
        all_fits(x0),
        all_fwf(an),
        fwf(e),
        max_iter >= 1,
        psd_spec(amat, q, b, s, x0, an, e, rule, max_iter) == Ok::<Seq<Frac>, SolveError>(xs),
    ensures
        xs.len() == x0.len(),
        feq(fdot(an, xs), e),
{
    let xp = oiter(amat, q, b, s, an, e, rule, x0, (max_iter - 1) as nat)->Some_0;
    let st = ostep_size(rule, (max_iter - 1) as nat)->Some_0;
    lemma_oiter_sound(amat, q, b, s, an, e, rule, x0, (max_iter - 1) as nat, xp);
    let y = oys(amat, q, b, s, st, xp, xp.len() as int)->Some_0;
    lemma_oys_sound(amat, q, b, s, st, xp, xp.len() as int, y);
    lemma_all_fits_fwf(y);
    lemma_oproject_sound(y, an, e, xs);
}

/// Determinism: the solver's result is a function of its inputs alone, so two
/// runs on identical inputs return identical results.
pub proof fn lemma_deterministic(
    amat: Seq<Seq<Frac>>,
    q: Seq<Frac>,
    b: Seq<Frac>,
    s: Seq<Frac>,
    x0: Seq<Frac>,
    an: Seq<Frac>,
    e: Frac,
    rule: StepRule,
    max_iter: nat,
    r1: Result<Seq<Frac>, SolveError>,
    r2: Result<Seq<Frac>, SolveError>,
)
    requires
        r1 == psd_spec(amat, q, b, s, x0, an, e, rule, max_iter),
        r2 == psd_spec(amat, q, b, s, x0, an, e, rule, max_iter),
    ensures
        r1 == r2,
{
}

/// The zero-iteration identity: with `max_iter == 0` and valid inputs the
/// solver returns the start point exactly, with no projection applied.
pub proof fn lemma_zero_iterations(
    amat: Seq<Seq<Frac>>,
    q: Seq<Frac>,
    b: Seq<Frac>,
    s: Seq<Frac>,
    x0: Seq<Frac>,
    an: Seq<Frac>,
    e: Frac,
    rule: StepRule,
)
    requires
        dims_ok(amat, q, b, s, x0, an),
        odot(an, an) is Some,
        (odot(an, an)->Some_0).n != 0,
    ensures
        psd_spec(amat, q, b, s, x0, an, e, rule, 0) == Ok::<Seq<Frac>, SolveError>(x0),
{
}

/// The checked dot product of the zero vector with itself is zero.
proof fn lemma_odot_zero_vec(a: Seq<Frac>)
    requires
        all_fwf(a),
        forall|i: int| 0 <= i < a.len() ==> (#[trigger] a[i]).n == 0,
    ensures
        odot(a, a) == Some(fzero()),
    decreases a.len(),
{
    if a.len() > 0 {
        lemma_all_fwf_drop(a);
        assert forall|i: int| 0 <= i < a.drop_last().len() implies (#[trigger] a.drop_last()[
            i
        ]).n == 0 by {
            assert(a.drop_last()[i] == a[i]);
        }
        lemma_odot_zero_vec(a.drop_last());
        lemma_ops_fwf(a.last(), a.last());
        assert(fmul(a.last(), a.last()).n == 0) by (nonlinear_arith)
            requires
                a.last().n == 0,
                fmul(a.last(), a.last()).n == a.last().n * a.last().n,
        ;
        lemma_norm_zero(fmul(a.last(), a.last()));
        assert(omul(a.last(), a.last()) == Some(fzero()));
        assert(fadd(fzero(), fzero()) == fzero());
        lemma_norm_zero(fzero());
        assert(oadd(fzero(), fzero()) == Some(fzero()));
    }
}

/// Degenerate-constraint rejection: a zero hyperplane normal is reported as
/// an error before any iteration runs.
pub proof fn lemma_degenerate_rejected(
    amat: Seq<Seq<Frac>>,
    q: Seq<Frac>,
    b: Seq<Frac>,
    s: Seq<Frac>,
    x0: Seq<Frac>,
    an: Seq<Frac>,
    e: Frac,
    rule: StepRule,
    max_iter: nat,
)
    requires
        dims_ok(amat, q, b, s, x0, an),
        all_fwf(an),
        forall|i: int| 0 <= i < an.len() ==> (#[trigger] an[i]).n == 0,
    ensures
        psd_spec(amat, q, b, s, x0, an, e, rule, max_iter) == Err::<Seq<Frac>, SolveError>(
            SolveError::DegenerateConstraint,
        ),
{
    lemma_odot_zero_vec(an);
}

/// A strict order on values transfers across value equality.
pub proof fn lemma_flt_transfer(x: Frac, x2: Frac, y: Frac, y2: Frac)
    requires
        fwf(x),
        fwf(x2),
        fwf(y),
        fwf(y2),
        feq(x, x2),
        feq(y, y2),
        flt(x, y),
    ensures
        flt(x2, y2),
{
    assert((x2.n * y2.d) * (x.d * y.d) == (x.n * y.d) * (x2.d * y2.d)) by (nonlinear_arith)
        requires
            x.n * x2.d == x2.n * x.d,
            y.n * y2.d == y2.n * y.d,
    ;
    assert((y2.n * x2.d) * (x.d * y.d) == (y.n * x.d) * (x2.d * y2.d)) by (nonlinear_arith)
        requires
            x.n * x2.d == x2.n * x.d,
            y.n * y2.d == y2.n * y.d,
    ;
    assert((x.n * y.d) * (x2.d * y2.d) < (y.n * x.d) * (x2.d * y2.d)) by (nonlinear_arith)
        requires
            x.n * y.d < y.n * x.d,
            x2.d >= 1,
            y2.d >= 1,
    ;
    assert(x2.n * y2.d < y2.n * x2.d) by (nonlinear_arith)
        requires
            (x2.n * y2.d) * (x.d * y.d) < (y2.n * x2.d) * (x.d * y.d),
            x.d >= 1,
            y.d >= 1,
    ;
}

/// Step-size monotonic decay: under the decaying schedule with positive α and
/// γ, the step at a later iteration is strictly smaller.
pub proof fn lemma_step_decay(rule: StepRule, k1: nat, k2: nat, s1: Frac, s2: Frac)
    requires
        rule is Decaying,
        rule_wf(rule),
        k1 < k2,
        ostep_size(rule, k1) == Some(s1),
        ostep_size(rule, k2) == Some(s2),
    ensures
        flt(s2, s1),
{
    match rule {
        StepRule::Decaying { alpha, gamma } => {
            let av = alpha@;
            let gv = gamma@;
            let g1 = fadd(gv, fint(k1 as int));
            let g2 = fadd(gv, fint(k2 as int));
            let dn1 = oadd(gv, fint(k1 as int))->Some_0;
            let dn2 = oadd(gv, fint(k2 as int))->Some_0;
            assert(g1.n == gv.n + k1 * gv.d && g1.d == gv.d);
            assert(g2.n == gv.n + k2 * gv.d && g2.d == gv.d);
            assert(g1.n >= 1 && g2.n >= 1 && g1.n < g2.n) by (nonlinear_arith)
                requires
                    g1.n == gv.n + k1 * gv.d,
                    g2.n == gv.n + k2 * gv.d,
                    gv.n >= 1,
                    gv.d >= 1,
                    0 <= k1 < k2,
            ;
            lemma_ops_fwf(gv, fint(k1 as int));
            lemma_ops_fwf(gv, fint(k2 as int));
            lemma_onorm_some(g1, dn1);
            lemma_onorm_some(g2, dn2);
            let t1 = fdiv(av, dn1);
            let t2 = fdiv(av, dn2);
            lemma_odiv_some(av, dn1, s1);
            lemma_odiv_some(av, dn2, s2);
            // the reduced denominators keep sign and order
            assert(dn1.n >= 1) by (nonlinear_arith)
                requires
                    dn1.n * g1.d == g1.n * dn1.d,
                    g1.n >= 1,
                    g1.d >= 1,
                    dn1.d >= 1,
            ;
            assert(dn2.n >= 1) by (nonlinear_arith)
                requires
                    dn2.n * g2.d == g2.n * dn2.d,
                    g2.n >= 1,
                    g2.d >= 1,
                    dn2.d >= 1,
            ;
            assert(flt(g1, g2)) by (nonlinear_arith)
                requires
                    g1.d == g2.d,
                    g1.n < g2.n,
                    g1.d >= 1,
            ;
            lemma_flt_transfer(g1, dn1, g2, dn2);
            // dividing a positive value by a larger positive value gives less
            assert(flt(t2, t1)) by (nonlinear_arith)
                requires
                    t2 == fdiv(av, dn2),
                    t1 == fdiv(av, dn1),
                    fdiv(av, dn2) == (Frac { n: av.n * dn2.d, d: av.d * dn2.n }),
                    fdiv(av, dn1) == (Frac { n: av.n * dn1.d, d: av.d * dn1.n }),
                    av.n >= 1,
                    av.d >= 1,
                    dn1.n >= 1,
                    dn2.n >= 1,
                    dn1.d >= 1,
                    dn2.d >= 1,
                    dn1.n * dn2.d < dn2.n * dn1.d,
            ;
            lemma_fdiv_fwf(av, dn1);
            lemma_fdiv_fwf(av, dn2);
            lemma_flt_transfer(t2, s2, t1, s1);
        },
        _ => {
        },
    }
}

} // verus!
