//! Projected subgradient descent for
//! f(x) = xᵀAx + qᵀx + Σᵢ max(xᵢ·bᵢ, xᵢ·sᵢ) subject to aᵀx = E.
//!
//! One iteration at the current point x:
//! grad = A·x + q, then the residual subgradient of the penalty,
//! subgradᵢ = max(bᵢ − xᵢ, xᵢ − sᵢ), then x ← x − step·(grad + subgrad),
//! then the orthogonal projection of x onto {z : aᵀz = E}.
//!
//! All arithmetic is exact over rationals. An iterate whose reduced
//! coordinates leave the `i64` range is reported as `Overflow` rather than
//! silently degraded, a documented deviation from unchecked floating point.

use vstd::prelude::*;
use crate::rational::{
    fint, fmax, oadd, odiv, omul, osub, Frac, Rat,
};
use crate::vecops::{
    dot, frs, lemma_frs_push, odot, oproject, project_onto_hyperplane, vec_wf,
};

verus! {

/// Why a solve was rejected or abandoned.
#[derive(Clone, Copy, PartialEq, Eq, Structural, Debug)]
pub enum SolveError {
    /// Some input's length does not match the dimension of `x0`.
    DimensionMismatch,
    /// The hyperplane normal satisfies aᵀa = 0, so the projection is undefined.
    DegenerateConstraint,
    /// An intermediate value left the representable range.
    Overflow,
}

/// The step-size schedule: a fixed positive scalar, or the decaying schedule
/// step(k) = α / (γ + k).
#[derive(Clone, Copy)]
pub enum StepRule {
    Fixed(Rat),
    Decaying { alpha: Rat, gamma: Rat },
}

/// A valid schedule: representable scalars that give a positive step for
/// every iteration index.
pub open spec fn rule_wf(rule: StepRule) -> bool {
    match rule {
        StepRule::Fixed(f) => f.wf() && f@.n >= 1,
        StepRule::Decaying { alpha, gamma } => alpha.wf() && gamma.wf() && alpha@.n >= 1
            && gamma@.n >= 1,
    }
}

/// The step size used at iteration `k`, as computed.
pub open spec fn ostep_size(rule: StepRule, k: nat) -> Option<Frac> {
    match rule {
        StepRule::Fixed(f) => Some(f@),
        StepRule::Decaying { alpha, gamma } => if k > 0x7fff_ffff_ffff_ffff {
            Option::None
        } else {
            match oadd(gamma@, fint(k as int)) {
                Option::None => Option::None,
                Option::Some(dn) => odiv(alpha@, dn),
            }
        },
    }
}

/// The step size for iteration `k`: the fixed scalar, or α / (γ + k).
pub fn step_size(rule: &StepRule, k: usize) -> (r: Option<Rat>)
    requires
        rule_wf(*rule),
    ensures
        match r {
            Some(rt) => ostep_size(*rule, k as nat) == Some(rt@) && rt.wf(),
            None => ostep_size(*rule, k as nat) is None,
        },
{
    match rule {
        StepRule::Fixed(f) => Some(*f),
        StepRule::Decaying { alpha, gamma } => {
            if k as u64 > 0x7fff_ffff_ffff_ffffu64 {
                return None;
            }
            let kr = Rat::from_int(k as i64);
            let dn = match gamma.checked_add(&kr) {
                Some(v) => v,
                None => {
                    return None;
                },
            };
            alpha.checked_div(&dn)
        },
    }
}

/// The fractions denoted by the rows of a matrix of scalars.
pub open spec fn mfrs(m: Seq<Vec<Rat>>) -> Seq<Seq<Frac>> {
    Seq::new(m.len(), |i: int| frs(m[i]@))
}

/// Every row is a vector of representable scalars.
pub open spec fn mat_wf(m: Seq<Vec<Rat>>) -> bool {
    forall|i: int| 0 <= i < m.len() ==> vec_wf((#[trigger] m[i])@)
}

/// The candidate coordinate yᵢ = xᵢ − step·((A·x + q)ᵢ + max(bᵢ − xᵢ, xᵢ − sᵢ)),
/// as computed (each partial result reduced and checked).
pub open spec fn oy_at(
    row: Seq<Frac>,
    qi: Frac,
    bi: Frac,
    si: Frac,
    st: Frac,
    x: Seq<Frac>,
    xi: Frac,
) -> Option<Frac> {
    match odot(row, x) {
        Option::None => Option::None,
        Option::Some(dp) => match oadd(dp, qi) {
            Option::None => Option::None,
            Option::Some(gr) => match osub(bi, xi) {
                Option::None => Option::None,
                Option::Some(lft) => match osub(xi, si) {
                    Option::None => Option::None,
                    Option::Some(rgt) => match oadd(gr, fmax(lft, rgt)) {
                        Option::None => Option::None,
                        Option::Some(tot) => match omul(st, tot) {
                            Option::None => Option::None,
                            Option::Some(dlt) => osub(xi, dlt),
                        },
                    },
                },
            },
        },
    }
}

/// The first `k` candidate coordinates of one descent step.
pub open spec fn oys(
    amat: Seq<Seq<Frac>>,
    q: Seq<Frac>,
    b: Seq<Frac>,
    s: Seq<Frac>,
    st: Frac,
    x: Seq<Frac>,
    k: int,
) -> Option<Seq<Frac>>
    decreases k,
{
    if k <= 0 {
        Some(Seq::empty())
    } else {
        match oys(amat, q, b, s, st, x, k - 1) {
            Option::None => Option::None,
            Option::Some(pre) => match oy_at(amat[k - 1], q[k - 1], b[k - 1], s[k - 1], st, x, x[k - 1]) {
                Option::None => Option::None,
                Option::Some(yi) => Some(pre.push(yi)),
            },
        }
    }
}

/// One full iteration: the descent step on every coordinate, then the
/// projection onto the constraint hyperplane.
pub open spec fn ostep_full(
    amat: Seq<Seq<Frac>>,
    q: Seq<Frac>,
    b: Seq<Frac>,
    s: Seq<Frac>,
    an: Seq<Frac>,
    e: Frac,
    st: Frac,
    x: Seq<Frac>,
) -> Option<Seq<Frac>> {
    match oys(amat, q, b, s, st, x, x.len() as int) {
        Option::None => Option::None,
        Option::Some(y) => oproject(y, an, e),
    }
}

/// The iterate after `k` iterations from `x0`.
pub open spec fn oiter(
    amat: Seq<Seq<Frac>>,
    q: Seq<Frac>,
    b: Seq<Frac>,
    s: Seq<Frac>,
    an: Seq<Frac>,
    e: Frac,
    rule: StepRule,
    x0: Seq<Frac>,
    k: nat,
) -> Option<Seq<Frac>>
    decreases k,
{
    if k == 0 {
        Some(x0)
    } else {
        match oiter(amat, q, b, s, an, e, rule, x0, (k - 1) as nat) {
            Option::None => Option::None,
            Option::Some(x) => match ostep_size(rule, (k - 1) as nat) {
                Option::None => Option::None,
                Option::Some(st) => ostep_full(amat, q, b, s, an, e, st, x),
            },
        }
    }
}

/// All lengths match the dimension of `x0`.
pub open spec fn dims_ok(
    amat: Seq<Seq<Frac>>,
    q: Seq<Frac>,
    b: Seq<Frac>,
    s: Seq<Frac>,
    x0: Seq<Frac>,
    an: Seq<Frac>,
) -> bool {
    let n = x0.len();
    &&& amat.len() == n
    &&& forall|i: int| 0 <= i < n ==> (#[trigger] amat[i]).len() == n
    &&& q.len() == n
    &&& b.len() == n
    &&& s.len() == n
    &&& an.len() == n
}

/// What the solver returns, as a function of its inputs alone: the errors in
/// the order they are checked, else the iterate after `max_iter` iterations.
pub open spec fn psd_spec(
    amat: Seq<Seq<Frac>>,
    q: Seq<Frac>,
    b: Seq<Frac>,
    s: Seq<Frac>,
    x0: Seq<Frac>,
    an: Seq<Frac>,
    e: Frac,
    rule: StepRule,
    max_iter: nat,
) -> Result<Seq<Frac>, SolveError> {
    if !dims_ok(amat, q, b, s, x0, an) {
        Err(SolveError::DimensionMismatch)
    } else {
        match odot(an, an) {
            Option::None => Err(SolveError::Overflow),
            Option::Some(aa) => if aa.n == 0 {
                Err(SolveError::DegenerateConstraint)
            } else {
                match oiter(amat, q, b, s, an, e, rule, x0, max_iter) {
                    Option::None => Err(SolveError::Overflow),
                    Option::Some(xs) => Ok(xs),
                }
            },
        }
    }
}

/// Once a prefix of the descent step fails, the whole step fails.
proof fn lemma_oys_none_extend(
    amat: Seq<Seq<Frac>>,
    q: Seq<Frac>,
    b: Seq<Frac>,
    s: Seq<Frac>,
    st: Frac,
    x: Seq<Frac>,
    k: int,
    m: int,
)
    requires
        0 <= k <= m,
        oys(amat, q, b, s, st, x, k) is None,
    ensures
        oys(amat, q, b, s, st, x, m) is None,
    decreases m - k,
{
    if m > k {
        lemma_oys_none_extend(amat, q, b, s, st, x, k, m - 1);
    }
}

/// Once the iteration fails, it stays failed at every later count.
proof fn lemma_oiter_none_extend(
    amat: Seq<Seq<Frac>>,
    q: Seq<Frac>,
    b: Seq<Frac>,
    s: Seq<Frac>,
    an: Seq<Frac>,
    e: Frac,
    rule: StepRule,
    x0: Seq<Frac>,
    k1: nat,
    k2: nat,
)
    requires
        k1 <= k2,
        oiter(amat, q, b, s, an, e, rule, x0, k1) is None,
    ensures
        oiter(amat, q, b, s, an, e, rule, x0, k2) is None,
    decreases k2 - k1,
{
    if k2 > k1 {
        lemma_oiter_none_extend(amat, q, b, s, an, e, rule, x0, k1, (k2 - 1) as nat);
    }
}

/// An exact copy of a vector of scalars.
fn copy_vec(v: &Vec<Rat>) -> (r: Vec<Rat>)
    ensures
        r@ == v@,
{
    let mut r: Vec<Rat> = Vec::new();
    let mut i: usize = 0;
    while i < v.len()
        invariant
            0 <= i <= v@.len(),
            r@ == v@.take(i as int),
        decreases v@.len() - i,
    {
        r.push(v[i]);
        proof {
            assert(v@.take(i + 1) =~= v@.take(i as int).push(v@[i as int]));
        }
        i += 1;
    }
    proof {
        assert(v@.take(v@.len() as int) =~= v@);
    }
    r
}

/// One full iteration of the solver on the current iterate `x`.
fn step_once(
    amat: &Vec<Vec<Rat>>,
    q: &Vec<Rat>,
    b: &Vec<Rat>,
    s: &Vec<Rat>,
    an: &Vec<Rat>,
    e: &Rat,
    st: &Rat,
    x: &Vec<Rat>,
) -> (r: Option<Vec<Rat>>)
    requires
        amat@.len() == x@.len(),
        forall|i: int| 0 <= i < amat@.len() ==> (#[trigger] amat@[i])@.len() == x@.len(),
        q@.len() == x@.len(),
        b@.len() == x@.len(),
        s@.len() == x@.len(),
        an@.len() == x@.len(),
        mat_wf(amat@),
        vec_wf(q@),
        vec_wf(b@),
        vec_wf(s@),
        vec_wf(an@),
        vec_wf(x@),
        e.wf(),
        st.wf(),
    ensures
        match r {
            Some(v) => ostep_full(
                mfrs(amat@),
                frs(q@),
                frs(b@),
                frs(s@),
                frs(an@),
                e@,
                st@,
                frs(x@),
            ) == Some(frs(v@)) && vec_wf(v@) && v@.len() == x@.len(),
            None => ostep_full(
                mfrs(amat@),
                frs(q@),
                frs(b@),
                frs(s@),
                frs(an@),
                e@,
                st@,
                frs(x@),
            ) is None,
        },
{
    let ghost fm = mfrs(amat@);
    let ghost fq = frs(q@);
    let ghost fb = frs(b@);
    let ghost fs = frs(s@);
    let ghost fan = frs(an@);
    let ghost fx = frs(x@);
    let n = x.len();
    let mut y: Vec<Rat> = Vec::new();
    let mut i: usize = 0;
    while i < n
        invariant
            0 <= i <= n,
            n == x@.len(),
            amat@.len() == n,
            forall|j: int| 0 <= j < amat@.len() ==> (#[trigger] amat@[j])@.len() == n,
            q@.len() == n,
            b@.len() == n,
            s@.len() == n,
            mat_wf(amat@),
            vec_wf(q@),
            vec_wf(b@),
            vec_wf(s@),
            vec_wf(x@),
            st.wf(),
            fm == mfrs(amat@),
            fq == frs(q@),
            fb == frs(b@),
            fs == frs(s@),
            fx == frs(x@),
            y@.len() == i,
            oys(fm, fq, fb, fs, st@, fx, i as int) == Some(frs(y@)),
            vec_wf(y@),
        decreases n - i,
    {
        let yi_opt = compute_y_at(amat, q, b, s, st, x, i);
        let yi = match yi_opt {
            Some(v) => v,
            None => {
                proof {
                    lemma_oys_none_extend(fm, fq, fb, fs, st@, fx, i + 1, fx.len() as int);
                }
                return None;
            },
        };
        proof {
            lemma_frs_push(y@, yi);
        }
        y.push(yi);
        i += 1;
    }
    let r = project_onto_hyperplane(&y, an, e);
    match r {
        Some(v) => Some(v),
        None => None,
    }
}

/// The candidate coordinate yᵢ of one descent step.
fn compute_y_at(
    amat: &Vec<Vec<Rat>>,
    q: &Vec<Rat>,
    b: &Vec<Rat>,
    s: &Vec<Rat>,
    st: &Rat,
    x: &Vec<Rat>,
    i: usize,
) -> (r: Option<Rat>)
    requires
        i < x@.len(),
        amat@.len() == x@.len(),
        amat@[i as int]@.len() == x@.len(),
        q@.len() == x@.len(),
        b@.len() == x@.len(),
        s@.len() == x@.len(),
        mat_wf(amat@),
        vec_wf(q@),
        vec_wf(b@),
        vec_wf(s@),
        vec_wf(x@),
        st.wf(),
    ensures
        match r {
            Some(rt) => oy_at(
                mfrs(amat@)[i as int],
                frs(q@)[i as int],
                frs(b@)[i as int],
                frs(s@)[i as int],
                st@,
                frs(x@),
                frs(x@)[i as int],
            ) == Some(rt@) && rt.wf(),
            None => oy_at(
                mfrs(amat@)[i as int],
                frs(q@)[i as int],
                frs(b@)[i as int],
                frs(s@)[i as int],
                st@,
                frs(x@),
                frs(x@)[i as int],
            ) is None,
        },
{
    let dp = match dot(&amat[i], x) {
        Some(v) => v,
        None => {
            return None;
        },
    };
    let gr = match dp.checked_add(&q[i]) {
        Some(v) => v,
        None => {
            return None;
        },
    };
    let lft = match b[i].checked_sub(&x[i]) {
        Some(v) => v,
        None => {
            return None;
        },
    };
    let rgt = match x[i].checked_sub(&s[i]) {
        Some(v) => v,
        None => {
            return None;
        },
    };
    let sg = lft.max_r(&rgt);
    let tot = match gr.checked_add(&sg) {
        Some(v) => v,
        None => {
            return None;
        },
    };
    let dlt = match st.checked_mul(&tot) {
        Some(v) => v,
        None => {
            return None;
        },
    };
    x[i].checked_sub(&dlt)
}

/// Run `max_iter` iterations of projected subgradient descent from `x0`.
///
/// Validation happens before any computation: every length must match the
/// dimension of `x0`, and the hyperplane normal must have aᵀa ≠ 0. With
/// `max_iter == 0` the start point is returned verbatim, not projected.
pub fn projected_subgradient_descent(
    amat: &Vec<Vec<Rat>>,
    q: &Vec<Rat>,
    b: &Vec<Rat>,
    s: &Vec<Rat>,
    x0: &Vec<Rat>,
    max_iter: usize,
    step: &StepRule,
    a_hyperplane: &Vec<Rat>,
    e: &Rat,
) -> (r: Result<Vec<Rat>, SolveError>)
    requires
        mat_wf(amat@),
        vec_wf(q@),
        vec_wf(b@),
        vec_wf(s@),
        vec_wf(x0@),
        vec_wf(a_hyperplane@),
        e.wf(),
        rule_wf(*step),
    ensures
        ({
            let m = psd_spec(
                mfrs(amat@),
                frs(q@),
                frs(b@),
                frs(s@),
                frs(x0@),
                frs(a_hyperplane@),
                e@,
                *step,
                max_iter as nat,
            );
            match r {
                Ok(v) => m == Ok::<Seq<Frac>, SolveError>(frs(v@)) && vec_wf(v@) && v@.len()
                    == x0@.len(),
                Err(er) => m == Err::<Seq<Frac>, SolveError>(er),
            }
        }),
{
    let ghost fm = mfrs(amat@);
    let ghost fq = frs(q@);
    let ghost fb = frs(b@);
    let ghost fs = frs(s@);
    let ghost fx0 = frs(x0@);
    let ghost fan = frs(a_hyperplane@);
    let n = x0.len();
    if amat.len() != n || q.len() != n || b.len() != n || s.len() != n || a_hyperplane.len() != n {
        return Err(SolveError::DimensionMismatch);
    }
    let mut i: usize = 0;
    while i < n
        invariant
            0 <= i <= n,
            n == x0@.len(),
            amat@.len() == n,
            fm == mfrs(amat@),
            forall|j: int| 0 <= j < i ==> (#[trigger] amat@[j])@.len() == n,
        decreases n - i,
    {
        if amat[i].len() != n {
            proof {
                assert(mfrs(amat@)[i as int].len() != frs(x0@).len());
            }
            return Err(SolveError::DimensionMismatch);
        }
        i += 1;
    }
    let aa = match dot(a_hyperplane, a_hyperplane) {
        Some(v) => v,
        None => {
            return Err(SolveError::Overflow);
        },
    };
    if aa.is_zero() {
        return Err(SolveError::DegenerateConstraint);
    }
    let mut x = copy_vec(x0);
    let mut k: usize = 0;
    while k < max_iter
        invariant
            0 <= k <= max_iter,
            n == x0@.len(),
            amat@.len() == n,
            forall|j: int| 0 <= j < amat@.len() ==> (#[trigger] amat@[j])@.len() == n,
            q@.len() == n,
            b@.len() == n,
            s@.len() == n,
            a_hyperplane@.len() == n,
            mat_wf(amat@),
            vec_wf(q@),
            vec_wf(b@),
            vec_wf(s@),
            vec_wf(x0@),
            vec_wf(a_hyperplane@),
            e.wf(),
            rule_wf(*step),
            fm == mfrs(amat@),
            fq == frs(q@),
            fb == frs(b@),
            fs == frs(s@),
            fx0 == frs(x0@),
            fan == frs(a_hyperplane@),
            odot(fan, fan) == Some(aa@),
            aa@.n != 0,
            x@.len() == n,
            vec_wf(x@),
            oiter(fm, fq, fb, fs, fan, e@, *step, fx0, k as nat) == Some(frs(x@)),
        decreases max_iter - k,
    {
        let st = match step_size(step, k) {
            Some(v) => v,
            None => {
                proof {
                    lemma_oiter_none_extend(
                        fm,
                        fq,
                        fb,
                        fs,
                        fan,
                        e@,
                        *step,
                        fx0,
                        (k + 1) as nat,
                        max_iter as nat,
                    );
                }
                return Err(SolveError::Overflow);
            },
        };
        let nx = match step_once(amat, q, b, s, a_hyperplane, e, &st, &x) {
            Some(v) => v,
            None => {
                proof {
                    lemma_oiter_none_extend(
                        fm,
                        fq,
                        fb,
                        fs,
                        fan,
                        e@,
                        *step,
                        fx0,
                        (k + 1) as nat,
                        max_iter as nat,
                    );
                }
                return Err(SolveError::Overflow);
            },
        };
        x = nx;
        k += 1;
    }
    Ok(x)
}

} // verus!
