//! Vector operations over rational scalars: dot products, elementwise
//! maxima, and the orthogonal projection onto a hyperplane `{x : aᵀx = E}`.

use vstd::prelude::*;
use crate::rational::{
    fadd, fits, fmax, fmul, fwf, fzero, oadd, odiv, omul, osub, Frac, Rat,
};

verus! {

/// The fractions denoted by a sequence of scalars.
pub open spec fn frs(s: Seq<Rat>) -> Seq<Frac> {
    Seq::new(s.len(), |i: int| s[i]@)
}

/// Every fraction in the sequence has a positive denominator.
pub open spec fn all_fwf(s: Seq<Frac>) -> bool {
    forall|i: int| 0 <= i < s.len() ==> fwf(#[trigger] s[i])
}

/// Every fraction in the sequence is representable.
pub open spec fn all_fits(s: Seq<Frac>) -> bool {
    forall|i: int| 0 <= i < s.len() ==> fits(#[trigger] s[i])
}

/// Every scalar in the vector is representable.
pub open spec fn vec_wf(s: Seq<Rat>) -> bool {
    forall|i: int| 0 <= i < s.len() ==> (#[trigger] s[i]).wf()
}

pub proof fn lemma_vec_wf_fits(s: Seq<Rat>)
    requires
        vec_wf(s),
    ensures
        all_fits(frs(s)),
        all_fwf(frs(s)),
{
    assert forall|i: int| 0 <= i < frs(s).len() implies fits(#[trigger] frs(s)[i]) by {
        assert(s[i].wf());
    }
    assert forall|i: int| 0 <= i < frs(s).len() implies fwf(#[trigger] frs(s)[i]) by {
        assert(s[i].wf());
    }
}

/// The exact dot product Σᵢ aᵢ·xᵢ.
pub open spec fn fdot(a: Seq<Frac>, x: Seq<Frac>) -> Frac
    decreases a.len(),
{
    if a.len() == 0 {
        fzero()
    } else {
        fadd(fdot(a.drop_last(), x.drop_last()), fmul(a.last(), x.last()))
    }
}

/// The dot product as the solver computes it: each partial result reduced and
/// checked for representability; `None` once any step leaves the `i64` range.
pub open spec fn odot(a: Seq<Frac>, x: Seq<Frac>) -> Option<Frac>
    decreases a.len(),
{
    if a.len() == 0 {
        Some(fzero())
    } else {
        match odot(a.drop_last(), x.drop_last()) {
            Option::None => Option::None,
            Option::Some(acc) => match omul(a.last(), x.last()) {
                Option::None => Option::None,
                Option::Some(p) => oadd(acc, p),
            },
        }
    }
}

/// The projected components `x + t·a`, first `k` of them.
pub open spec fn oprojs(x: Seq<Frac>, t: Frac, a: Seq<Frac>, k: int) -> Option<Seq<Frac>>
    decreases k,
{
    if k <= 0 {
        Some(Seq::empty())
    } else {
        match oprojs(x, t, a, k - 1) {
            Option::None => Option::None,
            Option::Some(pre) => match omul(t, a[k - 1]) {
                Option::None => Option::None,
                Option::Some(dx) => match oadd(x[k - 1], dx) {
                    Option::None => Option::None,
                    Option::Some(zi) => Some(pre.push(zi)),
                },
            },
        }
    }
}

/// The orthogonal projection of `x` onto `{z : aᵀz = e}`, as computed:
/// `t = (e − aᵀx) / (aᵀa)`, then `x + t·a` componentwise. `None` when a step
/// is unrepresentable or `aᵀa` reduces to zero.
pub open spec fn oproject(x: Seq<Frac>, a: Seq<Frac>, e: Frac) -> Option<Seq<Frac>> {
    match odot(a, x) {
        Option::None => Option::None,
        Option::Some(ax) => match odot(a, a) {
            Option::None => Option::None,
            Option::Some(aa) => match osub(e, ax) {
                Option::None => Option::None,
                Option::Some(diff) => match odiv(diff, aa) {
                    Option::None => Option::None,
                    Option::Some(t) => oprojs(x, t, a, x.len() as int),
                },
            },
        },
    }
}

pub proof fn lemma_take_succ(s: Seq<Frac>, m: int)
    requires
        1 <= m <= s.len(),
    ensures
        s.take(m).drop_last() == s.take(m - 1),
        s.take(m).last() == s[m - 1],
{
    assert(s.take(m).drop_last() =~= s.take(m - 1));
}

pub proof fn lemma_take_all(s: Seq<Frac>)
    ensures
        s.take(s.len() as int) == s,
{
    assert(s.take(s.len() as int) =~= s);
}

/// Once a prefix of the checked dot product fails, the whole product fails.
pub proof fn lemma_odot_none_extend(a: Seq<Frac>, x: Seq<Frac>, k: int, m: int)
    requires
        0 <= k <= m <= a.len(),
        a.len() == x.len(),
        odot(a.take(k), x.take(k)) is None,
    ensures
        odot(a.take(m), x.take(m)) is None,
    decreases m - k,
{
    if m > k {
        lemma_odot_none_extend(a, x, k, m - 1);
        lemma_take_succ(a, m);
        lemma_take_succ(x, m);
    }
}

/// Once a prefix of the projection fails, the whole projection fails.
pub proof fn lemma_oprojs_none_extend(x: Seq<Frac>, t: Frac, a: Seq<Frac>, k: int, m: int)
    requires
        0 <= k <= m,
        oprojs(x, t, a, k) is None,
    ensures
        oprojs(x, t, a, m) is None,
    decreases m - k,
{
    if m > k {
        lemma_oprojs_none_extend(x, t, a, k, m - 1);
    }
}

pub proof fn lemma_frs_push(s: Seq<Rat>, r: Rat)
    ensures
        frs(s.push(r)) == frs(s).push(r@),
{
    assert(frs(s.push(r)) =~= frs(s).push(r@));
}

pub proof fn lemma_frs_take(s: Seq<Rat>, k: int)
    requires
        0 <= k <= s.len(),
    ensures
        frs(s).take(k) == frs(s.take(k)),
{
    assert(frs(s).take(k) =~= frs(s.take(k)));
}

/// The checked dot product of two vectors.
pub fn dot(a: &Vec<Rat>, x: &Vec<Rat>) -> (r: Option<Rat>)
    requires
        a@.len() == x@.len(),
        vec_wf(a@),
        vec_wf(x@),
    ensures
        match r {
            Some(rt) => odot(frs(a@), frs(x@)) == Some(rt@) && rt.wf(),
            None => odot(frs(a@), frs(x@)) is None,
        },
{
    let ghost fa = frs(a@);
    let ghost fx = frs(x@);
    let mut acc = Rat::zero();
    let mut i: usize = 0;
    while i < a.len()
        invariant
            0 <= i <= a@.len(),
            a@.len() == x@.len(),
            vec_wf(a@),
            vec_wf(x@),
            fa == frs(a@),
            fx == frs(x@),
            odot(fa.take(i as int), fx.take(i as int)) == Some(acc@),
            acc.wf(),
        decreases a@.len() - i,
    {
        proof {
            lemma_take_succ(fa, i + 1);
            lemma_take_succ(fx, i + 1);
        }
        let p = match a[i].checked_mul(&x[i]) {
            Some(v) => v,
            None => {
                proof {
                    lemma_odot_none_extend(fa, fx, i + 1, fa.len() as int);
                    lemma_take_all(fa);
                    lemma_take_all(fx);
                }
                return None;
            },
        };
        let next = match acc.checked_add(&p) {
            Some(v) => v,
            None => {
                proof {
                    lemma_odot_none_extend(fa, fx, i + 1, fa.len() as int);
                    lemma_take_all(fa);
                    lemma_take_all(fx);
                }
                return None;
            },
        };
        acc = next;
        i += 1;
    }
    proof {
        lemma_take_all(fa);
        lemma_take_all(fx);
    }
    Some(acc)
}

/// The componentwise maximum of two vectors.
pub fn max_elementwise(a: &Vec<Rat>, b: &Vec<Rat>) -> (r: Vec<Rat>)
    requires
        a@.len() == b@.len(),
        vec_wf(a@),
        vec_wf(b@),
    ensures
        r@.len() == a@.len(),
        forall|i: int| 0 <= i < r@.len() ==> (#[trigger] r@[i])@ == fmax(a@[i]@, b@[i]@),
        vec_wf(r@),
{
    let mut r: Vec<Rat> = Vec::new();
    let mut i: usize = 0;
    while i < a.len()
        invariant
            0 <= i <= a@.len(),
            a@.len() == b@.len(),
            vec_wf(a@),
            vec_wf(b@),
            r@.len() == i,
            forall|j: int| 0 <= j < i ==> (#[trigger] r@[j])@ == fmax(a@[j]@, b@[j]@),
            vec_wf(r@),
        decreases a@.len() - i,
    {
        r.push(a[i].max_r(&b[i]));
        i += 1;
    }
    r
}

/// The orthogonal projection of `x` onto the hyperplane `{z : aᵀz = e}`:
/// `t = (e − aᵀx) / (aᵀa)`, then `x + t·a`. `None` when a step is
/// unrepresentable or when `aᵀa` reduces to zero.
pub fn project_onto_hyperplane(x: &Vec<Rat>, a: &Vec<Rat>, e: &Rat) -> (r: Option<Vec<Rat>>)
    requires
        a@.len() == x@.len(),
        vec_wf(a@),
        vec_wf(x@),
        e.wf(),
    ensures
        match r {
            Some(v) => oproject(frs(x@), frs(a@), e@) == Some(frs(v@)) && vec_wf(v@) && v@.len()
                == x@.len(),
            None => oproject(frs(x@), frs(a@), e@) is None,
        },
{
    let ghost fa = frs(a@);
    let ghost fx = frs(x@);
    let ax = match dot(a, x) {
        Some(v) => v,
        None => {
            return None;
        },
    };
    let aa = match dot(a, a) {
        Some(v) => v,
        None => {
            return None;
        },
    };
    let diff = match e.checked_sub(&ax) {
        Some(v) => v,
        None => {
            return None;
        },
    };
    let t = match diff.checked_div(&aa) {
        Some(v) => v,
        None => {
            return None;
        },
    };
    let mut r: Vec<Rat> = Vec::new();
    let mut i: usize = 0;
    while i < x.len()
        invariant
            0 <= i <= x@.len(),
            a@.len() == x@.len(),
            vec_wf(a@),
            vec_wf(x@),
            fa == frs(a@),
            fx == frs(x@),
            odot(fa, fx) == Some(ax@),
            odot(fa, fa) == Some(aa@),
            osub(e@, ax@) == Some(diff@),
            odiv(diff@, aa@) == Some(t@),
            t.wf(),
            r@.len() == i,
            oprojs(fx, t@, fa, i as int) == Some(frs(r@)),
            vec_wf(r@),
        decreases x@.len() - i,
    {
        let dx = match t.checked_mul(&a[i]) {
            Some(v) => v,
            None => {
                proof {
                    lemma_oprojs_none_extend(fx, t@, fa, i + 1, fx.len() as int);
                }
                return None;
            },
        };
        let zi = match x[i].checked_add(&dx) {
            Some(v) => v,
            None => {
                proof {
                    lemma_oprojs_none_extend(fx, t@, fa, i + 1, fx.len() as int);
                }
                return None;
            },
        };
        proof {
            lemma_frs_push(r@, zi);
        }
        r.push(zi);
        i += 1;
    }
    Some(r)
}

} // verus!
