//! Exact rational scalars: the number type the solver iterates on.
//!
//! A `Rat` is a fraction of two `i64`s with a positive denominator. Every
//! arithmetic operation reduces its result by the greatest common divisor and
//! reports `None` when the reduced fraction does not fit the `i64` range, so
//! verified callers never overflow and never panic.

use vstd::prelude::*;
use vstd::arithmetic::div_mod::{
    lemma_div_multiples_vanish, lemma_fundamental_div_mod, lemma_mod_multiples_basic,
};

verus! {

/// A rational number in mathematical form: numerator `n` over denominator `d`.
pub ghost struct Frac {
    pub n: int,
    pub d: int,
}

/// A fraction is well formed when its denominator is positive.
pub open spec fn fwf(x: Frac) -> bool {
    1 <= x.d
}

/// Equality of the rational values `x.n / x.d` and `y.n / y.d`.
pub open spec fn feq(x: Frac, y: Frac) -> bool {
    x.n * y.d == y.n * x.d
}

/// `x <= y` as rational values (meaningful for well-formed fractions).
pub open spec fn fle(x: Frac, y: Frac) -> bool {
    x.n * y.d <= y.n * x.d
}

/// `x < y` as rational values (meaningful for well-formed fractions).
pub open spec fn flt(x: Frac, y: Frac) -> bool {
    x.n * y.d < y.n * x.d
}

pub open spec fn fzero() -> Frac {
    Frac { n: 0, d: 1 }
}

pub open spec fn fint(k: int) -> Frac {
    Frac { n: k, d: 1 }
}

pub open spec fn fadd(x: Frac, y: Frac) -> Frac {
    Frac { n: x.n * y.d + y.n * x.d, d: x.d * y.d }
}

pub open spec fn fneg(x: Frac) -> Frac {
    Frac { n: -x.n, d: x.d }
}

pub open spec fn fsub(x: Frac, y: Frac) -> Frac {
    fadd(x, fneg(y))
}

pub open spec fn fmul(x: Frac, y: Frac) -> Frac {
    Frac { n: x.n * y.n, d: x.d * y.d }
}

/// The quotient `x / y`, with the sign moved into the numerator so that the
/// denominator stays positive whenever `y.n != 0`.
pub open spec fn fdiv(x: Frac, y: Frac) -> Frac {
    if y.n >= 0 {
        Frac { n: x.n * y.d, d: x.d * y.n }
    } else {
        Frac { n: -(x.n * y.d), d: -(x.d * y.n) }
    }
}

/// The larger of two rational values.
pub open spec fn fmax(x: Frac, y: Frac) -> Frac {
    if fle(x, y) {
        y
    } else {
        x
    }
}

/// `f` divides `x`.
pub open spec fn divides(f: int, x: int) -> bool {
    exists|k: int| x == #[trigger] (f * k)
}

/// Euclid's greatest common divisor.
pub open spec fn gcd(a: nat, b: nat) -> nat
    decreases b,
{
    if b == 0 {
        a
    } else {
        gcd(b, a % b)
    }
}

/// The magnitude of an integer.
pub open spec fn mag(x: int) -> nat {
    if x >= 0 {
        x as nat
    } else {
        (-x) as nat
    }
}

/// The canonical (reduced) form of a well-formed fraction.
pub open spec fn norm(p: Frac) -> Frac {
    if p.d < 1 {
        p
    } else {
        let g = gcd(mag(p.n), p.d as nat);
        if g == 0 {
            p
        } else {
            Frac { n: p.n / (g as int), d: p.d / (g as int) }
        }
    }
}

/// Whether a fraction is representable with `i64` numerator and denominator.
pub open spec fn fits(p: Frac) -> bool {
    &&& -0x7fff_ffff_ffff_ffff <= p.n <= 0x7fff_ffff_ffff_ffff
    &&& 1 <= p.d <= 0x7fff_ffff_ffff_ffff
}

/// The canonical form of `p` when it is representable, `None` otherwise.
/// Every arithmetic operation on `Rat` returns exactly this.
pub open spec fn onorm(p: Frac) -> Option<Frac> {
    if fits(norm(p)) {
        Some(norm(p))
    } else {
        None
    }
}

pub open spec fn oadd(x: Frac, y: Frac) -> Option<Frac> {
    onorm(fadd(x, y))
}

pub open spec fn osub(x: Frac, y: Frac) -> Option<Frac> {
    onorm(fsub(x, y))
}

pub open spec fn omul(x: Frac, y: Frac) -> Option<Frac> {
    onorm(fmul(x, y))
}

/// Division: `None` on a zero divisor or an unrepresentable result.
pub open spec fn odiv(x: Frac, y: Frac) -> Option<Frac> {
    if y.n == 0 {
        None
    } else {
        onorm(fdiv(x, y))
    }
}

/// The gcd of two numbers divides both, and is positive unless both are zero.
pub proof fn lemma_gcd_divides(a: nat, b: nat)
    ensures
        divides(gcd(a, b) as int, a as int),
        divides(gcd(a, b) as int, b as int),
        a > 0 || b > 0 ==> gcd(a, b) >= 1,
    decreases b,
{
    if b == 0 {
        assert(a as int == (a as int) * 1);
        assert(0int == (a as int) * 0);
    } else {
        lemma_gcd_divides(b, a % b);
        let g = gcd(b, a % b) as int;
        let q = a as int / b as int;
        let k1 = choose|k: int| b as int == #[trigger] (g * k);
        let k2 = choose|k: int| (a % b) as int == #[trigger] (g * k);
        lemma_fundamental_div_mod(a as int, b as int);
        assert(a as int == (g * k1) * q + g * k2);
        assert((g * k1) * q + g * k2 == g * (k1 * q + k2)) by (nonlinear_arith);
        assert(a as int == g * (k1 * q + k2));
        assert(divides(g, a as int));
        if g == 0 {
            assert(b as int == 0 * k1);
            assert(b == 0) by (nonlinear_arith)
                requires
                    b as int == 0 * k1,
            ;
        }
    }
}

/// Dividing an exact multiple of `g` by `g` recovers the cofactor.
pub proof fn lemma_div_exact(x: int, g: int)
    requires
        g >= 1,
        divides(g, x),
    ensures
        x == (x / g) * g,
        x % g == 0,
{
    let k = choose|k: int| x == #[trigger] (g * k);
    lemma_mod_multiples_basic(k, g);
    assert(k * g == g * k) by (nonlinear_arith);
    assert(x % g == 0);
    lemma_fundamental_div_mod(x, g);
    assert(x == g * (x / g));
    assert(g * (x / g) == (x / g) * g) by (nonlinear_arith);
}

/// Reducing a well-formed fraction by the gcd keeps its value and keeps the
/// denominator positive.
pub proof fn lemma_norm_feq(p: Frac)
    requires
        fwf(p),
    ensures
        fwf(norm(p)),
        feq(norm(p), p),
        norm(p).n == 0 <==> p.n == 0,
{
    let g = gcd(mag(p.n), p.d as nat) as int;
    lemma_gcd_divides(mag(p.n), p.d as nat);
    assert(g >= 1);
    // g divides p.n, whatever its sign
    let km = choose|k: int| mag(p.n) as int == #[trigger] (g * k);
    if p.n >= 0 {
        assert(p.n == g * km);
    } else {
        assert(p.n == g * (-km)) by (nonlinear_arith)
            requires
                -p.n == g * km,
        ;
    }
    assert(divides(g, p.n));
    lemma_div_exact(p.n, g);
    lemma_div_exact(p.d, g);
    let rn = p.n / g;
    let rd = p.d / g;
    assert(rd >= 1) by (nonlinear_arith)
        requires
            p.d == rd * g,
            p.d >= 1,
            g >= 1,
    ;
    assert(rn * p.d == p.n * rd) by (nonlinear_arith)
        requires
            p.n == rn * g,
            p.d == rd * g,
    ;
    assert(rn == 0 <==> p.n == 0) by (nonlinear_arith)
        requires
            p.n == rn * g,
            g >= 1,
    ;
}

/// A fraction with numerator zero reduces to `0 / 1`.
pub proof fn lemma_norm_zero(p: Frac)
    requires
        fwf(p),
        p.n == 0,
    ensures
        norm(p) == fzero(),
{
    assert(gcd(0, p.d as nat) == gcd(p.d as nat, 0));
    assert(gcd(p.d as nat, 0) == p.d as nat);
    let g = p.d;
    assert(0int / g == 0) by {
        lemma_div_multiples_vanish(0, g);
        assert(g * 0 == 0) by (nonlinear_arith);
    }
    assert(p.d / g == 1) by {
        lemma_div_multiples_vanish(1, g);
        assert(g * 1 == g) by (nonlinear_arith);
    }
}

/// An exact rational scalar: numerator over positive denominator, both `i64`.
#[derive(Clone, Copy, PartialEq, Eq, Structural, Debug)]
pub struct Rat {
    num: i64,
    den: i64,
}

impl View for Rat {
    type V = Frac;

    closed spec fn view(&self) -> Frac {
        Frac { n: self.num as int, d: self.den as int }
    }
}

pub proof fn lemma_mul_fits_bound(x: int, y: int)
    by (nonlinear_arith)
    requires
        -0x7fff_ffff_ffff_ffff <= x <= 0x7fff_ffff_ffff_ffff,
        -0x7fff_ffff_ffff_ffff <= y <= 0x7fff_ffff_ffff_ffff,
    ensures
        -(0x7fff_ffff_ffff_ffff * 0x7fff_ffff_ffff_ffff) <= x * y
            <= 0x7fff_ffff_ffff_ffff * 0x7fff_ffff_ffff_ffff,
{
}

pub proof fn lemma_mul_pos_bound(x: int, y: int)
    by (nonlinear_arith)
    requires
        1 <= x <= 0x7fff_ffff_ffff_ffff,
        1 <= y <= 0x7fff_ffff_ffff_ffff,
    ensures
        1 <= x * y <= 0x7fff_ffff_ffff_ffff * 0x7fff_ffff_ffff_ffff,
{
}

/// Euclid's algorithm, executable form.
fn gcd_u128(a0: u128, b0: u128) -> (g: u128)
    ensures
        g as nat == gcd(a0 as nat, b0 as nat),
{
    let mut a = a0;
    let mut b = b0;
    while b != 0
        invariant
            gcd(a as nat, b as nat) == gcd(a0 as nat, b0 as nat),
        decreases b,
    {
        let r = a % b;
        a = b;
        b = r;
    }
    a
}

/// Reduce `n / d` to canonical form, or report that it does not fit `i64`.
fn normalize(n: i128, d: i128) -> (r: Option<Rat>)
    requires
        1 <= d,
        -0x7fff_ffff_ffff_ffff_ffff_ffff_ffff_ffff <= n,
    ensures
        match r {
            Some(rt) => onorm(Frac { n: n as int, d: d as int }) == Some(rt@),
            None => onorm(Frac { n: n as int, d: d as int }) is None,
        },
{
    let p = Ghost(Frac { n: n as int, d: d as int });
    let un: u128 = if n < 0 {
        (-n) as u128
    } else {
        n as u128
    };
    let ud: u128 = d as u128;
    assert(un as nat == mag(p@.n));
    assert(ud as nat == p@.d);
    let g = gcd_u128(un, ud);
    proof {
        lemma_gcd_divides(un as nat, ud as nat);
    }
    let rn = un / g;
    let rd = ud / g;
    let gg = Ghost(g as int);
    proof {
        // the reduced magnitudes are exactly the components of norm(p)
        let km = choose|k: int| un as int == #[trigger] (gg@ * k);
        if p@.n < 0 {
            assert(p@.n == gg@ * (-km)) by (nonlinear_arith)
                requires
                    -p@.n == gg@ * km,
            ;
        }
        assert(divides(gg@, p@.n));
        lemma_div_exact(p@.n, gg@);
        lemma_div_exact(p@.d, gg@);
        if p@.n < 0 {
            // (-un)/g == -(un/g) for exact division
            lemma_div_exact(un as int, gg@);
            let q = un as int / gg@;
            lemma_div_multiples_vanish(-q, gg@);
            assert(gg@ * (-q) == -(q * gg@)) by (nonlinear_arith);
            assert(p@.n / gg@ == -q);
        }
        assert(rn as int == if p@.n >= 0 { p@.n / gg@ } else { -(p@.n / gg@) });
        assert(rd as int == p@.d / gg@);
        assert(rd >= 1) by (nonlinear_arith)
            requires
                p@.d == (p@.d / gg@) * gg@,
                p@.d >= 1,
                gg@ >= 1,
                rd as int == p@.d / gg@,
        ;
    }
    if rn <= 0x7fff_ffff_ffff_ffff && rd <= 0x7fff_ffff_ffff_ffff {
        let num: i64 = if n < 0 {
            -(rn as i64)
        } else {
            rn as i64
        };
        Some(Rat { num, den: rd as i64 })
    } else {
        None
    }
}

impl Rat {
    /// Representability of the fraction this scalar denotes.
    pub open spec fn wf(self) -> bool {
        fits(self@)
    }

    /// The fraction `num / den`.
    pub fn new(num: i64, den: i64) -> (r: Rat)
        requires
            1 <= den,
            -0x7fff_ffff_ffff_ffff <= num,
        ensures
            r@ == (Frac { n: num as int, d: den as int }),
            r.wf(),
    {
        Rat { num, den }
    }

    /// The integer `v` as a rational.
    pub fn from_int(v: i64) -> (r: Rat)
        requires
            -0x7fff_ffff_ffff_ffff <= v,
        ensures
            r@ == fint(v as int),
            r.wf(),
    {
        Rat { num: v, den: 1 }
    }

    /// Zero.
    pub fn zero() -> (r: Rat)
        ensures
            r@ == fzero(),
            r.wf(),
    {
        Rat { num: 0, den: 1 }
    }

    /// The numerator.
    pub fn num(&self) -> (r: i64)
        ensures
            r as int == self@.n,
    {
        self.num
    }

    /// The denominator.
    pub fn den(&self) -> (r: i64)
        ensures
            r as int == self@.d,
    {
        self.den
    }

    /// Exact sum, reduced; `None` when it leaves the `i64` range.
    pub fn checked_add(&self, other: &Rat) -> (r: Option<Rat>)
        requires
            self.wf(),
            other.wf(),
        ensures
            match r {
                Some(rt) => oadd(self@, other@) == Some(rt@) && rt.wf(),
                None => oadd(self@, other@) is None,
            },
    {
        proof {
            lemma_mul_fits_bound(self@.n, other@.d);
            lemma_mul_fits_bound(other@.n, self@.d);
            lemma_mul_pos_bound(self@.d, other@.d);
        }
        let n = (self.num as i128) * (other.den as i128) + (other.num as i128) * (self.den as i128);
        let d = (self.den as i128) * (other.den as i128);
        normalize(n, d)
    }

    /// Exact difference, reduced; `None` when it leaves the `i64` range.
    pub fn checked_sub(&self, other: &Rat) -> (r: Option<Rat>)
        requires
            self.wf(),
            other.wf(),
        ensures
            match r {
                Some(rt) => osub(self@, other@) == Some(rt@) && rt.wf(),
                None => osub(self@, other@) is None,
            },
    {
        proof {
            lemma_mul_fits_bound(self@.n, other@.d);
            lemma_mul_fits_bound(other@.n, self@.d);
            lemma_mul_pos_bound(self@.d, other@.d);
        }
        let n = (self.num as i128) * (other.den as i128) - (other.num as i128) * (self.den as i128);
        let d = (self.den as i128) * (other.den as i128);
        assert(n as int == fsub(self@, other@).n) by (nonlinear_arith)
            requires
                n as int == self@.n * other@.d - other@.n * self@.d,
                fsub(self@, other@).n == self@.n * other@.d + (-other@.n) * self@.d,
        ;
        normalize(n, d)
    }

    /// Exact product, reduced; `None` when it leaves the `i64` range.
    pub fn checked_mul(&self, other: &Rat) -> (r: Option<Rat>)
        requires
            self.wf(),
            other.wf(),
        ensures
            match r {
                Some(rt) => omul(self@, other@) == Some(rt@) && rt.wf(),
                None => omul(self@, other@) is None,
            },
    {
        proof {
            lemma_mul_fits_bound(self@.n, other@.n);
            lemma_mul_pos_bound(self@.d, other@.d);
        }
        let n = (self.num as i128) * (other.num as i128);
        let d = (self.den as i128) * (other.den as i128);
        normalize(n, d)
    }

    /// Exact quotient, reduced; `None` on a zero divisor or when the result
    /// leaves the `i64` range.
    pub fn checked_div(&self, other: &Rat) -> (r: Option<Rat>)
        requires
            self.wf(),
            other.wf(),
        ensures
            match r {
                Some(rt) => odiv(self@, other@) == Some(rt@) && rt.wf(),
                None => odiv(self@, other@) is None,
            },
    {
        if other.num == 0 {
            return None;
        }
        proof {
            lemma_mul_fits_bound(self@.n, other@.d);
            lemma_mul_fits_bound(self@.d, other@.n);
        }
        let n0 = (self.num as i128) * (other.den as i128);
        let d0 = (self.den as i128) * (other.num as i128);
        proof {
            if other@.n >= 1 {
                assert(d0 as int >= 1) by (nonlinear_arith)
                    requires
                        d0 as int == self@.d * other@.n,
                        self@.d >= 1,
                        other@.n >= 1,
                ;
            } else {
                assert(d0 as int <= -1) by (nonlinear_arith)
                    requires
                        d0 as int == self@.d * other@.n,
                        self@.d >= 1,
                        other@.n <= -1,
                ;
            }
        }
        let mut n = n0;
        let mut d = d0;
        if d < 0 {
            n = -n;
            d = -d;
        }
        assert(n as int == fdiv(self@, other@).n && d as int == fdiv(self@, other@).d);
        normalize(n, d)
    }

    /// The larger of the two values (exact, never fails).
    pub fn max_r(&self, other: &Rat) -> (r: Rat)
        requires
            self.wf(),
            other.wf(),
        ensures
            r@ == fmax(self@, other@),
            r.wf(),
    {
        proof {
            lemma_mul_fits_bound(self@.n, other@.d);
            lemma_mul_fits_bound(other@.n, self@.d);
        }
        let lhs = (self.num as i128) * (other.den as i128);
        let rhs = (other.num as i128) * (self.den as i128);
        if lhs <= rhs {
            *other
        } else {
            *self
        }
    }

    /// Strictly-less comparison of the two values (exact).
    pub fn lt(&self, other: &Rat) -> (r: bool)
        requires
            self.wf(),
            other.wf(),
        ensures
            r == flt(self@, other@),
    {
        proof {
            lemma_mul_fits_bound(self@.n, other@.d);
            lemma_mul_fits_bound(other@.n, self@.d);
        }
        (self.num as i128) * (other.den as i128) < (other.num as i128) * (self.den as i128)
    }

    /// Whether the value is zero.
    pub fn is_zero(&self) -> (r: bool)
        ensures
            r == (self@.n == 0),
    {
        self.num == 0
    }

    /// Whether the two scalars denote the same rational value, regardless of
    /// representation.
    pub fn same_value(&self, other: &Rat) -> (r: bool)
        requires
            self.wf(),
            other.wf(),
        ensures
            r == feq(self@, other@),
    {
        proof {
            lemma_mul_fits_bound(self@.n, other@.d);
            lemma_mul_fits_bound(other@.n, self@.d);
        }
        (self.num as i128) * (other.den as i128) == (other.num as i128) * (self.den as i128)
    }
}

} // verus!
