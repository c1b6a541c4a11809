//! Exact rational scalars.
//!
//! The pipeline computes with [`Rat`], a fraction of two `i64` values with a
//! positive denominator. Ghost reasoning happens over [`Frac`], a fraction of
//! unbounded integers; two fractions denote the same rational number exactly
//! when [`feq`] holds (cross multiplication). Every arithmetic operation
//! reduces its result by the greatest common divisor and reports `None` when
//! the reduced result still falls outside the `i64` range.

use vstd::prelude::*;
use vstd::arithmetic::div_mod::{
    lemma_fundamental_div_mod, lemma_div_multiples_vanish,
    lemma_fundamental_div_mod_converse_div, lemma_mod_division_less_than_divisor,
};

verus! {

/// The mathematical value of a rational scalar: an integer numerator and a
/// positive integer denominator, not necessarily in lowest terms.
pub ghost struct Frac {
    pub n: int,
    pub d: int,
}

/// A well-formed fraction has a positive denominator.
pub open spec fn f_wf(a: Frac) -> bool {
    a.d > 0
}

/// The fraction `i / 1`.
pub open spec fn f_int(i: int) -> Frac {
    Frac { n: i, d: 1 }
}

pub open spec fn f_zero() -> Frac {
    f_int(0)
}

pub open spec fn f_one() -> Frac {
    f_int(1)
}

/// `a` and `b` denote the same rational number.
pub open spec fn feq(a: Frac, b: Frac) -> bool {
    a.n * b.d == b.n * a.d
}

/// `a` denotes a strictly smaller rational number than `b`.
pub open spec fn flt(a: Frac, b: Frac) -> bool {
    a.n * b.d < b.n * a.d
}

pub open spec fn fle(a: Frac, b: Frac) -> bool {
    a.n * b.d <= b.n * a.d
}

pub open spec fn fadd(a: Frac, b: Frac) -> Frac {
    Frac { n: a.n * b.d + b.n * a.d, d: a.d * b.d }
}

pub open spec fn fneg(a: Frac) -> Frac {
    Frac { n: -a.n, d: a.d }
}

pub open spec fn fsub(a: Frac, b: Frac) -> Frac {
    fadd(a, fneg(b))
}

pub open spec fn fmul(a: Frac, b: Frac) -> Frac {
    Frac { n: a.n * b.n, d: a.d * b.d }
}

/// The reciprocal, with the sign moved into the numerator so that the
/// denominator stays positive. Well-formed only for `a.n != 0`.
pub open spec fn finv(a: Frac) -> Frac {
    if a.n >= 0 {
        Frac { n: a.d, d: a.n }
    } else {
        Frac { n: -a.d, d: -a.n }
    }
}

pub open spec fn fdiv(a: Frac, b: Frac) -> Frac {
    fmul(a, finv(b))
}

/// The absolute value of a fraction.
pub open spec fn fabs(a: Frac) -> Frac {
    if a.n >= 0 {
        a
    } else {
        fneg(a)
    }
}

/// `a` rounded to the nearest multiple of `1 / s`, halves rounded up.
pub open spec fn fround(a: Frac, s: int) -> Frac {
    Frac { n: (2 * a.n * s + a.d) / (2 * a.d), d: s }
}

/// The absolute value of an integer.
pub open spec fn iabs(x: int) -> int {
    if x >= 0 {
        x
    } else {
        -x
    }
}

/// `c` divides `v` over the integers.
pub open spec fn divides(c: int, v: int) -> bool {
    exists|k: int| v == #[trigger] (c * k)
}

/// An exact rational scalar: numerator and positive denominator in `i64`.
///
/// The numerator stays above `i64::MIN` so that negation never overflows.
#[derive(Clone, Copy, Debug, PartialEq, Eq, Structural)]
pub struct Rat {
    pub n: i64,
    pub d: i64,
}

/// The canonical stored form of zero.
pub open spec fn rat_zero() -> Rat {
    Rat { n: 0, d: 1 }
}

/// The canonical stored form of one.
pub open spec fn rat_one() -> Rat {
    Rat { n: 1, d: 1 }
}

impl View for Rat {
    type V = Frac;

    open spec fn view(&self) -> Frac {
        Frac { n: self.n as int, d: self.d as int }
    }
}

impl Rat {
    pub open spec fn wf(self) -> bool {
        self.d > 0 && self.n > i64::MIN
    }

    /// The fraction `n / d`, stored as given (no reduction).
    pub fn new(n: i64, d: i64) -> (r: Rat)
        requires
            d > 0,
            n > i64::MIN,
        ensures
            r.wf(),
            r@ == (Frac { n: n as int, d: d as int }),
    {
        Rat { n, d }
    }

    pub fn from_int(i: i64) -> (r: Rat)
        requires
            i > i64::MIN,
        ensures
            r.wf(),
            r@ == f_int(i as int),
    {
        Rat { n: i, d: 1 }
    }

    pub fn zero() -> (r: Rat)
        ensures
            r.wf(),
            r == rat_zero(),
            r@ == f_zero(),
    {
        Rat { n: 0, d: 1 }
    }

    pub fn one() -> (r: Rat)
        ensures
            r.wf(),
            r == rat_one(),
            r@ == f_one(),
    {
        Rat { n: 1, d: 1 }
    }

    /// The numerator, exposed for unverified formatting code.
    pub fn num(&self) -> (r: i64)
        ensures
            r as int == self@.n,
    {
        self.n
    }

    /// The denominator, exposed for unverified formatting code.
    pub fn den(&self) -> (r: i64)
        ensures
            r as int == self@.d,
    {
        self.d
    }
}

/// Greatest-common-divisor loop (Euclid). Only divisibility of the result is
/// stated: the result is positive and divides both arguments, which is all
/// value-preserving reduction needs.
fn gcd_u128(a: u128, b: u128) -> (g: u128)
    requires
        b > 0,
    ensures
        g > 0,
        divides(g as int, a as int),
        divides(g as int, b as int),
{
    let mut x: u128 = a;
    let mut y: u128 = b;
    proof {
        assert forall|c: int|
            c > 0 && #[trigger] divides(c, x as int) && #[trigger] divides(c, y as int)
                implies divides(c, a as int) && divides(c, b as int) by {
        }
    }
    while y != 0
        invariant
            x > 0 || y > 0,
            forall|c: int|
                c > 0 && #[trigger] divides(c, x as int) && #[trigger] divides(c, y as int)
                    ==> divides(c, a as int) && divides(c, b as int),
        decreases y,
    {
        let r: u128 = x % y;
        proof {
            let gx = x as int;
            let gy = y as int;
            let gr = r as int;
            lemma_fundamental_div_mod(gx, gy);
            assert forall|c: int|
                c > 0 && #[trigger] divides(c, gy) && #[trigger] divides(c, gr)
                    implies divides(c, gx) by {
                let k1 = choose|k: int| gy == #[trigger] (c * k);
                let k2 = choose|k: int| gr == #[trigger] (c * k);
                assert(gx == gy * (gx / gy) + gr);
                assert(gx == c * (k1 * (gx / gy) + k2)) by (nonlinear_arith)
                    requires
                        gy == c * k1,
                        gr == c * k2,
                        gx == gy * (gx / gy) + gr,
                ;
            }
        }
        x = y;
        y = r;
    }
    proof {
        assert(x as int == (x as int) * 1) by (nonlinear_arith);
        assert(divides(x as int, x as int));
        assert(0int == (x as int) * 0) by (nonlinear_arith);
        assert(divides(x as int, 0int));
    }
    x
}

/// Reduces `n / d` by a common divisor and packs it into a [`Rat`], or
/// reports `None` when the reduced fraction still leaves the `i64` range.
fn norm128(n: i128, d: i128) -> (r: Option<Rat>)
    requires
        d > 0,
        n > i128::MIN,
    ensures
        r matches Some(c) ==> {
            &&& c.wf()
            &&& feq(c@, Frac { n: n as int, d: d as int })
            &&& c@.d <= d as int
            &&& iabs(c@.n) <= iabs(n as int)
        },
        (iabs(n as int) <= 0x7fff_ffff_ffff_ffff && d <= 0x7fff_ffff_ffff_ffff) ==> r matches Some(
            _,
        ),
{
    let neg: bool = n < 0;
    let m: u128 = if neg {
        (-n) as u128
    } else {
        n as u128
    };
    let g: u128 = gcd_u128(m, d as u128);
    let m2: u128 = m / g;
    let d2: u128 = (d as u128) / g;
    proof {
        let gm = m as int;
        let gd = d as int;
        let gg = g as int;
        let k1 = choose|k: int| gm == #[trigger] (gg * k);
        let k2 = choose|k: int| gd == #[trigger] (gg * k);
        lemma_div_multiples_vanish(k1, gg);
        lemma_div_multiples_vanish(k2, gg);
        assert(gm / gg == k1);
        assert(gd / gg == k2);
        assert(k1 >= 0 && k2 > 0) by (nonlinear_arith)
            requires
                gm == gg * k1,
                gd == gg * k2,
                gm >= 0,
                gd > 0,
                gg > 0,
        ;
    }
    proof {
        let gm = m as int;
        let gd = d as int;
        let gg = g as int;
        let k1 = choose|k: int| gm == #[trigger] (gg * k);
        let k2 = choose|k: int| gd == #[trigger] (gg * k);
        assert(k1 <= gm && k2 <= gd) by (nonlinear_arith)
            requires
                gm == gg * k1,
                gd == gg * k2,
                gg >= 1,
                k1 >= 0,
                k2 > 0,
        ;
    }
    if m2 <= (i64::MAX as u128) && d2 <= (i64::MAX as u128) {
        let n2: i64 = if neg {
            -(m2 as i64)
        } else {
            m2 as i64
        };
        let c = Rat { n: n2, d: d2 as i64 };
        proof {
            let gm = m as int;
            let gd = d as int;
            let gg = g as int;
            let gm2 = m2 as int;
            let gd2 = d2 as int;
            // value preservation: (+/- m2) * d == n * d2
            assert((if neg { -gm2 } else { gm2 }) * gd == (n as int) * gd2) by (nonlinear_arith)
                requires
                    gm == gg * gm2,
                    gd == gg * gd2,
                    n as int == if neg { -gm } else { gm },
                    gg > 0,
            ;
        }
        Some(c)
    } else {
        None
    }
}

/// The product of two values no larger in magnitude than `i64::MAX` stays
/// within the square of that bound.
proof fn lemma_prod_bound64(x: int, y: int) by (nonlinear_arith)
    requires
        -0x7fff_ffff_ffff_ffff <= x <= 0x7fff_ffff_ffff_ffff,
        -0x7fff_ffff_ffff_ffff <= y <= 0x7fff_ffff_ffff_ffff,
    ensures
        -0x3fff_ffff_ffff_ffff_0000_0000_0000_0001 <= x * y
            <= 0x3fff_ffff_ffff_ffff_0000_0000_0000_0001,
{
}

/// Floor division with a positive divisor, matching `int` division.
fn floor_div_i128(a: i128, b: i128) -> (q: i128)
    requires
        b > 0,
        a > i128::MIN,
    ensures
        q == a as int / b as int,
{
    if a >= 0 {
        let qa: u128 = (a as u128) / (b as u128);
        proof {
            assert(qa as int == a as int / b as int);
        }
        qa as i128
    } else {
        let t: u128 = (-a) as u128;
        let bu: u128 = b as u128;
        let qm: u128 = (t + bu - 1) / bu;
        proof {
            let gt = t as int;
            let gb = b as int;
            let gq = qm as int;
            lemma_fundamental_div_mod(gt + gb - 1, gb);
            lemma_mod_division_less_than_divisor(gt + gb - 1, gb);
            let r0 = (gt + gb - 1) % gb;
            assert(gq <= gt) by (nonlinear_arith)
                requires
                    gt + gb - 1 == gb * gq + r0,
                    0 <= r0 < gb,
                    gb >= 1,
                    gt >= 1,
            ;
            assert(a as int == gb * (-gq) + (gb - 1 - r0)) by (nonlinear_arith)
                requires
                    gt + gb - 1 == gb * gq + r0,
                    a as int == -gt,
            ;
            lemma_fundamental_div_mod_converse_div(a as int, gb, -gq, gb - 1 - r0);
        }
        -(qm as i128)
    }
}

impl Rat {
    /// Exact sum, reduced; `None` when the result leaves the `i64` range.
    /// Succeeds whenever the unreduced sum already fits, and reduction never
    /// grows the stored numerator or denominator.
    pub fn add(&self, o: &Rat) -> (r: Option<Rat>)
        requires
            self.wf(),
            o.wf(),
        ensures
            r matches Some(c) ==> {
                &&& c.wf()
                &&& feq(c@, fadd(self@, o@))
                &&& c@.d <= self@.d * o@.d
                &&& iabs(c@.n) <= iabs(self@.n * o@.d + o@.n * self@.d)
            },
            (iabs(self@.n * o@.d + o@.n * self@.d) <= 0x7fff_ffff_ffff_ffff && self@.d * o@.d
                <= 0x7fff_ffff_ffff_ffff) ==> r matches Some(_),
    {
        proof {
            lemma_prod_bound64(self.n as int, o.d as int);
            lemma_prod_bound64(o.n as int, self.d as int);
            lemma_prod_bound64(self.d as int, o.d as int);
            assert((self.d as int) * (o.d as int) > 0) by (nonlinear_arith)
                requires
                    self.d > 0,
                    o.d > 0,
            ;
        }
        let num: i128 = (self.n as i128) * (o.d as i128) + (o.n as i128) * (self.d as i128);
        let den: i128 = (self.d as i128) * (o.d as i128);
        norm128(num, den)
    }

    /// Exact difference, reduced; succeeds whenever the unreduced
    /// difference already fits.
    pub fn sub(&self, o: &Rat) -> (r: Option<Rat>)
        requires
            self.wf(),
            o.wf(),
        ensures
            r matches Some(c) ==> {
                &&& c.wf()
                &&& feq(c@, fsub(self@, o@))
                &&& c@.d <= self@.d * o@.d
                &&& iabs(c@.n) <= iabs(self@.n * o@.d - o@.n * self@.d)
            },
            (iabs(self@.n * o@.d - o@.n * self@.d) <= 0x7fff_ffff_ffff_ffff && self@.d * o@.d
                <= 0x7fff_ffff_ffff_ffff) ==> r matches Some(_),
    {
        proof {
            lemma_prod_bound64(self.n as int, o.d as int);
            lemma_prod_bound64(o.n as int, self.d as int);
            lemma_prod_bound64(self.d as int, o.d as int);
            assert((self.d as int) * (o.d as int) > 0) by (nonlinear_arith)
                requires
                    self.d > 0,
                    o.d > 0,
            ;
            assert((self.n as int) * (o.d as int) + (-(o.n as int)) * (self.d as int)
                == (self.n as int) * (o.d as int) - (o.n as int) * (self.d as int))
                by (nonlinear_arith);
        }
        let num: i128 = (self.n as i128) * (o.d as i128) - (o.n as i128) * (self.d as i128);
        let den: i128 = (self.d as i128) * (o.d as i128);
        norm128(num, den)
    }

    /// Exact product, reduced; succeeds whenever the unreduced product
    /// already fits.
    pub fn mul(&self, o: &Rat) -> (r: Option<Rat>)
        requires
            self.wf(),
            o.wf(),
        ensures
            r matches Some(c) ==> {
                &&& c.wf()
                &&& feq(c@, fmul(self@, o@))
                &&& c@.d <= self@.d * o@.d
                &&& iabs(c@.n) <= iabs(self@.n * o@.n)
            },
            (iabs(self@.n * o@.n) <= 0x7fff_ffff_ffff_ffff && self@.d * o@.d
                <= 0x7fff_ffff_ffff_ffff) ==> r matches Some(_),
    {
        proof {
            lemma_prod_bound64(self.n as int, o.n as int);
            lemma_prod_bound64(self.d as int, o.d as int);
            assert((self.d as int) * (o.d as int) > 0) by (nonlinear_arith)
                requires
                    self.d > 0,
                    o.d > 0,
            ;
        }
        let num: i128 = (self.n as i128) * (o.n as i128);
        let den: i128 = (self.d as i128) * (o.d as i128);
        norm128(num, den)
    }

    /// Exact quotient, reduced. The divisor must denote a non-zero value.
    /// Succeeds whenever the unreduced quotient already fits.
    pub fn div(&self, o: &Rat) -> (r: Option<Rat>)
        requires
            self.wf(),
            o.wf(),
            o@.n != 0,
        ensures
            r matches Some(c) ==> {
                &&& c.wf()
                &&& feq(c@, fdiv(self@, o@))
                &&& c@.d <= iabs(self@.d * o@.n)
                &&& iabs(c@.n) <= iabs(self@.n * o@.d)
            },
            (iabs(self@.n * o@.d) <= 0x7fff_ffff_ffff_ffff && iabs(self@.d * o@.n)
                <= 0x7fff_ffff_ffff_ffff) ==> r matches Some(_),
    {
        proof {
            lemma_prod_bound64(self.n as int, o.d as int);
            lemma_prod_bound64(self.d as int, o.n as int);
        }
        let num0: i128 = (self.n as i128) * (o.d as i128);
        let den0: i128 = (self.d as i128) * (o.n as i128);
        let mut num: i128 = num0;
        let mut den: i128 = den0;
        if o.n < 0 {
            num = -num0;
            den = -den0;
        }
        proof {
            let a = self@;
            let b = o@;
            if b.n >= 0 {
                assert(den as int > 0) by (nonlinear_arith)
                    requires
                        den as int == a.d * b.n,
                        a.d > 0,
                        b.n > 0,
                ;
            } else {
                assert(den as int > 0 && num as int == a.n * (-b.d) && den as int == a.d * (-b.n))
                    by (nonlinear_arith)
                    requires
                        num as int == -(a.n * b.d),
                        den as int == -(a.d * b.n),
                        a.d > 0,
                        b.d > 0,
                        b.n < 0,
                ;
            }
        }
        norm128(num, den)
    }

    /// Exact negation; never overflows thanks to the numerator bound.
    pub fn neg(&self) -> (r: Rat)
        requires
            self.wf(),
        ensures
            r.wf(),
            r@ == fneg(self@),
    {
        Rat { n: -self.n, d: self.d }
    }

    /// Exact absolute value.
    pub fn abs(&self) -> (r: Rat)
        requires
            self.wf(),
        ensures
            r.wf(),
            r@ == fabs(self@),
    {
        if self.n >= 0 {
            Rat { n: self.n, d: self.d }
        } else {
            Rat { n: -self.n, d: self.d }
        }
    }

    /// Exact value comparison: strictly less.
    pub fn lt(&self, o: &Rat) -> (r: bool)
        requires
            self.wf(),
            o.wf(),
        ensures
            r == flt(self@, o@),
    {
        proof {
            lemma_prod_bound64(self.n as int, o.d as int);
            lemma_prod_bound64(o.n as int, self.d as int);
        }
        (self.n as i128) * (o.d as i128) < (o.n as i128) * (self.d as i128)
    }

    /// Exact value comparison: less or equal.
    pub fn le(&self, o: &Rat) -> (r: bool)
        requires
            self.wf(),
            o.wf(),
        ensures
            r == fle(self@, o@),
    {
        proof {
            lemma_prod_bound64(self.n as int, o.d as int);
            lemma_prod_bound64(o.n as int, self.d as int);
        }
        (self.n as i128) * (o.d as i128) <= (o.n as i128) * (self.d as i128)
    }

    /// Exact value equality (independent of the stored representation).
    pub fn eq_val(&self, o: &Rat) -> (r: bool)
        requires
            self.wf(),
            o.wf(),
        ensures
            r == feq(self@, o@),
    {
        proof {
            lemma_prod_bound64(self.n as int, o.d as int);
            lemma_prod_bound64(o.n as int, self.d as int);
        }
        (self.n as i128) * (o.d as i128) == (o.n as i128) * (self.d as i128)
    }

    /// Whether the denoted value is zero.
    pub fn is_zero(&self) -> (r: bool)
        requires
            self.wf(),
        ensures
            r == feq(self@, f_zero()),
    {
        proof {
            assert((self.n as int) * 1 == self.n as int) by (nonlinear_arith);
            assert(0int * (self.d as int) == 0) by (nonlinear_arith);
        }
        self.n == 0
    }

    /// The value rounded to the nearest multiple of `1 / s`, halves up.
    /// The result is stored with denominator exactly `s`.
    pub fn round_scaled(&self, s: i64) -> (r: Option<Rat>)
        requires
            self.wf(),
            s >= 1,
        ensures
            r matches Some(c) ==> c.wf() && c@ == fround(self@, s as int),
    {
        proof {
            lemma_prod_bound64(self.n as int, s as int);
            assert(2 * self@.n * (s as int) == 2 * (self@.n * (s as int))) by (nonlinear_arith);
        }
        let num: i128 = 2 * ((self.n as i128) * (s as i128)) + (self.d as i128);
        let den: i128 = 2 * (self.d as i128);
        let q: i128 = floor_div_i128(num, den);
        if -(i64::MAX as i128) <= q && q <= (i64::MAX as i128) {
            Some(Rat { n: q as i64, d: s })
        } else {
            None
        }
    }
}

/// Value equality is transitive across well-formed fractions.
pub proof fn lemma_feq_trans(a: Frac, b: Frac, c: Frac)
    requires
        f_wf(a),
        f_wf(b),
        f_wf(c),
        feq(a, b),
        feq(b, c),
    ensures
        feq(a, c),
{
    assert(a.n * c.d == c.n * a.d) by (nonlinear_arith)
        requires
            a.n * b.d == b.n * a.d,
            b.n * c.d == c.n * b.d,
            a.d > 0,
            b.d > 0,
            c.d > 0,
    ;
}

/// The arithmetic operations keep denominators positive.
pub proof fn lemma_ops_wf(a: Frac, b: Frac)
    requires
        f_wf(a),
        f_wf(b),
    ensures
        f_wf(fadd(a, b)),
        f_wf(fsub(a, b)),
        f_wf(fmul(a, b)),
        f_wf(fneg(a)),
        f_wf(fabs(a)),
        b.n != 0 ==> f_wf(finv(b)),
        b.n != 0 ==> f_wf(fdiv(a, b)),
{
    assert(a.d * b.d > 0) by (nonlinear_arith)
        requires
            a.d > 0,
            b.d > 0,
    ;
    if b.n != 0 {
        if b.n >= 0 {
            assert(a.d * b.n > 0) by (nonlinear_arith)
                requires
                    a.d > 0,
                    b.n > 0,
            ;
        } else {
            assert(a.d * (-b.n) > 0) by (nonlinear_arith)
                requires
                    a.d > 0,
                    b.n < 0,
            ;
        }
    }
}

/// Addition respects value equality.
pub proof fn lemma_fadd_cong(a: Frac, b: Frac, a2: Frac, b2: Frac)
    requires
        f_wf(a),
        f_wf(b),
        f_wf(a2),
        f_wf(b2),
        feq(a, a2),
        feq(b, b2),
    ensures
        feq(fadd(a, b), fadd(a2, b2)),
{
    let t1 = (a2.n * a.d) * (b.d * b2.d);
    let t2 = (b2.n * b.d) * (a.d * a2.d);
    assert((a.n * b.d + b.n * a.d) * (a2.d * b2.d)
        == (a.n * b.d) * (a2.d * b2.d) + (b.n * a.d) * (a2.d * b2.d)) by (nonlinear_arith);
    assert((a.n * b.d) * (a2.d * b2.d) == (a.n * a2.d) * (b.d * b2.d)) by (nonlinear_arith);
    assert((b.n * a.d) * (a2.d * b2.d) == (b.n * b2.d) * (a.d * a2.d)) by (nonlinear_arith);
    assert((a.n * a2.d) * (b.d * b2.d) == t1) by (nonlinear_arith)
        requires
            a.n * a2.d == a2.n * a.d,
            t1 == (a2.n * a.d) * (b.d * b2.d),
    ;
    assert((b.n * b2.d) * (a.d * a2.d) == t2) by (nonlinear_arith)
        requires
            b.n * b2.d == b2.n * b.d,
            t2 == (b2.n * b.d) * (a.d * a2.d),
    ;
    assert((a2.n * b2.d + b2.n * a2.d) * (a.d * b.d)
        == (a2.n * b2.d) * (a.d * b.d) + (b2.n * a2.d) * (a.d * b.d)) by (nonlinear_arith);
    assert((a2.n * b2.d) * (a.d * b.d) == (a2.n * a.d) * (b.d * b2.d)) by (nonlinear_arith);
    assert((b2.n * a2.d) * (a.d * b.d) == (b2.n * b.d) * (a.d * a2.d)) by (nonlinear_arith);
}

/// Multiplication respects value equality.
pub proof fn lemma_fmul_cong(a: Frac, b: Frac, a2: Frac, b2: Frac)
    requires
        f_wf(a),
        f_wf(b),
        f_wf(a2),
        f_wf(b2),
        feq(a, a2),
        feq(b, b2),
    ensures
        feq(fmul(a, b), fmul(a2, b2)),
{
    assert((a.n * b.n) * (a2.d * b2.d) == (a2.n * b2.n) * (a.d * b.d)) by (nonlinear_arith)
        requires
            a.n * a2.d == a2.n * a.d,
            b.n * b2.d == b2.n * b.d,
    ;
}

/// Negation respects value equality.
pub proof fn lemma_fneg_cong(a: Frac, a2: Frac)
    requires
        f_wf(a),
        f_wf(a2),
        feq(a, a2),
    ensures
        feq(fneg(a), fneg(a2)),
{
    assert((-a.n) * a2.d == (-a2.n) * a.d) by (nonlinear_arith)
        requires
            a.n * a2.d == a2.n * a.d,
    ;
}

/// Subtraction respects value equality.
pub proof fn lemma_fsub_cong(a: Frac, b: Frac, a2: Frac, b2: Frac)
    requires
        f_wf(a),
        f_wf(b),
        f_wf(a2),
        f_wf(b2),
        feq(a, a2),
        feq(b, b2),
    ensures
        feq(fsub(a, b), fsub(a2, b2)),
{
    lemma_fneg_cong(b, b2);
    lemma_fadd_cong(a, fneg(b), a2, fneg(b2));
}

/// A value equal to a non-zero value is non-zero, and reciprocals of equal
/// values are equal.
pub proof fn lemma_finv_cong(a: Frac, a2: Frac)
    requires
        f_wf(a),
        f_wf(a2),
        feq(a, a2),
        a.n != 0,
    ensures
        a2.n != 0,
        feq(finv(a), finv(a2)),
{
    assert(a2.n != 0 && (if a.n >= 0 { a2.n > 0 } else { a2.n < 0 })) by (nonlinear_arith)
        requires
            a.n * a2.d == a2.n * a.d,
            a.d > 0,
            a2.d > 0,
            a.n != 0,
    ;
    if a.n >= 0 {
        assert(a.d * a2.n == a2.d * a.n) by (nonlinear_arith)
            requires
                a.n * a2.d == a2.n * a.d,
        ;
    } else {
        assert((-a.d) * (-a2.n) == (-a2.d) * (-a.n)) by (nonlinear_arith)
            requires
                a.n * a2.d == a2.n * a.d,
        ;
    }
}

/// Division respects value equality.
pub proof fn lemma_fdiv_cong(a: Frac, b: Frac, a2: Frac, b2: Frac)
    requires
        f_wf(a),
        f_wf(b),
        f_wf(a2),
        f_wf(b2),
        feq(a, a2),
        feq(b, b2),
        b.n != 0,
    ensures
        b2.n != 0,
        feq(fdiv(a, b), fdiv(a2, b2)),
{
    lemma_finv_cong(b, b2);
    lemma_ops_wf(a, b);
    lemma_ops_wf(a2, b2);
    lemma_fmul_cong(a, finv(b), a2, finv(b2));
}

/// Rounding depends only on the denoted value, not on the representation.
#[verifier::rlimit(50)]
pub proof fn lemma_fround_feq(a: Frac, b: Frac, s: int)
    requires
        f_wf(a),
        f_wf(b),
        feq(a, b),
        s >= 1,
    ensures
        fround(a, s) == fround(b, s),
{
    let qa = (2 * a.n * s + a.d) / (2 * a.d);
    lemma_fundamental_div_mod(2 * a.n * s + a.d, 2 * a.d);
    lemma_mod_division_less_than_divisor(2 * a.n * s + a.d, 2 * a.d);
    let ra = (2 * a.n * s + a.d) % (2 * a.d);
    let rb = 2 * b.n * s + b.d - (2 * b.d) * qa;
    assert(ra == 2 * a.n * s + a.d - (2 * a.d) * qa);
    assert(rb * a.d == 2 * s * (b.n * a.d) + b.d * a.d - 2 * qa * (b.d * a.d))
        by (nonlinear_arith)
        requires
            rb == 2 * b.n * s + b.d - (2 * b.d) * qa,
    ;
    assert(ra * b.d == 2 * s * (a.n * b.d) + a.d * b.d - 2 * qa * (a.d * b.d))
        by (nonlinear_arith)
        requires
            ra == 2 * a.n * s + a.d - (2 * a.d) * qa,
    ;
    assert(b.d * a.d == a.d * b.d) by (nonlinear_arith);
    assert(rb * a.d == ra * b.d);
    assert(0 <= rb < 2 * b.d) by (nonlinear_arith)
        requires
            rb * a.d == ra * b.d,
            0 <= ra < 2 * a.d,
            a.d > 0,
            b.d > 0,
    ;
    assert(2 * b.n * s + b.d == qa * (2 * b.d) + rb) by (nonlinear_arith)
        requires
            rb == 2 * b.n * s + b.d - (2 * b.d) * qa,
    ;
    lemma_fundamental_div_mod_converse_div(2 * b.n * s + b.d, 2 * b.d, qa, rb);
}

} // verus!
