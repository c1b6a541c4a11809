//! Ghost linear algebra over sequences of fractions.
//!
//! The global operator is modelled as a flat, row-major `n * n` sequence of
//! [`Frac`] values. This module defines row dot products and proves the
//! algebraic facts the solvers rest on: congruence with respect to value
//! equality, behaviour under row scaling and row subtraction, and dropping
//! of zero prefixes.

use vstd::prelude::*;
use crate::rat::{
    Frac, f_wf, f_zero, f_one, feq, fadd, fneg, fsub, fmul, fdiv,
    lemma_feq_trans, lemma_ops_wf, lemma_fadd_cong, lemma_fmul_cong, lemma_fsub_cong,
};

verus! {

/// Every fraction in the sequence is well-formed.
pub open spec fn wf_fvec(xs: Seq<Frac>) -> bool {
    forall|i: int| 0 <= i < xs.len() ==> f_wf(#[trigger] xs[i])
}

/// A flat row-major `n * n` matrix of well-formed fractions.
pub open spec fn wf_fmat(a: Seq<Frac>, n: int) -> bool {
    a.len() == n * n && wf_fvec(a)
}

/// Entry `(r, c)` of the flat row-major matrix.
pub open spec fn ent(a: Seq<Frac>, n: int, r: int, c: int) -> Frac {
    a[r * n + c]
}

/// A flat index `r * n + c` stays inside the matrix.
pub proof fn lemma_flat_index(n: int, r: int, c: int) by (nonlinear_arith)
    requires
        0 <= r < n,
        0 <= c < n,
    ensures
        0 <= r * n + c < n * n,
        n <= n * n,
{
}

/// Distinct positions give distinct flat indices.
pub proof fn lemma_flat_neq(n: int, r: int, c: int, r2: int, c2: int) by (nonlinear_arith)
    requires
        0 <= r < n,
        0 <= c < n,
        0 <= r2 < n,
        0 <= c2 < n,
        r != r2 || c != c2,
    ensures
        r * n + c != r2 * n + c2,
{
}

/// Sum over `j` in `[k, n)` of `a[r][j] * xs[j]`.
pub open spec fn row_dot_from(a: Seq<Frac>, n: int, r: int, xs: Seq<Frac>, k: int) -> Frac
    decreases n - k,
{
    if k < 0 || k >= n {
        f_zero()
    } else {
        fadd(fmul(ent(a, n, r, k), xs[k]), row_dot_from(a, n, r, xs, k + 1))
    }
}

/// The full dot product of row `r` with `xs`.
pub open spec fn row_dot(a: Seq<Frac>, n: int, r: int, xs: Seq<Frac>) -> Frac {
    row_dot_from(a, n, r, xs, 0)
}

/// Sum over `j` in `[k, n)`, `j != skip`, of `a[r][j] * xs[j]`.
pub open spec fn row_dot_skip_from(
    a: Seq<Frac>,
    n: int,
    r: int,
    xs: Seq<Frac>,
    k: int,
    skip: int,
) -> Frac
    decreases n - k,
{
    if k < 0 || k >= n {
        f_zero()
    } else if k == skip {
        row_dot_skip_from(a, n, r, xs, k + 1, skip)
    } else {
        fadd(fmul(ent(a, n, r, k), xs[k]), row_dot_skip_from(a, n, r, xs, k + 1, skip))
    }
}

/// `xs` solves row `r` of the system `a * xs = b`.
pub open spec fn row_sat(a: Seq<Frac>, n: int, b: Seq<Frac>, xs: Seq<Frac>, r: int) -> bool {
    feq(row_dot(a, n, r, xs), b[r])
}

/// `xs` solves every row of the system `a * xs = b`.
pub open spec fn sat(a: Seq<Frac>, n: int, b: Seq<Frac>, xs: Seq<Frac>) -> bool {
    forall|r: int| 0 <= r < n ==> row_sat(a, n, b, xs, r)
}

// --- pure fraction algebra -------------------------------------------------

/// Multiplication is commutative and associative on the nose.
pub proof fn lemma_fmul_comm(a: Frac, b: Frac) by (nonlinear_arith)
    ensures
        fmul(a, b) == fmul(b, a),
{
}

pub proof fn lemma_fmul_assoc(a: Frac, b: Frac, c: Frac) by (nonlinear_arith)
    ensures
        fmul(fmul(a, b), c) == fmul(a, fmul(b, c)),
        fmul(fmul(a, b), c) == fmul(fmul(a, c), b),
{
}

/// Multiplying by a negation negates the product.
pub proof fn lemma_fmul_neg(a: Frac, b: Frac) by (nonlinear_arith)
    ensures
        fmul(a, fneg(b)) == fneg(fmul(a, b)),
{
}

/// Multiplication distributes over addition, up to value equality.
#[verifier::rlimit(50)]
pub proof fn lemma_fmul_distr(p: Frac, u: Frac, v: Frac)
    requires
        f_wf(p),
        f_wf(u),
        f_wf(v),
    ensures
        feq(fmul(p, fadd(u, v)), fadd(fmul(p, u), fmul(p, v))),
{
    let lhs = fmul(p, fadd(u, v));
    let rhs = fadd(fmul(p, u), fmul(p, v));
    assert(p.n * (u.n * v.d + v.n * u.d) == p.n * (u.n * v.d) + p.n * (v.n * u.d))
        by (nonlinear_arith);
    assert(p.d * (p.n * (u.n * v.d) + p.n * (v.n * u.d))
        == p.d * (p.n * (u.n * v.d)) + p.d * (p.n * (v.n * u.d))) by (nonlinear_arith);
    assert((p.n * u.n) * (p.d * v.d) == p.d * (p.n * (u.n * v.d))) by (nonlinear_arith);
    assert((p.n * v.n) * (p.d * u.d) == p.d * (p.n * (v.n * u.d))) by (nonlinear_arith);
    assert((p.d * u.d) * (p.d * v.d) == p.d * (p.d * (u.d * v.d))) by (nonlinear_arith);
    assert(rhs.n * lhs.d == lhs.n * rhs.d) by (nonlinear_arith)
        requires
            rhs.n == p.d * lhs.n,
            rhs.d == p.d * lhs.d,
    ;
    assert(rhs.n * lhs.d == lhs.n * rhs.d) by (nonlinear_arith)
        requires
            rhs.n == p.d * lhs.n,
            rhs.d == p.d * lhs.d,
    ;
}

/// Multiplication distributes over subtraction, up to value equality.
pub proof fn lemma_fmul_distr_sub(p: Frac, u: Frac, v: Frac)
    requires
        f_wf(p),
        f_wf(u),
        f_wf(v),
    ensures
        feq(fmul(p, fsub(u, v)), fsub(fmul(p, u), fmul(p, v))),
{
    lemma_fmul_distr(p, u, fneg(v));
    lemma_fmul_neg(p, v);
}

/// Addition is associative up to value equality.
pub proof fn lemma_fadd_assoc(a: Frac, b: Frac, c: Frac)
    requires
        f_wf(a),
        f_wf(b),
        f_wf(c),
    ensures
        fadd(fadd(a, b), c) == fadd(a, fadd(b, c)),
        feq(fadd(fadd(a, b), c), fadd(a, fadd(b, c))),
{
    let l = fadd(fadd(a, b), c);
    let r = fadd(a, fadd(b, c));
    assert(l.n == r.n && l.d == r.d) by (nonlinear_arith)
        requires
            l.n == (a.n * b.d + b.n * a.d) * c.d + c.n * (a.d * b.d),
            l.d == (a.d * b.d) * c.d,
            r.n == a.n * (b.d * c.d) + (b.n * c.d + c.n * b.d) * a.d,
            r.d == a.d * (b.d * c.d),
    ;
}

/// Addition is commutative on the nose.
pub proof fn lemma_fadd_comm(a: Frac, b: Frac) by (nonlinear_arith)
    ensures
        fadd(a, b) == fadd(b, a),
{
}

/// Adding a zero-valued fraction does not change the value.
pub proof fn lemma_fadd_zero(a: Frac, z: Frac)
    requires
        f_wf(a),
        f_wf(z),
        feq(z, f_zero()),
    ensures
        feq(fadd(a, z), a),
        feq(fadd(z, a), a),
{
    assert(z.n == 0);
    assert((a.n * z.d + z.n * a.d) * a.d == a.n * (a.d * z.d)) by (nonlinear_arith)
        requires
            z.n == 0,
    ;
    lemma_fadd_comm(a, z);
}

/// Multiplying by a one-valued fraction does not change the value.
pub proof fn lemma_fmul_one(a: Frac, o: Frac)
    requires
        f_wf(a),
        f_wf(o),
        feq(o, f_one()),
    ensures
        feq(fmul(o, a), a),
        feq(fmul(a, o), a),
{
    assert(o.n == o.d);
    assert((o.n * a.n) * a.d == a.n * (o.d * a.d) && (a.n * o.n) * a.d == a.n * (a.d * o.d))
        by (nonlinear_arith)
        requires
            o.n == o.d,
    ;
}

/// Multiplying a zero-valued fraction gives a zero-valued product.
pub proof fn lemma_fmul_zero(a: Frac, z: Frac)
    requires
        f_wf(a),
        f_wf(z),
        feq(z, f_zero()),
    ensures
        feq(fmul(z, a), f_zero()),
        feq(fmul(a, z), f_zero()),
{
    assert(z.n == 0);
    assert((z.n * a.n) * 1 == 0 * (z.d * a.d) && (a.n * z.n) * 1 == 0 * (a.d * z.d))
        by (nonlinear_arith)
        requires
            z.n == 0,
    ;
}

/// Subtracting and adding back cancels, up to value equality.
pub proof fn lemma_sub_add_cancel(u: Frac, w: Frac)
    requires
        f_wf(u),
        f_wf(w),
    ensures
        feq(fadd(fsub(u, w), w), u),
{
    assert(((u.n * w.d + (-w.n) * u.d) * w.d + w.n * (u.d * w.d)) * u.d
        == u.n * ((u.d * w.d) * w.d)) by (nonlinear_arith);
}

/// Dividing by `p` and multiplying by `p` cancels, up to value equality.
pub proof fn lemma_div_mul_cancel(a: Frac, p: Frac)
    requires
        f_wf(a),
        f_wf(p),
        p.n != 0,
    ensures
        feq(fmul(fdiv(a, p), p), a),
{
    if p.n >= 0 {
        assert(((a.n * p.d) * p.n) * a.d == a.n * ((a.d * p.n) * p.d)) by (nonlinear_arith);
    } else {
        assert(((a.n * (-p.d)) * p.n) * a.d == a.n * ((a.d * (-p.n)) * p.d)) by (nonlinear_arith);
    }
}

/// Sums of pointwise differences: `(a - b) + (c - d)` equals `(a + c) - (b + d)`.
#[verifier::rlimit(50)]
pub proof fn lemma_add_sub_exchange(a: Frac, b: Frac, c: Frac, d: Frac)
    requires
        f_wf(a),
        f_wf(b),
        f_wf(c),
        f_wf(d),
    ensures
        feq(fadd(fsub(a, b), fsub(c, d)), fsub(fadd(a, c), fadd(b, d))),
{
    let l = fadd(fsub(a, b), fsub(c, d));
    let r = fsub(fadd(a, c), fadd(b, d));
    assert((a.n * b.d + (-b.n) * a.d) * (c.d * d.d)
        == (a.n * b.d) * (c.d * d.d) + ((-b.n) * a.d) * (c.d * d.d)) by (nonlinear_arith);
    assert((c.n * d.d + (-d.n) * c.d) * (a.d * b.d)
        == (c.n * d.d) * (a.d * b.d) + ((-d.n) * c.d) * (a.d * b.d)) by (nonlinear_arith);
    assert((a.n * c.d + c.n * a.d) * (b.d * d.d)
        == (a.n * c.d) * (b.d * d.d) + (c.n * a.d) * (b.d * d.d)) by (nonlinear_arith);
    assert((-(b.n * d.d + d.n * b.d)) * (a.d * c.d)
        == ((-b.n) * d.d) * (a.d * c.d) + ((-d.n) * b.d) * (a.d * c.d)) by (nonlinear_arith);
    assert((a.n * b.d) * (c.d * d.d) == (a.n * c.d) * (b.d * d.d)) by (nonlinear_arith);
    assert(((-b.n) * a.d) * (c.d * d.d) == ((-b.n) * d.d) * (a.d * c.d)) by (nonlinear_arith);
    assert((c.n * d.d) * (a.d * b.d) == (c.n * a.d) * (b.d * d.d)) by (nonlinear_arith);
    assert(((-d.n) * c.d) * (a.d * b.d) == ((-d.n) * b.d) * (a.d * c.d)) by (nonlinear_arith);
    assert((a.d * b.d) * (c.d * d.d) == (a.d * c.d) * (b.d * d.d)) by (nonlinear_arith);
}

// --- dot product lemmas ----------------------------------------------------

/// A partial row dot product over well-formed entries is well-formed.
pub proof fn lemma_row_dot_wf(a: Seq<Frac>, n: int, r: int, xs: Seq<Frac>, k: int)
    requires
        wf_fmat(a, n),
        0 <= r < n,
        xs.len() == n,
        wf_fvec(xs),
    ensures
        f_wf(row_dot_from(a, n, r, xs, k)),
        f_wf(row_dot_skip_from(a, n, r, xs, k, r)),
    decreases n - k,
{
    if k < 0 || k >= n {
    } else {
        lemma_row_dot_wf(a, n, r, xs, k + 1);
        lemma_flat_index(n, r, k);
        lemma_ops_wf(ent(a, n, r, k), xs[k]);
        lemma_ops_wf(fmul(ent(a, n, r, k), xs[k]), row_dot_from(a, n, r, xs, k + 1));
        lemma_ops_wf(fmul(ent(a, n, r, k), xs[k]), row_dot_skip_from(a, n, r, xs, k + 1, r));
    }
}

/// Row dot products respect value equality of the row entries and of `xs`.
pub proof fn lemma_row_dot_cong(
    a1: Seq<Frac>,
    n: int,
    r1: int,
    xs1: Seq<Frac>,
    a2: Seq<Frac>,
    r2: int,
    xs2: Seq<Frac>,
    k: int,
)
    requires
        wf_fmat(a1, n),
        wf_fmat(a2, n),
        0 <= r1 < n,
        0 <= r2 < n,
        xs1.len() == n,
        xs2.len() == n,
        wf_fvec(xs1),
        wf_fvec(xs2),
        forall|j: int| k <= j < n ==> feq(ent(a1, n, r1, j), #[trigger] ent(a2, n, r2, j)),
        forall|j: int| k <= j < n ==> feq(#[trigger] xs1[j], xs2[j]),
    ensures
        feq(row_dot_from(a1, n, r1, xs1, k), row_dot_from(a2, n, r2, xs2, k)),
    decreases n - k,
{
    if k < 0 || k >= n {
    } else {
        lemma_row_dot_cong(a1, n, r1, xs1, a2, r2, xs2, k + 1);
        lemma_flat_index(n, r1, k);
        lemma_flat_index(n, r2, k);
        lemma_fmul_cong(ent(a1, n, r1, k), xs1[k], ent(a2, n, r2, k), xs2[k]);
        lemma_row_dot_wf(a1, n, r1, xs1, k + 1);
        lemma_row_dot_wf(a2, n, r2, xs2, k + 1);
        lemma_ops_wf(ent(a1, n, r1, k), xs1[k]);
        lemma_ops_wf(ent(a2, n, r2, k), xs2[k]);
        lemma_fadd_cong(
            fmul(ent(a1, n, r1, k), xs1[k]),
            row_dot_from(a1, n, r1, xs1, k + 1),
            fmul(ent(a2, n, r2, k), xs2[k]),
            row_dot_from(a2, n, r2, xs2, k + 1),
        );
    }
}

/// When row `r2` of `a2` times `p` matches row `r1` of `a1` entrywise, the
/// dot products stand in the same relation.
pub proof fn lemma_row_dot_scale(
    a1: Seq<Frac>,
    n: int,
    r1: int,
    a2: Seq<Frac>,
    r2: int,
    xs: Seq<Frac>,
    p: Frac,
    k: int,
)
    requires
        wf_fmat(a1, n),
        wf_fmat(a2, n),
        0 <= r1 < n,
        0 <= r2 < n,
        xs.len() == n,
        wf_fvec(xs),
        f_wf(p),
        forall|j: int| k <= j < n ==> feq(fmul(#[trigger] ent(a2, n, r2, j), p), ent(a1, n, r1, j)),
    ensures
        feq(fmul(row_dot_from(a2, n, r2, xs, k), p), row_dot_from(a1, n, r1, xs, k)),
    decreases n - k,
{
    if k < 0 || k >= n {
        lemma_fmul_zero(p, f_zero());
        lemma_fmul_comm(f_zero(), p);
    } else {
        lemma_row_dot_scale(a1, n, r1, a2, r2, xs, p, k + 1);
        let e1 = ent(a1, n, r1, k);
        let e2 = ent(a2, n, r2, k);
        let s1 = row_dot_from(a1, n, r1, xs, k + 1);
        let s2 = row_dot_from(a2, n, r2, xs, k + 1);
        let x = xs[k];
        lemma_flat_index(n, r1, k);
        lemma_flat_index(n, r2, k);
        lemma_row_dot_wf(a1, n, r1, xs, k + 1);
        lemma_row_dot_wf(a2, n, r2, xs, k + 1);
        lemma_ops_wf(e1, x);
        lemma_ops_wf(e2, x);
        lemma_ops_wf(e2, p);
        lemma_ops_wf(s2, p);
        lemma_ops_wf(fmul(e2, x), s2);
        lemma_ops_wf(fmul(e1, x), s1);
        lemma_ops_wf(fmul(e2, x), p);
        lemma_ops_wf(fmul(e2, p), x);
        lemma_ops_wf(fmul(fmul(e2, p), x), fmul(s2, p));
        // (e2*x + s2) * p  ~  (e2*x)*p + s2*p
        lemma_fmul_distr(p, fmul(e2, x), s2);
        lemma_fmul_comm(p, fadd(fmul(e2, x), s2));
        lemma_fmul_comm(p, fmul(e2, x));
        lemma_fmul_comm(p, s2);
        // (e2*x)*p == (e2*p)*x
        lemma_fmul_assoc(e2, x, p);
        // (e2*p)*x ~ e1*x
        lemma_ops_wf(e2, p);
        lemma_fmul_cong(fmul(e2, p), x, e1, x);
        // s2*p ~ s1
        lemma_ops_wf(s2, p);
        lemma_fadd_cong(fmul(fmul(e2, p), x), fmul(s2, p), fmul(e1, x), s1);
        // chain: (e2*x + s2)*p ~ (e2*x)*p + s2*p == (e2*p)*x + s2*p ~ e1*x + s1
        lemma_ops_wf(fadd(fmul(e2, x), s2), p);
        lemma_feq_trans(
            fmul(fadd(fmul(e2, x), s2), p),
            fadd(fmul(fmul(e2, p), x), fmul(s2, p)),
            fadd(fmul(e1, x), s1),
        );
    }
}

/// When row `r2` of `a2` equals row `rk` of `a1` minus `f` times row `ri` of
/// `a1` entrywise, the dot products stand in the same relation.
pub proof fn lemma_row_dot_axpy(
    a1: Seq<Frac>,
    n: int,
    rk: int,
    ri: int,
    a2: Seq<Frac>,
    r2: int,
    xs: Seq<Frac>,
    f: Frac,
    k: int,
)
    requires
        wf_fmat(a1, n),
        wf_fmat(a2, n),
        0 <= rk < n,
        0 <= ri < n,
        0 <= r2 < n,
        xs.len() == n,
        wf_fvec(xs),
        f_wf(f),
        forall|j: int| k <= j < n ==> feq(
            #[trigger] ent(a2, n, r2, j),
            fsub(ent(a1, n, rk, j), fmul(f, ent(a1, n, ri, j))),
        ),
    ensures
        feq(
            row_dot_from(a2, n, r2, xs, k),
            fsub(
                row_dot_from(a1, n, rk, xs, k),
                fmul(f, row_dot_from(a1, n, ri, xs, k)),
            ),
        ),
    decreases n - k,
{
    if k < 0 || k >= n {
        let z = f_zero();
        let w = fmul(f, z);
        lemma_ops_wf(f, z);
        lemma_ops_wf(z, w);
        assert(f.n * 0 == 0) by (nonlinear_arith);
        assert(w.n == 0);
        assert(feq(fneg(w), z));
        lemma_fadd_zero(z, fneg(w));
    } else {
        lemma_row_dot_axpy(a1, n, rk, ri, a2, r2, xs, f, k + 1);
        let ek = ent(a1, n, rk, k);
        let ei = ent(a1, n, ri, k);
        let e2 = ent(a2, n, r2, k);
        let sk = row_dot_from(a1, n, rk, xs, k + 1);
        let si = row_dot_from(a1, n, ri, xs, k + 1);
        let s2 = row_dot_from(a2, n, r2, xs, k + 1);
        let x = xs[k];
        lemma_flat_index(n, rk, k);
        lemma_flat_index(n, ri, k);
        lemma_flat_index(n, r2, k);
        lemma_row_dot_wf(a1, n, rk, xs, k + 1);
        lemma_row_dot_wf(a1, n, ri, xs, k + 1);
        lemma_row_dot_wf(a2, n, r2, xs, k + 1);
        lemma_ops_wf(ek, x);
        lemma_ops_wf(ei, x);
        lemma_ops_wf(e2, x);
        lemma_ops_wf(f, ei);
        lemma_ops_wf(f, fmul(ei, x));
        lemma_ops_wf(f, si);
        lemma_ops_wf(ek, fmul(f, ei));
        let a_ = fmul(ek, x);
        let b_ = fmul(f, fmul(ei, x));
        let c_ = sk;
        let d_ = fmul(f, si);
        lemma_ops_wf(a_, b_);
        lemma_ops_wf(c_, d_);
        lemma_ops_wf(a_, c_);
        lemma_ops_wf(b_, d_);
        lemma_ops_wf(fsub(ek, fmul(f, ei)), x);
        lemma_ops_wf(fsub(a_, b_), fsub(c_, d_));
        lemma_ops_wf(fadd(a_, c_), fadd(b_, d_));
        // e2 * x ~ (ek - f*ei) * x ~ ek*x - (f*ei)*x == ek*x - f*(ei*x)
        lemma_fmul_cong(e2, x, fsub(ek, fmul(f, ei)), x);
        lemma_fmul_comm(fsub(ek, fmul(f, ei)), x);
        lemma_fmul_distr_sub(x, ek, fmul(f, ei));
        lemma_fmul_comm(x, ek);
        lemma_fmul_comm(x, fmul(f, ei));
        lemma_fmul_assoc(f, ei, x);
        // so e2*x ~ a_ - b_
        lemma_ops_wf(fmul(x, ek), fmul(x, fmul(f, ei)));
        lemma_feq_trans(
            fmul(e2, x),
            fmul(fsub(ek, fmul(f, ei)), x),
            fsub(a_, b_),
        );
        // s2 ~ c_ - d_ (induction hypothesis)
        // e2*x + s2 ~ (a_-b_) + (c_-d_) ~ (a_+c_) - (b_+d_)
        lemma_fadd_cong(fmul(e2, x), s2, fsub(a_, b_), fsub(c_, d_));
        lemma_add_sub_exchange(a_, b_, c_, d_);
        lemma_ops_wf(fmul(e2, x), s2);
        lemma_feq_trans(
            fadd(fmul(e2, x), s2),
            fadd(fsub(a_, b_), fsub(c_, d_)),
            fsub(fadd(a_, c_), fadd(b_, d_)),
        );
        // (a_+c_) - (b_+d_) ~ (ek*x + sk) - f*(ei*x + si)
        lemma_fmul_distr(f, fmul(ei, x), si);
        lemma_ops_wf(fmul(ei, x), si);
        lemma_ops_wf(f, fadd(fmul(ei, x), si));
        lemma_fsub_cong(
            fadd(a_, c_),
            fadd(b_, d_),
            fadd(a_, c_),
            fmul(f, fadd(fmul(ei, x), si)),
        );
        lemma_ops_wf(fadd(a_, c_), fmul(f, fadd(fmul(ei, x), si)));
        lemma_feq_trans(
            fadd(fmul(e2, x), s2),
            fsub(fadd(a_, c_), fadd(b_, d_)),
            fsub(fadd(a_, c_), fmul(f, fadd(fmul(ei, x), si))),
        );
    }
}

/// A row whose entries before `k` all denote zero has the same dot product
/// from `0` as from `k`.
pub proof fn lemma_row_dot_zero_prefix(a: Seq<Frac>, n: int, r: int, xs: Seq<Frac>, k: int)
    requires
        wf_fmat(a, n),
        0 <= r < n,
        0 <= k <= n,
        xs.len() == n,
        wf_fvec(xs),
        forall|j: int| 0 <= j < k ==> feq(#[trigger] ent(a, n, r, j), f_zero()),
    ensures
        feq(row_dot(a, n, r, xs), row_dot_from(a, n, r, xs, k)),
    decreases k,
{
    if k == 0 {
        lemma_row_dot_wf(a, n, r, xs, 0);
    } else {
        lemma_row_dot_zero_prefix(a, n, r, xs, k - 1);
        lemma_flat_index(n, r, k - 1);
        lemma_row_dot_wf(a, n, r, xs, k);
        lemma_row_dot_wf(a, n, r, xs, k - 1);
        lemma_ops_wf(ent(a, n, r, k - 1), xs[k - 1]);
        lemma_fmul_zero(xs[k - 1], ent(a, n, r, k - 1));
        lemma_fadd_zero(row_dot_from(a, n, r, xs, k), fmul(ent(a, n, r, k - 1), xs[k - 1]));
        lemma_fadd_comm(row_dot_from(a, n, r, xs, k), fmul(ent(a, n, r, k - 1), xs[k - 1]));
        lemma_row_dot_wf(a, n, r, xs, 0);
        lemma_feq_trans(
            row_dot(a, n, r, xs),
            row_dot_from(a, n, r, xs, k - 1),
            row_dot_from(a, n, r, xs, k),
        );
    }
}

} // verus!
