//! Direct solver: Gaussian elimination without pivoting.
//!
//! Forward elimination normalizes each row by its pivot and clears the
//! column below it; back substitution then reads the solution off the unit
//! upper-triangular system. A pivot of magnitude at most `1e-12` aborts the
//! solve with [`FemError::SingularSystem`]; there is no row permutation, by
//! design. The returned vector provably satisfies the original system
//! exactly: every row's dot product with the solution equals the original
//! load entry.

use vstd::prelude::*;
use crate::FemError;
use crate::rat::{
    Frac, Rat, f_wf, f_zero, f_one, feq, flt, fle, fadd, fneg, fsub, fmul, fdiv, fabs,
    lemma_feq_trans, lemma_ops_wf, lemma_fadd_cong, lemma_fmul_cong, lemma_fsub_cong,
};
use crate::linalg::{
    wf_fvec, wf_fmat, ent, sat, row_sat, row_dot, row_dot_from, lemma_flat_index,
    lemma_row_dot_wf, lemma_row_dot_cong, lemma_row_dot_scale, lemma_row_dot_axpy,
    lemma_row_dot_zero_prefix, lemma_fadd_assoc, lemma_fadd_comm, lemma_fadd_zero,
    lemma_fmul_one, lemma_fmul_zero, lemma_sub_add_cancel, lemma_div_mul_cancel,
};
use crate::system::{System, rvals, wf_rvec, lemma_rvals_wf, lemma_rvals_index, copy_rats};

verus! {

/// The near-zero pivot threshold, `1e-12`, as an exact fraction.
pub open spec fn pivot_floor() -> Frac {
    Frac { n: 1, d: 0xe8d4a51000 }
}

/// A value whose magnitude exceeds a positive threshold is non-zero.
proof fn lemma_pivot_nonzero(p: Frac, t: Frac)
    requires
        f_wf(p),
        f_wf(t),
        t.n > 0,
        !fle(fabs(p), t),
    ensures
        p.n != 0,
{
    if p.n == 0 {
        assert(p.n * t.d <= t.n * p.d) by (nonlinear_arith)
            requires
                p.n == 0,
                t.n > 0,
                p.d > 0,
        ;
    }
}

/// From `x * p ~ p` and `p` non-zero, `x` denotes one.
proof fn lemma_mul_cancel_one(x: Frac, p: Frac)
    requires
        f_wf(x),
        f_wf(p),
        p.n != 0,
        feq(fmul(x, p), p),
    ensures
        feq(x, f_one()),
{
    assert(x.n * 1 == 1 * x.d) by (nonlinear_arith)
        requires
            (x.n * p.n) * p.d == p.n * (x.d * p.d),
            p.n != 0,
            p.d > 0,
    ;
}

/// Equal values subtract to zero.
proof fn lemma_sub_feq_zero(u: Frac, w: Frac)
    requires
        f_wf(u),
        f_wf(w),
        feq(u, w),
    ensures
        feq(fsub(u, w), f_zero()),
{
    assert((u.n * w.d + (-w.n) * u.d) * 1 == 0 * (u.d * w.d)) by (nonlinear_arith)
        requires
            u.n * w.d == w.n * u.d,
    ;
}

/// Subtracting a zero-valued fraction keeps the value.
proof fn lemma_sub_zero(u: Frac, z: Frac)
    requires
        f_wf(u),
        f_wf(z),
        feq(z, f_zero()),
    ensures
        feq(fsub(u, z), u),
        feq(u, fsub(u, z)),
{
    assert(feq(fneg(z), f_zero()));
    lemma_fadd_zero(u, fneg(z));
}

/// From `u ~ w - z`, conclude `w ~ u + z`.
proof fn lemma_sub_rel_add(u: Frac, w: Frac, z: Frac)
    requires
        f_wf(u),
        f_wf(w),
        f_wf(z),
        feq(u, fsub(w, z)),
    ensures
        feq(w, fadd(u, z)),
{
    lemma_ops_wf(w, z);
    lemma_ops_wf(fsub(w, z), z);
    lemma_ops_wf(u, z);
    lemma_fadd_cong(u, z, fsub(w, z), z);
    lemma_sub_add_cancel(w, z);
    lemma_feq_trans(fadd(u, z), fadd(fsub(w, z), z), w);
}

/// Divides entries `i..n` of row `i` by `p`, in place.
fn scale_row(a: &mut Vec<Rat>, n: usize, i: usize, p: &Rat) -> (ok: Result<(), FemError>)
    requires
        old(a)@.len() == n * n,
        n * n <= usize::MAX,
        wf_rvec(old(a)@),
        i < n,
        p.wf(),
        p@.n != 0,
    ensures
        final(a)@.len() == n * n,
        wf_rvec(final(a)@),
        ok matches Ok(()) ==> {
            &&& forall|j: int|
                i <= j < n ==> feq(
                    fmul(#[trigger] ent(rvals(final(a)@), n as int, i as int, j), p@),
                    ent(rvals(old(a)@), n as int, i as int, j),
                )
            &&& forall|q: int|
                0 <= q < n * n && !(i * n + i <= q < i * n + n)
                    ==> #[trigger] final(a)@[q] == old(a)@[q]
        },
        ok matches Err(e) ==> e == FemError::Overflow,
{
    let mut j: usize = i;
    while j < n
        invariant
            i <= j <= n,
            i < n,
            a@.len() == n * n,
            old(a)@.len() == n * n,
            n * n <= usize::MAX,
            wf_rvec(a@),
            wf_rvec(old(a)@),
            p.wf(),
            p@.n != 0,
            forall|jj: int|
                i <= jj < j ==> feq(
                    fmul(#[trigger] ent(rvals(a@), n as int, i as int, jj), p@),
                    ent(rvals(old(a)@), n as int, i as int, jj),
                ),
            forall|q: int|
                0 <= q < n * n && !(i * n + i <= q < i * n + j) ==> #[trigger] a@[q] == old(
                    a,
                )@[q],
        decreases n - j,
    {
        proof {
            lemma_flat_index(n as int, i as int, j as int);
        }
        let ghost aprev = a@;
        let idx: usize = i * n + j;
        let cur = a[idx];
        let v = match cur.div(p) {
            Some(x) => x,
            None => {
                return Err(FemError::Overflow);
            },
        };
        proof {
            lemma_div_mul_cancel(cur@, p@);
            lemma_ops_wf(cur@, p@);
            lemma_fmul_cong(v@, p@, fdiv(cur@, p@), p@);
            lemma_ops_wf(v@, p@);
            lemma_ops_wf(fdiv(cur@, p@), p@);
            lemma_feq_trans(fmul(v@, p@), fmul(fdiv(cur@, p@), p@), cur@);
        }
        a.set(idx, v);
        proof {
            assert forall|jj: int| i <= jj < j + 1 implies feq(
                fmul(#[trigger] ent(rvals(a@), n as int, i as int, jj), p@),
                ent(rvals(old(a)@), n as int, i as int, jj),
            ) by {
                lemma_flat_index(n as int, i as int, jj);
                lemma_rvals_index(a@, i * n + jj);
                lemma_rvals_index(aprev, i * n + jj);
                lemma_rvals_index(old(a)@, i * n + jj);
                if jj < j {
                    assert(ent(rvals(aprev), n as int, i as int, jj) == ent(
                        rvals(a@),
                        n as int,
                        i as int,
                        jj,
                    ));
                } else {
                    assert(aprev[i * n + jj] == old(a)@[i * n + jj]);
                }
            }
        }
        j = j + 1;
    }
    Ok(())
}

/// Subtracts `f` times row `i` from row `k`, columns `i..n`, in place.
fn axpy_row(a: &mut Vec<Rat>, n: usize, k: usize, i: usize, f: &Rat) -> (ok: Result<
    (),
    FemError,
>)
    requires
        old(a)@.len() == n * n,
        n * n <= usize::MAX,
        wf_rvec(old(a)@),
        i < n,
        k < n,
        k != i,
        f.wf(),
    ensures
        final(a)@.len() == n * n,
        wf_rvec(final(a)@),
        ok matches Ok(()) ==> {
            &&& forall|j: int|
                i <= j < n ==> feq(
                    #[trigger] ent(rvals(final(a)@), n as int, k as int, j),
                    fsub(
                        ent(rvals(old(a)@), n as int, k as int, j),
                        fmul(f@, ent(rvals(old(a)@), n as int, i as int, j)),
                    ),
                )
            &&& forall|q: int|
                0 <= q < n * n && !(k * n + i <= q < k * n + n)
                    ==> #[trigger] final(a)@[q] == old(a)@[q]
        },
        ok matches Err(e) ==> e == FemError::Overflow,
{
    let mut j: usize = i;
    while j < n
        invariant
            i <= j <= n,
            i < n,
            k < n,
            k != i,
            a@.len() == n * n,
            old(a)@.len() == n * n,
            n * n <= usize::MAX,
            wf_rvec(a@),
            wf_rvec(old(a)@),
            f.wf(),
            forall|jj: int|
                i <= jj < j ==> feq(
                    #[trigger] ent(rvals(a@), n as int, k as int, jj),
                    fsub(
                        ent(rvals(old(a)@), n as int, k as int, jj),
                        fmul(f@, ent(rvals(old(a)@), n as int, i as int, jj)),
                    ),
                ),
            forall|q: int|
                0 <= q < n * n && !(k * n + i <= q < k * n + j) ==> #[trigger] a@[q] == old(
                    a,
                )@[q],
        decreases n - j,
    {
        proof {
            lemma_flat_index(n as int, i as int, j as int);
            lemma_flat_index(n as int, k as int, j as int);
            assert(!(k * n + i <= i * n + j < k * n + n)) by (nonlinear_arith)
                requires
                    0 <= i < n,
                    0 <= (j as int) < n,
                    0 <= k < n,
                    k != i,
            ;
        }
        let ghost aprev = a@;
        let av = a[i * n + j];
        let cur = a[k * n + j];
        let t = match f.mul(&av) {
            Some(x) => x,
            None => {
                return Err(FemError::Overflow);
            },
        };
        let v = match cur.sub(&t) {
            Some(x) => x,
            None => {
                return Err(FemError::Overflow);
            },
        };
        proof {
            assert(av == old(a)@[i * n + j]);
            assert(cur == old(a)@[k * n + j]);
            lemma_ops_wf(f@, av@);
            lemma_ops_wf(cur@, t@);
            lemma_ops_wf(cur@, fmul(f@, av@));
            lemma_fsub_cong(cur@, t@, cur@, fmul(f@, av@));
            lemma_feq_trans(v@, fsub(cur@, t@), fsub(cur@, fmul(f@, av@)));
        }
        a.set(idx_of(n, k, j), v);
        proof {
            assert forall|jj: int| i <= jj < j + 1 implies feq(
                #[trigger] ent(rvals(a@), n as int, k as int, jj),
                fsub(
                    ent(rvals(old(a)@), n as int, k as int, jj),
                    fmul(f@, ent(rvals(old(a)@), n as int, i as int, jj)),
                ),
            ) by {
                lemma_flat_index(n as int, k as int, jj);
                lemma_flat_index(n as int, i as int, jj);
                lemma_rvals_index(a@, k * n + jj);
                lemma_rvals_index(aprev, k * n + jj);
                lemma_rvals_index(old(a)@, k * n + jj);
                lemma_rvals_index(old(a)@, i * n + jj);
                if jj < j {
                    assert(a@[k * n + jj] == aprev[k * n + jj]);
                    assert(ent(rvals(aprev), n as int, k as int, jj) == ent(
                        rvals(a@),
                        n as int,
                        k as int,
                        jj,
                    ));
                } else {
                    assert(aprev[k * n + jj] == old(a)@[k * n + jj]);
                }
            }
        }
        j = j + 1;
    }
    Ok(())
}

/// Any solution of the system after normalizing row `i` by `p` also solves
/// the system before.
proof fn lemma_sp_scale(
    a_pre: Seq<Frac>,
    b_pre: Seq<Frac>,
    a_cur: Seq<Frac>,
    b_cur: Seq<Frac>,
    n: int,
    i: int,
    p: Frac,
)
    requires
        wf_fmat(a_pre, n),
        wf_fmat(a_cur, n),
        b_pre.len() == n,
        b_cur.len() == n,
        wf_fvec(b_pre),
        wf_fvec(b_cur),
        0 <= i < n,
        f_wf(p),
        p.n != 0,
        forall|j: int|
            i <= j < n ==> feq(fmul(#[trigger] ent(a_cur, n, i, j), p), ent(a_pre, n, i, j)),
        forall|j: int|
            0 <= j < i ==> feq(#[trigger] ent(a_pre, n, i, j), f_zero()) && ent(a_cur, n, i, j)
                == ent(a_pre, n, i, j),
        feq(fmul(b_cur[i], p), b_pre[i]),
        forall|r: int, j: int|
            0 <= r < n && 0 <= j < n && r != i ==> #[trigger] ent(a_cur, n, r, j) == ent(
                a_pre,
                n,
                r,
                j,
            ),
        forall|r: int| 0 <= r < n && r != i ==> #[trigger] b_cur[r] == b_pre[r],
    ensures
        forall|xs: Seq<Frac>|
            xs.len() == n && wf_fvec(xs) && #[trigger] sat(a_cur, n, b_cur, xs) ==> sat(
                a_pre,
                n,
                b_pre,
                xs,
            ),
{
    assert forall|xs: Seq<Frac>|
        xs.len() == n && wf_fvec(xs) && #[trigger] sat(a_cur, n, b_cur, xs) implies sat(
        a_pre,
        n,
        b_pre,
        xs,
    ) by {
        assert forall|r: int| 0 <= r < n implies row_sat(a_pre, n, b_pre, xs, r) by {
            lemma_row_dot_wf(a_pre, n, r, xs, 0);
            lemma_row_dot_wf(a_cur, n, r, xs, 0);
            if r == i {
                assert forall|j: int| 0 <= j < n implies feq(
                    fmul(#[trigger] ent(a_cur, n, i, j), p),
                    ent(a_pre, n, i, j),
                ) by {
                    if j < i {
                        let epre = ent(a_pre, n, i, j);
                        let e = ent(a_cur, n, i, j);
                        lemma_flat_index(n, i, j);
                        assert(feq(epre, f_zero()));
                        assert(e == epre);
                        lemma_fmul_zero(p, e);
                        lemma_ops_wf(e, p);
                        lemma_feq_trans(fmul(e, p), f_zero(), epre);
                    }
                }
                lemma_row_dot_scale(a_pre, n, i, a_cur, i, xs, p, 0);
                let dot_new = row_dot(a_cur, n, i, xs);
                let dot_pre = row_dot(a_pre, n, i, xs);
                assert(row_sat(a_cur, n, b_cur, xs, i));
                lemma_fmul_cong(dot_new, p, b_cur[i], p);
                lemma_ops_wf(dot_new, p);
                lemma_ops_wf(b_cur[i], p);
                lemma_feq_trans(fmul(dot_new, p), fmul(b_cur[i], p), b_pre[i]);
                lemma_feq_trans(dot_pre, fmul(dot_new, p), b_pre[i]);
            } else {
                assert forall|j: int| 0 <= j < n implies feq(
                    #[trigger] ent(a_pre, n, r, j),
                    ent(a_cur, n, r, j),
                ) by {
                    lemma_flat_index(n, r, j);
                }
                lemma_row_dot_cong(a_pre, n, r, xs, a_cur, r, xs, 0);
                assert(row_sat(a_cur, n, b_cur, xs, r));
                lemma_feq_trans(row_dot(a_pre, n, r, xs), row_dot(a_cur, n, r, xs), b_cur[r]);
            }
        }
    }
}

/// Any solution of the system after subtracting `f` times row `i` from row
/// `k` also solves the system before.
proof fn lemma_sp_axpy(
    a_pre: Seq<Frac>,
    b_pre: Seq<Frac>,
    a_cur: Seq<Frac>,
    b_cur: Seq<Frac>,
    n: int,
    k: int,
    i: int,
    f: Frac,
)
    requires
        wf_fmat(a_pre, n),
        wf_fmat(a_cur, n),
        b_pre.len() == n,
        b_cur.len() == n,
        wf_fvec(b_pre),
        wf_fvec(b_cur),
        0 <= i < n,
        0 <= k < n,
        k != i,
        f_wf(f),
        forall|j: int|
            i <= j < n ==> feq(
                #[trigger] ent(a_cur, n, k, j),
                fsub(ent(a_pre, n, k, j), fmul(f, ent(a_pre, n, i, j))),
            ),
        forall|j: int|
            0 <= j < i ==> feq(#[trigger] ent(a_pre, n, i, j), f_zero()) && ent(a_cur, n, k, j)
                == ent(a_pre, n, k, j),
        feq(b_cur[k], fsub(b_pre[k], fmul(f, b_pre[i]))),
        forall|r: int, j: int|
            0 <= r < n && 0 <= j < n && r != k ==> #[trigger] ent(a_cur, n, r, j) == ent(
                a_pre,
                n,
                r,
                j,
            ),
        forall|r: int| 0 <= r < n && r != k ==> #[trigger] b_cur[r] == b_pre[r],
    ensures
        forall|xs: Seq<Frac>|
            xs.len() == n && wf_fvec(xs) && #[trigger] sat(a_cur, n, b_cur, xs) ==> sat(
                a_pre,
                n,
                b_pre,
                xs,
            ),
{
    assert forall|xs: Seq<Frac>|
        xs.len() == n && wf_fvec(xs) && #[trigger] sat(a_cur, n, b_cur, xs) implies sat(
        a_pre,
        n,
        b_pre,
        xs,
    ) by {
        assert forall|r: int| 0 <= r < n implies row_sat(a_pre, n, b_pre, xs, r) by {
            lemma_row_dot_wf(a_pre, n, r, xs, 0);
            lemma_row_dot_wf(a_cur, n, r, xs, 0);
            if r == k {
                assert forall|j: int| 0 <= j < n implies feq(
                    #[trigger] ent(a_cur, n, k, j),
                    fsub(ent(a_pre, n, k, j), fmul(f, ent(a_pre, n, i, j))),
                ) by {
                    if j < i {
                        let e = ent(a_pre, n, k, j);
                        let ei = ent(a_pre, n, i, j);
                        lemma_flat_index(n, k, j);
                        lemma_flat_index(n, i, j);
                        lemma_fmul_zero(f, ei);
                        lemma_ops_wf(f, ei);
                        lemma_sub_zero(e, fmul(f, ei));
                        lemma_ops_wf(e, fmul(f, ei));
                    }
                }
                lemma_row_dot_axpy(a_pre, n, k, i, a_cur, k, xs, f, 0);
                let dot_new = row_dot(a_cur, n, k, xs);
                let dot_k = row_dot(a_pre, n, k, xs);
                let dot_i = row_dot(a_pre, n, i, xs);
                lemma_row_dot_wf(a_pre, n, i, xs, 0);
                lemma_ops_wf(f, dot_i);
                lemma_ops_wf(dot_k, fmul(f, dot_i));
                // dot_k ~ dot_new + f * dot_i
                lemma_sub_rel_add(dot_new, dot_k, fmul(f, dot_i));
                // row i of the current system is unchanged, so its dot is b_pre[i]
                assert forall|j: int| 0 <= j < n implies feq(
                    #[trigger] ent(a_pre, n, i, j),
                    ent(a_cur, n, i, j),
                ) by {
                    lemma_flat_index(n, i, j);
                }
                lemma_row_dot_cong(a_pre, n, i, xs, a_cur, i, xs, 0);
                assert(row_sat(a_cur, n, b_cur, xs, i));
                lemma_row_dot_wf(a_cur, n, i, xs, 0);
                lemma_feq_trans(dot_i, row_dot(a_cur, n, i, xs), b_cur[i]);
                assert(feq(dot_i, b_pre[i]));
                // assemble: dot_k ~ b_new_k + f*b_pre_i ~ (b_pre_k - f*b_pre_i) + f*b_pre_i ~ b_pre_k
                assert(row_sat(a_cur, n, b_cur, xs, k));
                lemma_ops_wf(f, b_pre[i]);
                lemma_fmul_cong(f, dot_i, f, b_pre[i]);
                lemma_ops_wf(dot_new, fmul(f, dot_i));
                lemma_ops_wf(b_cur[k], fmul(f, b_pre[i]));
                lemma_fadd_cong(dot_new, fmul(f, dot_i), b_cur[k], fmul(f, b_pre[i]));
                lemma_feq_trans(
                    dot_k,
                    fadd(dot_new, fmul(f, dot_i)),
                    fadd(b_cur[k], fmul(f, b_pre[i])),
                );
                lemma_ops_wf(b_pre[k], fmul(f, b_pre[i]));
                lemma_fadd_cong(
                    b_cur[k],
                    fmul(f, b_pre[i]),
                    fsub(b_pre[k], fmul(f, b_pre[i])),
                    fmul(f, b_pre[i]),
                );
                lemma_ops_wf(fsub(b_pre[k], fmul(f, b_pre[i])), fmul(f, b_pre[i]));
                lemma_sub_add_cancel(b_pre[k], fmul(f, b_pre[i]));
                lemma_feq_trans(
                    fadd(b_cur[k], fmul(f, b_pre[i])),
                    fadd(fsub(b_pre[k], fmul(f, b_pre[i])), fmul(f, b_pre[i])),
                    b_pre[k],
                );
                lemma_feq_trans(dot_k, fadd(b_cur[k], fmul(f, b_pre[i])), b_pre[k]);
            } else {
                assert forall|j: int| 0 <= j < n implies feq(
                    #[trigger] ent(a_pre, n, r, j),
                    ent(a_cur, n, r, j),
                ) by {
                    lemma_flat_index(n, r, j);
                }
                lemma_row_dot_cong(a_pre, n, r, xs, a_cur, r, xs, 0);
                assert(row_sat(a_cur, n, b_cur, xs, r));
                lemma_feq_trans(row_dot(a_pre, n, r, xs), row_dot(a_cur, n, r, xs), b_cur[r]);
            }
        }
    }
}

/// Solves `A x = b` for the assembled-and-constrained system by Gaussian
/// elimination without pivoting, followed by back substitution.
///
/// On success the returned vector exactly satisfies every row of the
/// original system. The solve aborts with `SingularSystem` when a pivot of
/// magnitude at most `1e-12` turns up, and with `Overflow` when an exact
/// intermediate value leaves the representable range.
pub fn solve_direct(sys: &System) -> (r: Result<Vec<Rat>, FemError>)
    requires
        sys.wf(),
    ensures
        r matches Ok(x) ==> {
            &&& x@.len() == sys.n
            &&& wf_rvec(x@)
            &&& sat(sys.av(), sys.n as int, sys.bv(), rvals(x@))
        },
        r matches Err(e) ==> e == FemError::SingularSystem || e == FemError::Overflow,
{
    let n = sys.n;
    let ghost gn = n as int;
    let ghost a0 = sys.av();
    let ghost b0 = sys.bv();
    let mut a = copy_rats(&sys.a);
    let mut b = copy_rats(&sys.b);
    let tiny = Rat::new(1, 1000000000000);
    proof {
        assert(tiny@ == pivot_floor());
    }
    let mut i: usize = 0;
    while i < n
        invariant
            i <= n,
            n == sys.n,
            sys.wf(),
            gn == n as int,
            a0 == sys.av(),
            b0 == sys.bv(),
            a@.len() == n * n,
            b@.len() == n,
            wf_rvec(a@),
            wf_rvec(b@),
            tiny.wf(),
            tiny@ == pivot_floor(),
            forall|xs: Seq<Frac>|
                xs.len() == gn && wf_fvec(xs) && #[trigger] sat(rvals(a@), gn, rvals(b@), xs)
                    ==> sat(a0, gn, b0, xs),
            forall|r: int| 0 <= r < i ==> feq(#[trigger] ent(rvals(a@), gn, r, r), f_one()),
            forall|c: int, r: int|
                0 <= c < i && c < r < gn ==> feq(#[trigger] ent(rvals(a@), gn, r, c), f_zero()),
        decreases n - i,
    {
        proof {
            lemma_flat_index(gn, i as int, i as int);
        }
        let p = a[i * n + i];
        let pa = p.abs();
        if pa.le(&tiny) {
            return Err(FemError::SingularSystem);
        }
        proof {
            lemma_pivot_nonzero(p@, tiny@);
        }
        let ghost asr = a@;
        let ghost bsr = b@;
        let ghost a_pre = rvals(asr);
        let ghost b_pre = rvals(bsr);
        match scale_row(&mut a, n, i, &p) {
            Ok(()) => {},
            Err(e) => {
                return Err(e);
            },
        }
        let bi = b[i];
        let bi2 = match bi.div(&p) {
            Some(v) => v,
            None => {
                return Err(FemError::Overflow);
            },
        };
        b.set(i, bi2);
        proof {
            let gi = i as int;
            let ac = rvals(a@);
            let bc = rvals(b@);
            lemma_rvals_index(asr, gi * gn + gi);
            assert(ent(a_pre, gn, gi, gi) == p@);
            // load entry i: bi2 * p ~ b_pre[i]
            lemma_rvals_index(bsr, gi);
            lemma_rvals_index(b@, gi);
            lemma_div_mul_cancel(bi@, p@);
            lemma_ops_wf(bi@, p@);
            lemma_fmul_cong(bi2@, p@, fdiv(bi@, p@), p@);
            lemma_ops_wf(bi2@, p@);
            lemma_ops_wf(fdiv(bi@, p@), p@);
            lemma_feq_trans(fmul(bi2@, p@), fmul(fdiv(bi@, p@), p@), bi@);
            assert(feq(fmul(bc[gi], p@), b_pre[gi]));
            // columns before i of row i stay zero-valued and untouched
            assert forall|j: int| 0 <= j < gi implies feq(#[trigger] ent(a_pre, gn, gi, j), f_zero())
                && ent(ac, gn, gi, j) == ent(a_pre, gn, gi, j) by {
                lemma_flat_index(gn, gi, j);
                lemma_rvals_index(asr, gi * gn + j);
                lemma_rvals_index(a@, gi * gn + j);
            }
            // rows other than i are untouched
            assert forall|r: int, j: int|
                0 <= r < gn && 0 <= j < gn && r != gi implies #[trigger] ent(ac, gn, r, j) == ent(
                a_pre,
                gn,
                r,
                j,
            ) by {
                lemma_flat_index(gn, r, j);
                assert(!(gi * gn + gi <= r * gn + j < gi * gn + gn)) by (nonlinear_arith)
                    requires
                        0 <= r < gn,
                        0 <= j < gn,
                        0 <= gi < gn,
                        r != gi,
                ;
                lemma_rvals_index(asr, r * gn + j);
                lemma_rvals_index(a@, r * gn + j);
            }
            assert forall|r: int| 0 <= r < gn && r != gi implies #[trigger] bc[r] == b_pre[r] by {
                lemma_rvals_index(bsr, r);
                lemma_rvals_index(b@, r);
            }
            lemma_rvals_wf(a@);
            lemma_rvals_wf(b@);
            lemma_rvals_wf(asr);
            lemma_rvals_wf(bsr);
            lemma_sp_scale(a_pre, b_pre, ac, bc, gn, gi, p@);
            assert forall|xs: Seq<Frac>|
                xs.len() == gn && wf_fvec(xs) && #[trigger] sat(ac, gn, bc, xs) implies sat(
                a0,
                gn,
                b0,
                xs,
            ) by {
                assert(sat(a_pre, gn, b_pre, xs));
            }
            // the new diagonal entry denotes one
            assert(feq(fmul(ent(ac, gn, gi, gi), p@), ent(a_pre, gn, gi, gi)));
            lemma_flat_index(gn, gi, gi);
            lemma_mul_cancel_one(ent(ac, gn, gi, gi), p@);
            // earlier diagonals and zero columns are untouched
            assert forall|r: int| 0 <= r < gi implies feq(
                #[trigger] ent(ac, gn, r, r),
                f_one(),
            ) by {
                assert(ent(ac, gn, r, r) == ent(a_pre, gn, r, r));
            }
            assert forall|c: int, r: int| 0 <= c < gi && c < r < gn implies feq(
                #[trigger] ent(ac, gn, r, c),
                f_zero(),
            ) by {
                if r != gi {
                    assert(ent(ac, gn, r, c) == ent(a_pre, gn, r, c));
                } else {
                    assert(ent(ac, gn, gi, c) == ent(a_pre, gn, gi, c));
                }
            }
        }
        let mut k: usize = i + 1;
        while k < n
            invariant
                i < n,
                i + 1 <= k <= n,
                n == sys.n,
                sys.wf(),
                gn == n as int,
                a0 == sys.av(),
                b0 == sys.bv(),
                a@.len() == n * n,
                b@.len() == n,
                wf_rvec(a@),
                wf_rvec(b@),
                forall|xs: Seq<Frac>|
                    xs.len() == gn && wf_fvec(xs) && #[trigger] sat(rvals(a@), gn, rvals(b@), xs)
                        ==> sat(a0, gn, b0, xs),
                forall|r: int|
                    0 <= r < i + 1 ==> feq(#[trigger] ent(rvals(a@), gn, r, r), f_one()),
                forall|c: int, r: int|
                    0 <= c < i && c < r < gn ==> feq(
                        #[trigger] ent(rvals(a@), gn, r, c),
                        f_zero(),
                    ),
                forall|r: int|
                    i < r < k ==> feq(#[trigger] ent(rvals(a@), gn, r, i as int), f_zero()),
            decreases n - k,
        {
            proof {
                lemma_flat_index(gn, k as int, i as int);
            }
            let f = a[k * n + i];
            let ghost asr2 = a@;
            let ghost bsr2 = b@;
            let ghost a_pre2 = rvals(asr2);
            let ghost b_pre2 = rvals(bsr2);
            match axpy_row(&mut a, n, k, i, &f) {
                Ok(()) => {},
                Err(e) => {
                    return Err(e);
                },
            }
            let bk = b[k];
            let bi3 = b[i];
            let t = match f.mul(&bi3) {
                Some(v) => v,
                None => {
                    return Err(FemError::Overflow);
                },
            };
            let bk2 = match bk.sub(&t) {
                Some(v) => v,
                None => {
                    return Err(FemError::Overflow);
                },
            };
            b.set(k, bk2);
            proof {
                let gi = i as int;
                let gk = k as int;
                let ac = rvals(a@);
                let bc = rvals(b@);
                lemma_rvals_index(asr2, gk * gn + gi);
                assert(ent(a_pre2, gn, gk, gi) == f@);
                lemma_rvals_index(bsr2, gk);
                lemma_rvals_index(bsr2, gi);
                lemma_rvals_index(b@, gk);
                // bk2 ~ b_pre2[k] - f * b_pre2[i]
                lemma_ops_wf(f@, bi3@);
                lemma_ops_wf(bk@, t@);
                lemma_ops_wf(bk@, fmul(f@, bi3@));
                lemma_fsub_cong(bk@, t@, bk@, fmul(f@, bi3@));
                lemma_feq_trans(bk2@, fsub(bk@, t@), fsub(bk@, fmul(f@, bi3@)));
                assert(feq(bc[gk], fsub(b_pre2[gk], fmul(f@, b_pre2[gi]))));
                // columns before i of row i stay zero-valued; row k below them untouched
                assert forall|j: int| 0 <= j < gi implies feq(
                    #[trigger] ent(a_pre2, gn, gi, j),
                    f_zero(),
                ) && ent(ac, gn, gk, j) == ent(a_pre2, gn, gk, j) by {
                    lemma_flat_index(gn, gi, j);
                    lemma_flat_index(gn, gk, j);
                    lemma_rvals_index(asr2, gk * gn + j);
                    lemma_rvals_index(a@, gk * gn + j);
                }
                // rows other than k untouched
                assert forall|r: int, j: int|
                    0 <= r < gn && 0 <= j < gn && r != gk implies #[trigger] ent(ac, gn, r, j)
                    == ent(a_pre2, gn, r, j) by {
                    lemma_flat_index(gn, r, j);
                    assert(!(gk * gn + gi <= r * gn + j < gk * gn + gn)) by (nonlinear_arith)
                        requires
                            0 <= r < gn,
                            0 <= j < gn,
                            0 <= gi < gn,
                            0 <= gk < gn,
                            r != gk,
                    ;
                    lemma_rvals_index(asr2, r * gn + j);
                    lemma_rvals_index(a@, r * gn + j);
                }
                assert forall|r: int| 0 <= r < gn && r != gk implies #[trigger] bc[r]
                    == b_pre2[r] by {
                    lemma_rvals_index(bsr2, r);
                    lemma_rvals_index(b@, r);
                }
                lemma_rvals_wf(a@);
                lemma_rvals_wf(b@);
                lemma_rvals_wf(asr2);
                lemma_rvals_wf(bsr2);
                lemma_sp_axpy(a_pre2, b_pre2, ac, bc, gn, gk, gi, f@);
                assert forall|xs: Seq<Frac>|
                    xs.len() == gn && wf_fvec(xs) && #[trigger] sat(ac, gn, bc, xs) implies sat(
                    a0,
                    gn,
                    b0,
                    xs,
                ) by {
                    assert(sat(a_pre2, gn, b_pre2, xs));
                }
                // the eliminated entry denotes zero
                lemma_flat_index(gn, gk, gi);
                lemma_flat_index(gn, gi, gi);
                assert(feq(
                    ent(ac, gn, gk, gi),
                    fsub(ent(a_pre2, gn, gk, gi), fmul(f@, ent(a_pre2, gn, gi, gi))),
                ));
                assert(feq(ent(a_pre2, gn, gi, gi), f_one()));
                lemma_fmul_one(f@, ent(a_pre2, gn, gi, gi));
                lemma_ops_wf(f@, ent(a_pre2, gn, gi, gi));
                lemma_ops_wf(f@, f@);
                lemma_ops_wf(f@, fmul(f@, ent(a_pre2, gn, gi, gi)));
                lemma_fsub_cong(
                    f@,
                    fmul(f@, ent(a_pre2, gn, gi, gi)),
                    f@,
                    f@,
                );
                lemma_sub_feq_zero(f@, f@);
                lemma_ops_wf(f@, f@);
                lemma_feq_trans(
                    fsub(f@, fmul(f@, ent(a_pre2, gn, gi, gi))),
                    fsub(f@, f@),
                    f_zero(),
                );
                lemma_ops_wf(fsub(f@, fmul(f@, ent(a_pre2, gn, gi, gi))), f_zero());
                lemma_feq_trans(
                    ent(ac, gn, gk, gi),
                    fsub(f@, fmul(f@, ent(a_pre2, gn, gi, gi))),
                    f_zero(),
                );
                // untouched rows keep their shape
                assert forall|r: int| 0 <= r < gi + 1 implies feq(
                    #[trigger] ent(ac, gn, r, r),
                    f_one(),
                ) by {
                    assert(ent(ac, gn, r, r) == ent(a_pre2, gn, r, r));
                }
                assert forall|c: int, r: int| 0 <= c < gi && c < r < gn implies feq(
                    #[trigger] ent(ac, gn, r, c),
                    f_zero(),
                ) by {
                    if r != gk {
                        assert(ent(ac, gn, r, c) == ent(a_pre2, gn, r, c));
                    } else {
                        assert(feq(ent(a_pre2, gn, gi, c), f_zero()));
                        assert(ent(ac, gn, gk, c) == ent(a_pre2, gn, gk, c));
                        assert(feq(ent(a_pre2, gn, gk, c), f_zero()));
                    }
                }
                assert forall|r: int| gi < r < gk + 1 implies feq(
                    #[trigger] ent(ac, gn, r, gi),
                    f_zero(),
                ) by {
                    if r != gk {
                        assert(ent(ac, gn, r, gi) == ent(a_pre2, gn, r, gi));
                    }
                }
            }
            k = k + 1;
        }
        i = i + 1;
    }
    // back substitution on the unit upper-triangular system
    let mut x: Vec<Rat> = Vec::new();
    let mut z: usize = 0;
    while z < n
        invariant
            z <= n,
            x@.len() == z,
            forall|p: int| 0 <= p < z ==> (#[trigger] x@[p]).wf(),
        decreases n - z,
    {
        x.push(Rat::zero());
        z = z + 1;
    }
    let mut ii: usize = n;
    while ii > 0
        invariant
            ii <= n,
            n == sys.n,
            sys.wf(),
            gn == n as int,
            a0 == sys.av(),
            b0 == sys.bv(),
            a@.len() == n * n,
            b@.len() == n,
            wf_rvec(a@),
            wf_rvec(b@),
            x@.len() == n,
            wf_rvec(x@),
            forall|xs: Seq<Frac>|
                xs.len() == gn && wf_fvec(xs) && #[trigger] sat(rvals(a@), gn, rvals(b@), xs)
                    ==> sat(a0, gn, b0, xs),
            forall|r: int| 0 <= r < gn ==> feq(#[trigger] ent(rvals(a@), gn, r, r), f_one()),
            forall|c: int, r: int|
                0 <= c < gn && c < r < gn ==> feq(
                    #[trigger] ent(rvals(a@), gn, r, c),
                    f_zero(),
                ),
            forall|r: int|
                ii <= r < gn ==> feq(
                    #[trigger] rvals(x@)[r],
                    fsub(rvals(b@)[r], row_dot_from(rvals(a@), gn, r, rvals(x@), r + 1)),
                ),
        decreases ii,
    {
        let i2 = ii - 1;
        let ghost gi2 = i2 as int;
        let ghost xsnap = x@;
        let mut s = Rat::zero();
        let mut j: usize = ii;
        proof {
            lemma_rvals_wf(a@);
            lemma_rvals_wf(x@);
            lemma_row_dot_wf(rvals(a@), gn, gi2, rvals(x@), gi2 + 1);
            lemma_fadd_zero(row_dot_from(rvals(a@), gn, gi2, rvals(x@), gi2 + 1), f_zero());
            lemma_fadd_comm(
                row_dot_from(rvals(a@), gn, gi2, rvals(x@), gi2 + 1),
                f_zero(),
            );
        }
        while j < n
            invariant
                i2 < n,
                ii == i2 + 1,
                i2 + 1 <= j <= n,
                n == sys.n,
                gn == n as int,
                n * n <= usize::MAX,
                a@.len() == n * n,
                b@.len() == n,
                wf_rvec(a@),
                wf_rvec(b@),
                x@.len() == n,
                wf_rvec(x@),
                x@ == xsnap,
                gi2 == i2 as int,
                s.wf(),
                feq(
                    fadd(s@, row_dot_from(rvals(a@), gn, gi2, rvals(x@), j as int)),
                    row_dot_from(rvals(a@), gn, gi2, rvals(x@), gi2 + 1),
                ),
            decreases n - j,
        {
            proof {
                lemma_flat_index(gn, gi2, j as int);
            }
            let av = a[i2 * n + j];
            let xv = x[j];
            let t = match av.mul(&xv) {
                Some(v) => v,
                None => {
                    return Err(FemError::Overflow);
                },
            };
            let s2 = match s.add(&t) {
                Some(v) => v,
                None => {
                    return Err(FemError::Overflow);
                },
            };
            proof {
                let gj = j as int;
                let ac = rvals(a@);
                let xc = rvals(x@);
                lemma_rvals_wf(a@);
                lemma_rvals_wf(x@);
                lemma_rvals_index(a@, gi2 * gn + gj);
                lemma_rvals_index(x@, gj);
                let dnext = row_dot_from(ac, gn, gi2, xc, gj + 1);
                let dj = row_dot_from(ac, gn, gi2, xc, gj);
                let dtarget = row_dot_from(ac, gn, gi2, xc, gi2 + 1);
                lemma_row_dot_wf(ac, gn, gi2, xc, gj + 1);
                lemma_row_dot_wf(ac, gn, gi2, xc, gj);
                lemma_row_dot_wf(ac, gn, gi2, xc, gi2 + 1);
                lemma_ops_wf(av@, xv@);
                lemma_ops_wf(s@, t@);
                lemma_ops_wf(s@, fmul(av@, xv@));
                // s2 + dnext ~ (s + t) + dnext ~ s + (t + dnext) == s + dj ~ dtarget
                lemma_ops_wf(t@, dnext);
                lemma_ops_wf(s2@, dnext);
                lemma_fadd_cong(s2@, dnext, fadd(s@, t@), dnext);
                lemma_ops_wf(fadd(s@, t@), dnext);
                lemma_fadd_assoc(s@, t@, dnext);
                assert(t@ == fmul(av@, xv@) || feq(t@, fmul(av@, xv@)));
                lemma_fadd_cong(t@, dnext, fmul(ent(ac, gn, gi2, gj), xc[gj]), dnext);
                lemma_fadd_cong(
                    s@,
                    fadd(t@, dnext),
                    s@,
                    fadd(fmul(ent(ac, gn, gi2, gj), xc[gj]), dnext),
                );
                assert(dj == fadd(fmul(ent(ac, gn, gi2, gj), xc[gj]), dnext));
                lemma_ops_wf(s@, fadd(t@, dnext));
                lemma_ops_wf(s@, dj);
                lemma_feq_trans(fadd(s2@, dnext), fadd(fadd(s@, t@), dnext), fadd(s@, fadd(t@, dnext)));
                lemma_feq_trans(fadd(s2@, dnext), fadd(s@, fadd(t@, dnext)), fadd(s@, dj));
                lemma_feq_trans(fadd(s2@, dnext), fadd(s@, dj), dtarget);
            }
            s = s2;
            j = j + 1;
        }
        let bi = b[i2];
        let xi = match bi.sub(&s) {
            Some(v) => v,
            None => {
                return Err(FemError::Overflow);
            },
        };
        proof {
            // s ~ the tail sum of row i2 over the old x
            let ac = rvals(a@);
            let xc = rvals(x@);
            lemma_rvals_wf(a@);
            lemma_rvals_wf(x@);
            let dtail = row_dot_from(ac, gn, gi2, xc, gi2 + 1);
            lemma_row_dot_wf(ac, gn, gi2, xc, gi2 + 1);
            lemma_ops_wf(s@, dtail);
            assert(row_dot_from(ac, gn, gi2, xc, gn) == f_zero());
            assert(feq(fadd(s@, f_zero()), dtail));
            lemma_fadd_zero(s@, f_zero());
            lemma_feq_trans(s@, fadd(s@, f_zero()), dtail);
            // xi ~ b[i2] - dtail
            lemma_rvals_index(b@, gi2);
            lemma_ops_wf(bi@, s@);
            lemma_ops_wf(bi@, dtail);
            lemma_fsub_cong(bi@, s@, bi@, dtail);
            lemma_feq_trans(xi@, fsub(bi@, s@), fsub(bi@, dtail));
        }
        let ghost xold = x@;
        x.set(i2, xi);
        proof {
            let ac = rvals(a@);
            let bc = rvals(b@);
            let xc = rvals(x@);
            let xo = rvals(xold);
            lemma_rvals_wf(a@);
            lemma_rvals_wf(x@);
            lemma_rvals_wf(xold);
            lemma_rvals_wf(b@);
            assert forall|r: int|
                gi2 <= r < gn implies feq(
                #[trigger] xc[r],
                fsub(bc[r], row_dot_from(ac, gn, r, xc, r + 1)),
            ) by {
                // dot over indices >= r + 1 > gi2 is unchanged by the write at gi2
                assert forall|q: int| r + 1 <= q < gn implies feq(#[trigger] xo[q], xc[q]) by {
                    lemma_rvals_index(xold, q);
                    lemma_rvals_index(x@, q);
                }
                lemma_row_dot_cong(ac, gn, r, xo, ac, r, xc, r + 1);
                let do_ = row_dot_from(ac, gn, r, xo, r + 1);
                let dn_ = row_dot_from(ac, gn, r, xc, r + 1);
                lemma_row_dot_wf(ac, gn, r, xo, r + 1);
                lemma_row_dot_wf(ac, gn, r, xc, r + 1);
                lemma_rvals_index(x@, r);
                lemma_rvals_index(xold, r);
                lemma_rvals_index(b@, r);
                lemma_ops_wf(bc[r], do_);
                lemma_ops_wf(bc[r], dn_);
                lemma_fsub_cong(bc[r], do_, bc[r], dn_);
                if r == gi2 {
                    lemma_feq_trans(xc[r], fsub(bc[r], do_), fsub(bc[r], dn_));
                } else {
                    lemma_feq_trans(xc[r], fsub(bc[r], do_), fsub(bc[r], dn_));
                }
            }
        }
        ii = i2;
    }
    proof {
        let ac = rvals(a@);
        let bc = rvals(b@);
        let xc = rvals(x@);
        lemma_rvals_wf(a@);
        lemma_rvals_wf(b@);
        lemma_rvals_wf(x@);
        assert forall|r: int| 0 <= r < gn implies row_sat(ac, gn, bc, xc, r) by {
            lemma_row_dot_zero_prefix(ac, gn, r, xc, r);
            let dr = row_dot_from(ac, gn, r, xc, r);
            let dnext = row_dot_from(ac, gn, r, xc, r + 1);
            lemma_flat_index(gn, r, r);
            lemma_row_dot_wf(ac, gn, r, xc, r);
            lemma_row_dot_wf(ac, gn, r, xc, r + 1);
            lemma_fmul_one(xc[r], ent(ac, gn, r, r));
            lemma_ops_wf(ent(ac, gn, r, r), xc[r]);
            lemma_fadd_cong(fmul(ent(ac, gn, r, r), xc[r]), dnext, xc[r], dnext);
            lemma_ops_wf(xc[r], dnext);
            lemma_ops_wf(bc[r], dnext);
            lemma_fadd_cong(xc[r], dnext, fsub(bc[r], dnext), dnext);
            lemma_ops_wf(fsub(bc[r], dnext), dnext);
            lemma_sub_add_cancel(bc[r], dnext);
            lemma_feq_trans(dr, fadd(xc[r], dnext), fadd(fsub(bc[r], dnext), dnext));
            lemma_feq_trans(dr, fadd(fsub(bc[r], dnext), dnext), bc[r]);
            lemma_row_dot_wf(ac, gn, r, xc, 0);
            lemma_feq_trans(row_dot(ac, gn, r, xc), dr, bc[r]);
        }
        assert(sat(ac, gn, bc, xc));
        assert(sat(a0, gn, b0, xc));
    }
    Ok(x)
}

/// The flat index of `(r, c)` in an `n`-by-`n` row-major matrix.
fn idx_of(n: usize, r: usize, c: usize) -> (p: usize)
    requires
        r < n,
        c < n,
        n * n <= usize::MAX,
    ensures
        p == r * n + c,
{
    proof {
        lemma_flat_index(n as int, r as int, c as int);
    }
    r * n + c
}

} // verus!
