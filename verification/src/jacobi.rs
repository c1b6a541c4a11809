//! Iterative solver: the Jacobi method.
//!
//! Each sweep computes every entry from the previous iterate only, rounds it
//! to the fixed resolution `1 / FP_SCALE`, and the solver stops when the
//! largest entry change falls below the tolerance or the iteration cap is
//! reached — whichever comes first. Reaching the cap is not a failure: the
//! current estimate and the realized sweep count are returned either way.
//! The returned iterate is pinned exactly: it equals the `it`-th element of
//! the ghost iterate sequence, so reruns are bit-identical.

use vstd::prelude::*;
use crate::FemError;
use crate::rat::{
    Frac, Rat, f_wf, f_zero, feq, flt, fadd, fsub, fmul, fdiv, fabs, fround,
    lemma_feq_trans, lemma_ops_wf, lemma_fadd_cong, lemma_fmul_cong, lemma_fsub_cong,
    lemma_fdiv_cong, lemma_fround_feq,
};
use crate::linalg::{
    wf_fvec, ent, row_dot_skip_from, lemma_flat_index, lemma_row_dot_wf,
    lemma_fadd_assoc, lemma_fadd_zero, lemma_fadd_comm,
};
use crate::system::{System, rvals, wf_rvec, lemma_rvals_wf, lemma_rvals_index, copy_rats};
use crate::grid::lemma_flt_feq_transfer;

verus! {

/// The fixed-point resolution of the Jacobi iterates: `1e-12`.
pub const FP_SCALE: i64 = 1000000000000;

/// The unrounded Jacobi update of entry `i`: the load entry minus the
/// off-diagonal row sum, divided by the diagonal entry.
pub open spec fn jacobi_val(a: Seq<Frac>, n: int, b: Seq<Frac>, xs: Seq<Frac>, i: int) -> Frac {
    fdiv(fsub(b[i], row_dot_skip_from(a, n, i, xs, 0, i)), ent(a, n, i, i))
}

/// One full Jacobi sweep, rounded to the fixed resolution.
pub open spec fn jacobi_next(a: Seq<Frac>, n: int, b: Seq<Frac>, xs: Seq<Frac>) -> Seq<Frac> {
    Seq::new(n as nat, |i: int| fround(jacobi_val(a, n, b, xs, i), FP_SCALE as int))
}

/// The `k`-th Jacobi iterate from the initial guess `x0`.
pub open spec fn jacobi_iter(a: Seq<Frac>, n: int, b: Seq<Frac>, x0: Seq<Frac>, k: nat) -> Seq<
    Frac,
>
    decreases k,
{
    if k == 0 {
        x0
    } else {
        jacobi_next(a, n, b, jacobi_iter(a, n, b, x0, (k - 1) as nat))
    }
}

/// Every entry of `ys` differs from the matching entry of `xs` by strictly
/// less than `tol` in magnitude: the sweep-to-sweep convergence test.
pub open spec fn converged(xs: Seq<Frac>, ys: Seq<Frac>, tol: Frac) -> bool {
    forall|i: int| 0 <= i < ys.len() ==> flt(fabs(fsub(#[trigger] ys[i], xs[i])), tol)
}

/// Sweep `k` from the guess `x0` met the tolerance: iterate `k` differs from
/// iterate `k - 1` by strictly less than `tol` in every entry. Kept opaque so
/// that solver contracts can quantify over sweeps without unrolling the
/// iterate recursion.
#[verifier::opaque]
pub open spec fn stopped_at(
    a: Seq<Frac>,
    n: int,
    b: Seq<Frac>,
    x0: Seq<Frac>,
    tol: Frac,
    k: nat,
) -> bool {
    converged(jacobi_iter(a, n, b, x0, (k - 1) as nat), jacobi_iter(a, n, b, x0, k), tol)
}

/// One sweep advances the ghost iterate index, and meeting the tolerance at
/// that sweep is exactly the convergence test between the two iterates.
proof fn lemma_stop_step(
    a: Seq<Frac>,
    n: int,
    b: Seq<Frac>,
    x0: Seq<Frac>,
    tol: Frac,
    cur: Seq<Frac>,
    y: Seq<Frac>,
    k: nat,
)
    requires
        cur == jacobi_iter(a, n, b, x0, k),
        y == jacobi_next(a, n, b, cur),
    ensures
        y == jacobi_iter(a, n, b, x0, (k + 1) as nat),
        stopped_at(a, n, b, x0, tol, (k + 1) as nat) == converged(cur, y, tol),
{
    reveal(stopped_at);
}

/// Absolute values of equal values are equal.
pub proof fn lemma_fabs_cong(a: Frac, b: Frac)
    requires
        f_wf(a),
        f_wf(b),
        feq(a, b),
    ensures
        feq(fabs(a), fabs(b)),
{
    assert((if a.n >= 0 { b.n >= 0 } else { b.n < 0 }) && (-a.n) * b.d == (-b.n) * a.d)
        by (nonlinear_arith)
        requires
            a.n * b.d == b.n * a.d,
            a.d > 0,
            b.d > 0,
    ;
}

/// Strict order is invariant under value equality on both sides.
pub proof fn lemma_flt_iff(a: Frac, b: Frac, a2: Frac, b2: Frac)
    requires
        f_wf(a),
        f_wf(b),
        f_wf(a2),
        f_wf(b2),
        feq(a2, a),
        feq(b2, b),
    ensures
        flt(a, b) <==> flt(a2, b2),
{
    if flt(a, b) {
        lemma_flt_feq_transfer(a, b, a2, b2);
    }
    if flt(a2, b2) {
        lemma_flt_feq_transfer(a2, b2, a, b);
    }
}

/// One Jacobi sweep over the whole vector. The result is pinned: its values
/// equal [`jacobi_next`] of the input's values, entry for entry.
pub fn jacobi_sweep(sys: &System, x: &Vec<Rat>) -> (r: Result<Vec<Rat>, FemError>)
    requires
        sys.wf(),
        x@.len() == sys.n,
        wf_rvec(x@),
        forall|i: int|
            0 <= i < sys.n ==> (#[trigger] ent(sys.av(), sys.n as int, i, i)).n != 0,
    ensures
        r matches Ok(y) ==> {
            &&& y@.len() == sys.n
            &&& wf_rvec(y@)
            &&& rvals(y@) == jacobi_next(sys.av(), sys.n as int, sys.bv(), rvals(x@))
        },
        r matches Err(e) ==> e == FemError::Overflow,
{
    let n = sys.n;
    let ghost gn = n as int;
    let ghost av = sys.av();
    let ghost bv = sys.bv();
    let ghost xv = rvals(x@);
    proof {
        lemma_rvals_wf(sys.a@);
        lemma_rvals_wf(sys.b@);
        lemma_rvals_wf(x@);
    }
    let mut y: Vec<Rat> = Vec::new();
    let mut i: usize = 0;
    while i < n
        invariant
            i <= n,
            n == sys.n,
            sys.wf(),
            gn == n as int,
            av == sys.av(),
            bv == sys.bv(),
            xv == rvals(x@),
            x@.len() == n,
            wf_rvec(x@),
            wf_fvec(av),
            wf_fvec(bv),
            wf_fvec(xv),
            av.len() == gn * gn,
            bv.len() == gn,
            xv.len() == gn,
            forall|q: int| 0 <= q < gn ==> (#[trigger] ent(av, gn, q, q)).n != 0,
            y@.len() == i,
            wf_rvec(y@),
            forall|q: int|
                0 <= q < i ==> rvals(y@)[q] == fround(
                    jacobi_val(av, gn, bv, xv, q),
                    FP_SCALE as int,
                ),
        decreases n - i,
    {
        let ghost gi = i as int;
        let mut s = Rat::zero();
        let mut j: usize = 0;
        proof {
            lemma_row_dot_wf(av, gn, gi, xv, 0);
            lemma_fadd_zero(row_dot_skip_from(av, gn, gi, xv, 0, gi), f_zero());
            lemma_fadd_comm(row_dot_skip_from(av, gn, gi, xv, 0, gi), f_zero());
        }
        while j < n
            invariant
                j <= n,
                i < n,
                n == sys.n,
                sys.wf(),
                gn == n as int,
                gi == i as int,
                av == sys.av(),
                xv == rvals(x@),
                x@.len() == n,
                wf_rvec(x@),
                wf_fvec(av),
                wf_fvec(xv),
                av.len() == gn * gn,
                xv.len() == gn,
                s.wf(),
                feq(
                    fadd(s@, row_dot_skip_from(av, gn, gi, xv, j as int, gi)),
                    row_dot_skip_from(av, gn, gi, xv, 0, gi),
                ),
            decreases n - j,
        {
            if j != i {
                proof {
                    lemma_flat_index(gn, gi, j as int);
                }
                let aij = sys.a[i * n + j];
                let xj = x[j];
                let t = match aij.mul(&xj) {
                    Some(v) => v,
                    None => {
                        return Err(FemError::Overflow);
                    },
                };
                let s2 = match s.add(&t) {
                    Some(v) => v,
                    None => {
                        return Err(FemError::Overflow);
                    },
                };
                proof {
                    let gj = j as int;
                    lemma_rvals_index(sys.a@, gi * gn + gj);
                    lemma_rvals_index(x@, gj);
                    let dnext = row_dot_skip_from(av, gn, gi, xv, gj + 1, gi);
                    let dj = row_dot_skip_from(av, gn, gi, xv, gj, gi);
                    let dtarget = row_dot_skip_from(av, gn, gi, xv, 0, gi);
                    lemma_row_dot_wf(av, gn, gi, xv, gj + 1);
                    lemma_row_dot_wf(av, gn, gi, xv, gj);
                    lemma_row_dot_wf(av, gn, gi, xv, 0);
                    lemma_ops_wf(aij@, xj@);
                    lemma_ops_wf(s@, t@);
                    lemma_ops_wf(t@, dnext);
                    lemma_ops_wf(s2@, dnext);
                    lemma_ops_wf(fadd(s@, t@), dnext);
                    lemma_fadd_cong(s2@, dnext, fadd(s@, t@), dnext);
                    lemma_fadd_assoc(s@, t@, dnext);
                    lemma_fadd_cong(t@, dnext, fmul(ent(av, gn, gi, gj), xv[gj]), dnext);
                    lemma_ops_wf(fmul(ent(av, gn, gi, gj), xv[gj]), dnext);
                    lemma_fadd_cong(s@, fadd(t@, dnext), s@, dj);
                    lemma_ops_wf(s@, fadd(t@, dnext));
                    lemma_ops_wf(s@, dj);
                    lemma_feq_trans(
                        fadd(s2@, dnext),
                        fadd(fadd(s@, t@), dnext),
                        fadd(s@, fadd(t@, dnext)),
                    );
                    lemma_feq_trans(fadd(s2@, dnext), fadd(s@, fadd(t@, dnext)), fadd(s@, dj));
                    lemma_feq_trans(fadd(s2@, dnext), fadd(s@, dj), dtarget);
                }
                s = s2;
            }
            j = j + 1;
        }
        proof {
            lemma_flat_index(gn, gi, gi);
        }
        let bi = sys.b[i];
        let num = match bi.sub(&s) {
            Some(v) => v,
            None => {
                return Err(FemError::Overflow);
            },
        };
        let di = sys.a[i * n + i];
        proof {
            lemma_rvals_index(sys.a@, gi * gn + gi);
            assert(di@ == ent(av, gn, gi, gi));
        }
        let t = match num.div(&di) {
            Some(v) => v,
            None => {
                return Err(FemError::Overflow);
            },
        };
        let yi = match t.round_scaled(FP_SCALE) {
            Some(v) => v,
            None => {
                return Err(FemError::Overflow);
            },
        };
        proof {
            // t denotes the unrounded update value
            let dtail = row_dot_skip_from(av, gn, gi, xv, 0, gi);
            lemma_row_dot_wf(av, gn, gi, xv, 0);
            lemma_rvals_index(sys.b@, gi);
            assert(row_dot_skip_from(av, gn, gi, xv, gn, gi) == f_zero());
            lemma_ops_wf(s@, f_zero());
            lemma_fadd_zero(s@, f_zero());
            lemma_ops_wf(s@, dtail);
            lemma_feq_trans(s@, fadd(s@, f_zero()), dtail);
            lemma_ops_wf(bi@, s@);
            lemma_ops_wf(bi@, dtail);
            lemma_fsub_cong(bi@, s@, bi@, dtail);
            lemma_feq_trans(num@, fsub(bi@, s@), fsub(bi@, dtail));
            lemma_fdiv_cong(num@, di@, fsub(bi@, dtail), di@);
            lemma_ops_wf(num@, di@);
            lemma_ops_wf(fsub(bi@, dtail), di@);
            lemma_feq_trans(t@, fdiv(num@, di@), jacobi_val(av, gn, bv, xv, gi));
            // rounding depends only on the value
            lemma_ops_wf(jacobi_val(av, gn, bv, xv, gi), f_zero());
            lemma_fround_feq(t@, jacobi_val(av, gn, bv, xv, gi), FP_SCALE as int);
        }
        let ghost ysnap = y@;
        y.push(yi);
        proof {
            assert forall|q: int|
                0 <= q < i + 1 implies rvals(y@)[q] == fround(
                jacobi_val(av, gn, bv, xv, q),
                FP_SCALE as int,
            ) by {
                lemma_rvals_index(y@, q);
                if q < i as int {
                    lemma_rvals_index(ysnap, q);
                }
            }
        }
        i = i + 1;
    }
    proof {
        lemma_rvals_wf(y@);
        assert(rvals(y@) =~= jacobi_next(av, gn, bv, xv));
    }
    Ok(y)
}

/// Tests whether every entry moved by strictly less than `tol`.
fn check_converged(x: &Vec<Rat>, y: &Vec<Rat>, tol: &Rat) -> (r: Result<bool, FemError>)
    requires
        x@.len() == y@.len(),
        wf_rvec(x@),
        wf_rvec(y@),
        tol.wf(),
    ensures
        r matches Ok(flag) ==> flag == converged(rvals(x@), rvals(y@), tol@),
        r matches Err(e) ==> e == FemError::Overflow,
{
    let mut i: usize = 0;
    let mut flag = true;
    while i < y.len()
        invariant
            i <= y@.len(),
            x@.len() == y@.len(),
            wf_rvec(x@),
            wf_rvec(y@),
            tol.wf(),
            flag == (forall|q: int|
                0 <= q < i ==> flt(fabs(fsub(#[trigger] rvals(y@)[q], rvals(x@)[q])), tol@)),
        decreases y@.len() - i,
    {
        let d = match y[i].sub(&x[i]) {
            Some(v) => v,
            None => {
                return Err(FemError::Overflow);
            },
        };
        let da = d.abs();
        let below = da.lt(tol);
        proof {
            let gi = i as int;
            lemma_rvals_index(x@, gi);
            lemma_rvals_index(y@, gi);
            lemma_ops_wf(rvals(y@)[gi], rvals(x@)[gi]);
            lemma_fabs_cong(d@, fsub(rvals(y@)[gi], rvals(x@)[gi]));
            lemma_ops_wf(d@, d@);
            lemma_ops_wf(fsub(rvals(y@)[gi], rvals(x@)[gi]), tol@);
            assert(f_wf(fabs(d@)) && f_wf(fabs(fsub(rvals(y@)[gi], rvals(x@)[gi]))));
            lemma_flt_iff(
                fabs(fsub(rvals(y@)[gi], rvals(x@)[gi])),
                tol@,
                fabs(d@),
                tol@,
            );
        }
        if !below {
            flag = false;
        }
        proof {
            if !below {
                assert(!flt(fabs(fsub(rvals(y@)[i as int], rvals(x@)[i as int])), tol@));
            }
        }
        i = i + 1;
    }
    Ok(flag)
}

/// Solves the assembled-and-constrained system by Jacobi iteration from the
/// initial guess `x0`. Stops as soon as every entry moved by strictly less
/// than `tol` in one sweep, or after `max_iter` sweeps, whichever comes
/// first; reaching the cap still returns the current estimate. The result
/// is the `it`-th ghost iterate exactly, with `it` the realized sweep count,
/// and no earlier sweep satisfied the tolerance.
pub fn solve_jacobi(
    sys: &System,
    x0: &Vec<Rat>,
    tol: &Rat,
    max_iter: usize,
) -> (r: Result<(Vec<Rat>, usize), FemError>)
    requires
        sys.wf(),
        x0@.len() == sys.n,
        wf_rvec(x0@),
        tol.wf(),
        max_iter >= 1,
    ensures
        (exists|i: int|
            0 <= i < sys.n && feq(#[trigger] ent(sys.av(), sys.n as int, i, i), f_zero())) <==> (
        r matches Err(e) && e == FemError::SingularSystem),
        r matches Ok(p) ==> {
            let x = p.0;
            let it = p.1;
            &&& x@.len() == sys.n
            &&& wf_rvec(x@)
            &&& 1 <= it <= max_iter
            &&& rvals(x@) == jacobi_iter(
                sys.av(),
                sys.n as int,
                sys.bv(),
                rvals(x0@),
                it as nat,
            )
            &&& (converged(
                jacobi_iter(sys.av(), sys.n as int, sys.bv(), rvals(x0@), (it - 1) as nat),
                rvals(x@),
                tol@,
            ) || it == max_iter)
            &&& forall|k: int|
                1 <= k < it ==> !stopped_at(
                    sys.av(),
                    sys.n as int,
                    sys.bv(),
                    rvals(x0@),
                    tol@,
                    #[trigger] (k as nat),
                )
        },
        r matches Err(e) ==> e == FemError::SingularSystem || e == FemError::Overflow,
{
    let n = sys.n;
    let ghost gn = n as int;
    let ghost av = sys.av();
    let ghost bv = sys.bv();
    let ghost xv0 = rvals(x0@);
    proof {
        lemma_rvals_wf(sys.a@);
    }
    // a zero diagonal entry leaves the update undefined: reject it
    let mut i: usize = 0;
    while i < n
        invariant
            i <= n,
            n == sys.n,
            sys.wf(),
            gn == n as int,
            av == sys.av(),
            wf_fvec(av),
            av.len() == gn * gn,
            forall|q: int| 0 <= q < i ==> !feq(#[trigger] ent(av, gn, q, q), f_zero()),
        decreases n - i,
    {
        proof {
            lemma_flat_index(gn, i as int, i as int);
            lemma_rvals_index(sys.a@, i as int * gn + i as int);
        }
        let di = sys.a[i * n + i];
        if di.is_zero() {
            proof {
                assert(feq(ent(av, gn, i as int, i as int), f_zero()));
            }
            return Err(FemError::SingularSystem);
        }
        i = i + 1;
    }
    proof {
        assert forall|q: int| 0 <= q < gn implies (#[trigger] ent(av, gn, q, q)).n != 0 by {
            if ent(av, gn, q, q).n == 0 {
                lemma_flat_index(gn, q, q);
                assert(feq(ent(av, gn, q, q), f_zero()));
            }
        }
    }
    let mut cur = copy_rats(x0);
    let mut it: usize = 0;
    loop
        invariant_except_break
            it < max_iter,
            n == sys.n,
            sys.wf(),
            gn == n as int,
            av == sys.av(),
            bv == sys.bv(),
            xv0 == rvals(x0@),
            x0@.len() == n,
            wf_rvec(x0@),
            tol.wf(),
            max_iter >= 1,
            cur@.len() == n,
            wf_rvec(cur@),
            forall|q: int| 0 <= q < gn ==> (#[trigger] ent(av, gn, q, q)).n != 0,
            rvals(cur@) == jacobi_iter(av, gn, bv, xv0, it as nat),
            forall|k: int|
                1 <= k <= it ==> !stopped_at(av, gn, bv, xv0, tol@, #[trigger] (k as nat)),
        ensures
            cur@.len() == n,
            wf_rvec(cur@),
            forall|q: int| 0 <= q < gn ==> (#[trigger] ent(av, gn, q, q)).n != 0,
            1 <= it <= max_iter,
            rvals(cur@) == jacobi_iter(av, gn, bv, xv0, it as nat),
            converged(jacobi_iter(av, gn, bv, xv0, (it - 1) as nat), rvals(cur@), tol@) || it
                == max_iter,
            forall|k: int|
                1 <= k < it ==> !stopped_at(av, gn, bv, xv0, tol@, #[trigger] (k as nat)),
        decreases max_iter - it,
    {
        let y = match jacobi_sweep(sys, &cur) {
            Ok(v) => v,
            Err(e) => {
                proof {
                    assert forall|q: int| 0 <= q < gn implies !feq(
                        #[trigger] ent(av, gn, q, q),
                        f_zero(),
                    ) by {
                        let dq = ent(av, gn, q, q);
                        assert(dq.n != 0);
                        assert(dq.n * 1 == dq.n && 0 * dq.d == 0) by (nonlinear_arith);
                    }
                }
                return Err(e);
            },
        };
        let conv = match check_converged(&cur, &y, tol) {
            Ok(v) => v,
            Err(e) => {
                proof {
                    assert forall|q: int| 0 <= q < gn implies !feq(
                        #[trigger] ent(av, gn, q, q),
                        f_zero(),
                    ) by {
                        let dq = ent(av, gn, q, q);
                        assert(dq.n != 0);
                        assert(dq.n * 1 == dq.n && 0 * dq.d == 0) by (nonlinear_arith);
                    }
                }
                return Err(e);
            },
        };
        proof {
            lemma_stop_step(av, gn, bv, xv0, tol@, rvals(cur@), rvals(y@), it as nat);
        }
        cur = y;
        it = it + 1;
        if conv || it >= max_iter {
            break;
        }
    }
    proof {
        assert forall|q: int| 0 <= q < gn implies !feq(#[trigger] ent(av, gn, q, q), f_zero()) by {
            assert(ent(av, gn, q, q).n != 0);
        }
    }
    Ok((cur, it))
}

/// Rerunning the iterative solve with identical inputs is bit-identical:
/// any two outcomes that meet the solver's contract — each the pinned
/// iterate of its own sweep count, stopped at the tolerance or at the cap,
/// with no earlier sweep meeting the tolerance — coincide exactly, in both
/// the sweep count and the returned iterate.
pub proof fn lemma_jacobi_outcome_unique(
    a: Seq<Frac>,
    n: int,
    b: Seq<Frac>,
    x0: Seq<Frac>,
    tol: Frac,
    cap: int,
    x1: Seq<Frac>,
    it1: int,
    x2: Seq<Frac>,
    it2: int,
)
    requires
        1 <= it1 <= cap,
        1 <= it2 <= cap,
        x1 == jacobi_iter(a, n, b, x0, it1 as nat),
        x2 == jacobi_iter(a, n, b, x0, it2 as nat),
        converged(jacobi_iter(a, n, b, x0, (it1 - 1) as nat), x1, tol) || it1 == cap,
        converged(jacobi_iter(a, n, b, x0, (it2 - 1) as nat), x2, tol) || it2 == cap,
        forall|k: int|
            1 <= k < it1 ==> !stopped_at(a, n, b, x0, tol, #[trigger] (k as nat)),
        forall|k: int|
            1 <= k < it2 ==> !stopped_at(a, n, b, x0, tol, #[trigger] (k as nat)),
    ensures
        it1 == it2,
        x1 == x2,
{
    reveal(stopped_at);
    if it1 < it2 {
        assert(!stopped_at(a, n, b, x0, tol, (it1 as nat)));
        assert(stopped_at(a, n, b, x0, tol, (it1 as nat)) == converged(
            jacobi_iter(a, n, b, x0, (it1 - 1) as nat),
            x1,
            tol,
        ));
        assert(it1 == cap);
        assert(false);
    }
    if it2 < it1 {
        assert(!stopped_at(a, n, b, x0, tol, (it2 as nat)));
        assert(stopped_at(a, n, b, x0, tol, (it2 as nat)) == converged(
            jacobi_iter(a, n, b, x0, (it2 - 1) as nat),
            x2,
            tol,
        ));
        assert(it2 == cap);
        assert(false);
    }
}

} // verus!
