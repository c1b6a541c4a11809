//! Global assembly: scatter-add of element-local operators into the global
//! operator, in element-index order.
//!
//! A linear element `e` owns nodes `e` and `e + 1`; a quadratic element `e`
//! owns nodes `2e`, `2e + 1` and `2e + 2`, with exactly one interior
//! midpoint. Every assembled entry is pinned to the exact sum of the local
//! contributions of the elements owning it, and the load vector stays zero
//! (source terms are zero in this core, while [`System::add_load`] keeps the
//! accumulation contract open for callers that have one).

use vstd::prelude::*;
use crate::FemError;
use crate::element::{
    BasisFunction, lin_entry, quad_entry, quad_coeff, quad_factor, linear_element_matrix,
    quadratic_element_matrix, lemma_pos_nonzero,
};
use crate::linalg::{ent, lemma_flat_index, lemma_flat_neq};
use crate::rat::{
    Frac, Rat, rat_zero, rat_one, f_wf, f_zero, f_one, f_int, feq, flt, fadd, fneg, fsub, fmul, fdiv,
    lemma_feq_trans, lemma_ops_wf, lemma_fadd_cong, lemma_fmul_cong, lemma_fsub_cong,
    lemma_fdiv_cong, lemma_fneg_cong,
};
use crate::system::{System, rvals, wf_rvec, lemma_rvals_wf, lemma_rvals_index};
use crate::linalg::{lemma_fadd_zero, lemma_fadd_comm};

verus! {

/// The length of linear element `e`: the gap between its endpoint nodes.
pub open spec fn lin_h(coords: Seq<Frac>, e: int) -> Frac {
    fsub(coords[e + 1], coords[e])
}

/// Entry `(r, c)` of the linear-basis global operator after the first
/// `done` of the elements have been scattered: the sum of the local
/// contributions of the already-scattered elements owning both nodes.
pub open spec fn lin_asm_entry(
    coords: Seq<Frac>,
    d: Frac,
    v: Frac,
    done: int,
    r: int,
    c: int,
) -> Frac {
    if r == c {
        fadd(
            if 0 <= r - 1 && r - 1 < done {
                lin_entry(lin_h(coords, r - 1), d, v, 1, 1)
            } else {
                f_zero()
            },
            if r < done {
                lin_entry(lin_h(coords, r), d, v, 0, 0)
            } else {
                f_zero()
            },
        )
    } else if c == r + 1 && 0 <= r && r < done {
        lin_entry(lin_h(coords, r), d, v, 0, 1)
    } else if r == c + 1 && 0 <= c && c < done {
        lin_entry(lin_h(coords, c), d, v, 1, 0)
    } else {
        f_zero()
    }
}

/// A strictly later coordinate leaves a positive gap.
pub proof fn lemma_gap_positive(a: Frac, b: Frac)
    requires
        f_wf(a),
        f_wf(b),
        flt(a, b),
    ensures
        flt(f_zero(), fsub(b, a)),
        f_wf(fsub(b, a)),
{
    assert(0 * (b.d * a.d) < (b.n * a.d + (-a.n) * b.d) * 1) by (nonlinear_arith)
        requires
            a.n * b.d < b.n * a.d,
    ;
    lemma_ops_wf(b, a);
}

/// The linear local entries depend only on the element length's value.
pub proof fn lemma_lin_entry_cong(h1: Frac, h2: Frac, d: Frac, v: Frac)
    requires
        f_wf(h1),
        f_wf(h2),
        f_wf(d),
        f_wf(v),
        feq(h1, h2),
        flt(f_zero(), h1),
    ensures
        forall|i: int, j: int|
            0 <= i < 2 && 0 <= j < 2 ==> feq(
                #[trigger] lin_entry(h1, d, v, i, j),
                lin_entry(h2, d, v, i, j),
            ),
{
    lemma_pos_nonzero(h1, h2);
    lemma_fdiv_cong(d, h1, d, h2);
    lemma_ops_wf(d, h1);
    lemma_ops_wf(d, h2);
    lemma_ops_wf(v, f_int(2));
    let dh1 = fdiv(d, h1);
    let dh2 = fdiv(d, h2);
    let v2 = fdiv(v, f_int(2));
    lemma_fneg_cong(dh1, dh2);
    lemma_fsub_cong(dh1, v2, dh2, v2);
    lemma_fadd_cong(fneg(dh1), v2, fneg(dh2), v2);
    lemma_fsub_cong(fneg(dh1), v2, fneg(dh2), v2);
    lemma_fadd_cong(dh1, v2, dh2, v2);
    assert forall|i: int, j: int| 0 <= i < 2 && 0 <= j < 2 implies feq(
        #[trigger] lin_entry(h1, d, v, i, j),
        lin_entry(h2, d, v, i, j),
    ) by {
    }
}

/// The linear local entries are well-formed for a positive element length.
pub proof fn lemma_lin_entry_wf(h: Frac, d: Frac, v: Frac)
    requires
        f_wf(h),
        f_wf(d),
        f_wf(v),
        flt(f_zero(), h),
    ensures
        forall|i: int, j: int|
            0 <= i < 2 && 0 <= j < 2 ==> f_wf(#[trigger] lin_entry(h, d, v, i, j)),
{
    lemma_pos_nonzero(h, h);
    lemma_ops_wf(d, h);
    lemma_ops_wf(v, f_int(2));
    let dh = fdiv(d, h);
    let v2 = fdiv(v, f_int(2));
    lemma_ops_wf(dh, v2);
    lemma_ops_wf(fneg(dh), v2);
    assert forall|i: int, j: int| 0 <= i < 2 && 0 <= j < 2 implies f_wf(
        #[trigger] lin_entry(h, d, v, i, j),
    ) by {
    }
}

/// Assembles the linear-basis global operator over the given node
/// coordinates: every entry is the exact sum of its owning elements'
/// contributions, and the load vector is zero.
#[verifier::rlimit(50)]
pub fn assemble_linear_1d(coords: &Vec<Rat>, d: &Rat, v: &Rat) -> (r: Result<System, FemError>)
    requires
        wf_rvec(coords@),
        d.wf(),
        v.wf(),
        2 <= coords@.len(),
        coords@.len() * coords@.len() <= usize::MAX,
        forall|i: int|
            0 <= i < coords@.len() - 1 ==> flt((#[trigger] coords@[i])@, coords@[i + 1]@),
    ensures
        r matches Err(e) ==> e == FemError::Overflow,
        r matches Ok(s) ==> {
            let n = coords@.len() as int;
            let cv = rvals(coords@);
            &&& s.wf()
            &&& s.n == coords@.len()
            &&& forall|r0: int, c: int|
                0 <= r0 < n && 0 <= c < n ==> feq(
                    #[trigger] ent(s.av(), n, r0, c),
                    lin_asm_entry(cv, d@, v@, n - 1, r0, c),
                )
            &&& forall|k: int| 0 <= k < n ==> s.b@[k] == rat_zero()
        },
{
    let n = coords.len();
    let m = n - 1;
    let ghost gn = n as int;
    let ghost cv = rvals(coords@);
    proof {
        lemma_rvals_wf(coords@);
    }
    let mut sys = System::new_zero(n);
    proof {
        assert forall|r0: int, c: int| 0 <= r0 < gn && 0 <= c < gn implies feq(
            #[trigger] ent(sys.av(), gn, r0, c),
            lin_asm_entry(cv, d@, v@, 0, r0, c),
        ) by {
            lemma_flat_index(gn, r0, c);
            lemma_rvals_index(sys.a@, r0 * gn + c);
            if r0 == c {
                lemma_ops_wf(f_zero(), f_zero());
                lemma_fadd_zero(f_zero(), f_zero());
            }
        }
    }
    let mut e: usize = 0;
    while e < m
        invariant
            e <= m,
            m == n - 1,
            2 <= n,
            gn == n as int,
            coords@.len() == n,
            wf_rvec(coords@),
            cv == rvals(coords@),
            d.wf(),
            v.wf(),
            sys.wf(),
            sys.n == n,
            forall|i: int|
                0 <= i < gn - 1 ==> flt((#[trigger] coords@[i])@, coords@[i + 1]@),
            forall|r0: int, c: int|
                0 <= r0 < gn && 0 <= c < gn ==> feq(
                    #[trigger] ent(sys.av(), gn, r0, c),
                    lin_asm_entry(cv, d@, v@, e as int, r0, c),
                ),
            forall|k: int| 0 <= k < gn ==> sys.b@[k] == rat_zero(),
        decreases m - e,
    {
        let ghost ge = e as int;
        let h = match coords[e + 1].sub(&coords[e]) {
            Some(x) => x,
            None => {
                return Err(FemError::Overflow);
            },
        };
        proof {
            lemma_rvals_index(coords@, ge);
            lemma_rvals_index(coords@, ge + 1);
            lemma_gap_positive(cv[ge], cv[ge + 1]);
            crate::grid::lemma_flt_feq_transfer(f_zero(), lin_h(cv, ge), f_zero(), h@);
            lemma_lin_entry_cong(h@, lin_h(cv, ge), d@, v@);
        }
        let loc = match linear_element_matrix(&h, d, v) {
            Ok(x) => x,
            Err(err) => {
                return Err(err);
            },
        };
        let ghost g0 = sys.av();
        let ghost gb0 = sys.b@;
        if let Err(err) = sys.add_at(e, e, loc[0]) {
            return Err(err);
        }
        let ghost g1 = sys.av();
        if let Err(err) = sys.add_at(e, e + 1, loc[1]) {
            return Err(err);
        }
        let ghost g2 = sys.av();
        if let Err(err) = sys.add_at(e + 1, e, loc[2]) {
            return Err(err);
        }
        let ghost g3 = sys.av();
        if let Err(err) = sys.add_at(e + 1, e + 1, loc[3]) {
            return Err(err);
        }
        proof {
            let he = lin_h(cv, ge);
            lemma_flat_index(gn, ge, ge);
            lemma_flat_index(gn, ge, ge + 1);
            lemma_flat_index(gn, ge + 1, ge);
            lemma_flat_index(gn, ge + 1, ge + 1);
            lemma_rvals_wf(sys.a@);
            assert forall|r0: int, c: int| 0 <= r0 < gn && 0 <= c < gn implies feq(
                #[trigger] ent(sys.av(), gn, r0, c),
                lin_asm_entry(cv, d@, v@, ge + 1, r0, c),
            ) by {
                lemma_flat_index(gn, r0, c);
                let p = r0 * gn + c;
                lemma_rvals_index(sys.a@, p);
                let old_val = g0[p];
                let new_val = sys.av()[p];
                lemma_ops_wf(old_val, f_zero());
                if !(r0 == ge && c == ge) {
                    lemma_flat_neq(gn, r0, c, ge, ge);
                }
                if !(r0 == ge && c == ge + 1) {
                    lemma_flat_neq(gn, r0, c, ge, ge + 1);
                }
                if !(r0 == ge + 1 && c == ge) {
                    lemma_flat_neq(gn, r0, c, ge + 1, ge);
                }
                if !(r0 == ge + 1 && c == ge + 1) {
                    lemma_flat_neq(gn, r0, c, ge + 1, ge + 1);
                }
                assert(ent(g0, gn, r0, c) == old_val);
                assert(feq(old_val, lin_asm_entry(cv, d@, v@, ge, r0, c)));
                if ge >= 1 {
                    lemma_rvals_index(coords@, ge - 1);
                    lemma_gap_positive(cv[ge - 1], cv[ge]);
                    lemma_lin_entry_wf(lin_h(cv, ge - 1), d@, v@);
                }
                lemma_gap_positive(cv[ge], cv[ge + 1]);
                lemma_lin_entry_wf(lin_h(cv, ge), d@, v@);
                crate::grid::lemma_flt_feq_transfer(f_zero(), lin_h(cv, ge), f_zero(), h@);
                lemma_lin_entry_wf(h@, d@, v@);
                if r0 == ge && c == ge {
                    // touched once, by the first scatter
                    assert(feq(g1[p], fadd(old_val, loc@[0]@)));
                    assert(new_val == g1[p]);
                    let left = lin_asm_entry(cv, d@, v@, ge, ge, ge);
                    let lpart = if 0 <= ge - 1 && ge - 1 < ge {
                        lin_entry(lin_h(cv, ge - 1), d@, v@, 1, 1)
                    } else {
                        f_zero()
                    };
                    lemma_ops_wf(lpart, f_zero());
                    lemma_ops_wf(lpart, lin_entry(he, d@, v@, 0, 0));
                    lemma_fadd_zero(lpart, f_zero());
                    // old ~ lpart, loc[0] ~ lin_entry(he,0,0)
                    lemma_ops_wf(loc@[0]@, f_zero());
                    lemma_feq_trans(loc@[0]@, lin_entry(h@, d@, v@, 0, 0), lin_entry(he, d@, v@, 0, 0));
                    lemma_feq_trans(old_val, fadd(lpart, f_zero()), lpart);
                    lemma_fadd_cong(old_val, loc@[0]@, lpart, lin_entry(he, d@, v@, 0, 0));
                    lemma_ops_wf(old_val, loc@[0]@);
                    lemma_feq_trans(
                        new_val,
                        fadd(old_val, loc@[0]@),
                        fadd(lpart, lin_entry(he, d@, v@, 0, 0)),
                    );
                } else if r0 == ge && c == ge + 1 {
                    assert(g1[p] == old_val);
                    assert(feq(g2[p], fadd(g1[p], loc@[1]@)));
                    assert(new_val == g2[p]);
                    // old ~ 0, so new ~ loc[1] ~ lin_entry(he,0,1)
                    lemma_ops_wf(loc@[1]@, f_zero());
                    lemma_fadd_zero(loc@[1]@, old_val);
                    lemma_fadd_comm(loc@[1]@, old_val);
                    lemma_ops_wf(old_val, loc@[1]@);
                    lemma_feq_trans(new_val, fadd(old_val, loc@[1]@), loc@[1]@);
                    lemma_feq_trans(new_val, loc@[1]@, lin_entry(h@, d@, v@, 0, 1));
                    lemma_feq_trans(new_val, lin_entry(h@, d@, v@, 0, 1), lin_entry(he, d@, v@, 0, 1));
                } else if r0 == ge + 1 && c == ge {
                    assert(g2[p] == old_val);
                    assert(feq(g3[p], fadd(g2[p], loc@[2]@)));
                    assert(new_val == g3[p]);
                    lemma_ops_wf(loc@[2]@, f_zero());
                    lemma_fadd_zero(loc@[2]@, old_val);
                    lemma_fadd_comm(loc@[2]@, old_val);
                    lemma_ops_wf(old_val, loc@[2]@);
                    lemma_feq_trans(new_val, fadd(old_val, loc@[2]@), loc@[2]@);
                    lemma_feq_trans(new_val, loc@[2]@, lin_entry(h@, d@, v@, 1, 0));
                    lemma_feq_trans(new_val, lin_entry(h@, d@, v@, 1, 0), lin_entry(he, d@, v@, 1, 0));
                } else if r0 == ge + 1 && c == ge + 1 {
                    assert(g3[p] == old_val);
                    assert(feq(sys.av()[p], fadd(g3[p], loc@[3]@)));
                    // old ~ fadd(zero, zero) ~ 0; new ~ loc[3] ~ lin_entry(he,1,1);
                    // target is fadd(lin_entry(he,1,1), zero)
                    let tgt = lin_entry(he, d@, v@, 1, 1);
                    lemma_ops_wf(f_zero(), f_zero());
                    lemma_fadd_zero(f_zero(), f_zero());
                    lemma_ops_wf(loc@[3]@, f_zero());
                    lemma_fadd_zero(loc@[3]@, old_val);
                    lemma_fadd_comm(loc@[3]@, old_val);
                    lemma_ops_wf(old_val, loc@[3]@);
                    lemma_feq_trans(new_val, fadd(old_val, loc@[3]@), loc@[3]@);
                    lemma_feq_trans(new_val, loc@[3]@, lin_entry(h@, d@, v@, 1, 1));
                    lemma_feq_trans(new_val, lin_entry(h@, d@, v@, 1, 1), tgt);
                    lemma_ops_wf(tgt, f_zero());
                    lemma_fadd_zero(tgt, f_zero());
                    lemma_feq_trans(new_val, tgt, fadd(tgt, f_zero()));
                } else {
                    // untouched: the scatter targets all differ from p
                    assert(new_val == old_val);
                    assert(lin_asm_entry(cv, d@, v@, ge + 1, r0, c) == lin_asm_entry(
                        cv,
                        d@,
                        v@,
                        ge,
                        r0,
                        c,
                    ));
                }
            }
        }
        e = e + 1;
    }
    Ok(sys)
}

/// The length of quadratic element `e`: the gap between its endpoint nodes
/// `2e` and `2e + 2`.
pub open spec fn quad_h(coords: Seq<Frac>, e: int) -> Frac {
    fsub(coords[2 * e + 2], coords[2 * e])
}

/// The element owning the node pair `(r, c)` when exactly one does: the
/// element of the odd (midpoint) index, or of the smaller even index.
pub open spec fn quad_owner(r: int, c: int) -> int {
    if r % 2 == 1 {
        (r - 1) / 2
    } else if c % 2 == 1 {
        (c - 1) / 2
    } else if r <= c {
        r / 2
    } else {
        c / 2
    }
}

/// Entry `(r, c)` of the quadratic-basis global operator after the first
/// `done` of the elements have been scattered. A shared endpoint's diagonal
/// collects two contributions; every other pair has at most one owner.
pub open spec fn quad_asm_entry(coords: Seq<Frac>, done: int, r: int, c: int) -> Frac {
    if r == c && r % 2 == 0 {
        fadd(
            if 0 <= r / 2 - 1 && r / 2 - 1 < done {
                quad_entry(quad_h(coords, r / 2 - 1), 2, 2)
            } else {
                f_zero()
            },
            if r / 2 < done {
                quad_entry(quad_h(coords, r / 2), 0, 0)
            } else {
                f_zero()
            },
        )
    } else {
        let e = quad_owner(r, c);
        if 2 * e <= r <= 2 * e + 2 && 2 * e <= c <= 2 * e + 2 && 0 <= e < done {
            quad_entry(quad_h(coords, e), r - 2 * e, c - 2 * e)
        } else {
            f_zero()
        }
    }
}

/// Strict order among values is transitive.
pub proof fn lemma_flt_trans(a: Frac, b: Frac, c: Frac)
    requires
        f_wf(a),
        f_wf(b),
        f_wf(c),
        flt(a, b),
        flt(b, c),
    ensures
        flt(a, c),
{
    assert(a.n * c.d < c.n * a.d) by (nonlinear_arith)
        requires
            a.n * b.d < b.n * a.d,
            b.n * c.d < c.n * b.d,
            a.d > 0,
            b.d > 0,
            c.d > 0,
    ;
}

/// The quadratic local entries are well-formed for a positive element
/// length, and depend only on the length's value.
pub proof fn lemma_quad_entry_props(h1: Frac, h2: Frac)
    requires
        f_wf(h1),
        f_wf(h2),
        feq(h1, h2),
        flt(f_zero(), h1),
    ensures
        forall|i: int, j: int|
            0 <= i < 3 && 0 <= j < 3 ==> f_wf(#[trigger] quad_entry(h1, i, j)) && f_wf(
                quad_entry(h2, i, j),
            ) && feq(quad_entry(h1, i, j), quad_entry(h2, i, j)),
{
    let t1 = fmul(f_int(3), h1);
    let t2 = fmul(f_int(3), h2);
    lemma_ops_wf(f_int(3), h1);
    lemma_ops_wf(f_int(3), h2);
    assert(t1.n > 0) by (nonlinear_arith)
        requires
            t1.n == 3 * h1.n,
            0 * h1.d < h1.n * 1,
    ;
    lemma_fmul_cong(f_int(3), h1, f_int(3), h2);
    lemma_fdiv_cong(f_one(), t1, f_one(), t2);
    lemma_ops_wf(f_one(), t1);
    lemma_ops_wf(f_one(), t2);
    let f1 = quad_factor(h1);
    let f2 = quad_factor(h2);
    assert forall|i: int, j: int| 0 <= i < 3 && 0 <= j < 3 implies f_wf(
        #[trigger] quad_entry(h1, i, j),
    ) && f_wf(quad_entry(h2, i, j)) && feq(quad_entry(h1, i, j), quad_entry(h2, i, j)) by {
        lemma_ops_wf(f_int(quad_coeff(i, j)), f1);
        lemma_ops_wf(f_int(quad_coeff(i, j)), f2);
        lemma_fmul_cong(f_int(quad_coeff(i, j)), f1, f_int(quad_coeff(i, j)), f2);
    }
}


/// Division and remainder facts for the node indices of element `e`.
proof fn lemma_half(e: int)
    requires
        e >= 0,
    ensures
        (2 * e) / 2 == e,
        (2 * e) % 2 == 0,
        (2 * e + 1) / 2 == e,
        (2 * e + 1) % 2 == 1,
        (2 * e + 2) / 2 == e + 1,
        (2 * e + 2) % 2 == 0,
{
    vstd::arithmetic::div_mod::lemma_fundamental_div_mod_converse_div(2 * e, 2, e, 0);
    vstd::arithmetic::div_mod::lemma_fundamental_div_mod_converse_mod(2 * e, 2, e, 0);
    vstd::arithmetic::div_mod::lemma_fundamental_div_mod_converse_div(2 * e + 1, 2, e, 1);
    vstd::arithmetic::div_mod::lemma_fundamental_div_mod_converse_mod(2 * e + 1, 2, e, 1);
    vstd::arithmetic::div_mod::lemma_fundamental_div_mod_converse_div(2 * e + 2, 2, e + 1, 0);
    vstd::arithmetic::div_mod::lemma_fundamental_div_mod_converse_mod(2 * e + 2, 2, e + 1, 0);
}

/// Assembles the quadratic-basis global stiffness over the given node
/// coordinates (an odd node count: `2 m + 1` nodes for `m` elements):
/// every entry is the exact sum of its owning elements' contributions, and
/// the load vector is zero.
#[verifier::rlimit(50)]
pub fn assemble_quadratic_1d(coords: &Vec<Rat>) -> (r: Result<System, FemError>)
    requires
        wf_rvec(coords@),
        3 <= coords@.len(),
        coords@.len() % 2 == 1,
        coords@.len() * coords@.len() <= usize::MAX,
        forall|i: int|
            0 <= i < coords@.len() - 1 ==> flt((#[trigger] coords@[i])@, coords@[i + 1]@),
    ensures
        r matches Err(e) ==> e == FemError::Overflow,
        r matches Ok(s) ==> {
            let n = coords@.len() as int;
            let cv = rvals(coords@);
            &&& s.wf()
            &&& s.n == coords@.len()
            &&& forall|r0: int, c: int|
                0 <= r0 < n && 0 <= c < n ==> feq(
                    #[trigger] ent(s.av(), n, r0, c),
                    quad_asm_entry(cv, (n - 1) / 2, r0, c),
                )
            &&& forall|k: int| 0 <= k < n ==> s.b@[k] == rat_zero()
        },
{
    let n = coords.len();
    let m = n / 2;
    let ghost gn = n as int;
    let ghost cv = rvals(coords@);
    proof {
        lemma_rvals_wf(coords@);
        vstd::arithmetic::div_mod::lemma_fundamental_div_mod(gn, 2);
        vstd::arithmetic::div_mod::lemma_fundamental_div_mod(gn - 1, 2);
        assert(2 * (m as int) == gn - 1);
        assert(m as int == (gn - 1) / 2) by {
            vstd::arithmetic::div_mod::lemma_fundamental_div_mod_converse_div(
                gn - 1,
                2,
                m as int,
                0,
            );
        }
    }
    let mut sys = System::new_zero(n);
    proof {
        assert forall|r0: int, c: int| 0 <= r0 < gn && 0 <= c < gn implies feq(
            #[trigger] ent(sys.av(), gn, r0, c),
            quad_asm_entry(cv, 0, r0, c),
        ) by {
            lemma_flat_index(gn, r0, c);
            lemma_rvals_index(sys.a@, r0 * gn + c);
            if r0 == c && r0 % 2 == 0 {
                lemma_ops_wf(f_zero(), f_zero());
                lemma_fadd_zero(f_zero(), f_zero());
            }
        }
    }
    let mut e: usize = 0;
    while e < m
        invariant
            e <= m,
            2 * (m as int) == gn - 1,
            3 <= n,
            gn == n as int,
            coords@.len() == n,
            wf_rvec(coords@),
            cv == rvals(coords@),
            sys.wf(),
            sys.n == n,
            forall|i: int|
                0 <= i < gn - 1 ==> flt((#[trigger] coords@[i])@, coords@[i + 1]@),
            forall|r0: int, c: int|
                0 <= r0 < gn && 0 <= c < gn ==> feq(
                    #[trigger] ent(sys.av(), gn, r0, c),
                    quad_asm_entry(cv, e as int, r0, c),
                ),
            forall|k: int| 0 <= k < gn ==> sys.b@[k] == rat_zero(),
        decreases m - e,
    {
        let ghost ge = e as int;
        let i0: usize = 2 * e;
        let h = match coords[i0 + 2].sub(&coords[i0]) {
            Some(x) => x,
            None => {
                return Err(FemError::Overflow);
            },
        };
        proof {
            lemma_rvals_index(coords@, 2 * ge);
            lemma_rvals_index(coords@, 2 * ge + 1);
            lemma_rvals_index(coords@, 2 * ge + 2);
            lemma_flt_trans(cv[2 * ge], cv[2 * ge + 1], cv[2 * ge + 2]);
            lemma_gap_positive(cv[2 * ge], cv[2 * ge + 2]);
            crate::grid::lemma_flt_feq_transfer(f_zero(), quad_h(cv, ge), f_zero(), h@);
            lemma_quad_entry_props(h@, quad_h(cv, ge));
        }
        let loc = match quadratic_element_matrix(&h) {
            Ok(x) => x,
            Err(err) => {
                return Err(err);
            },
        };
        let ghost g0 = sys.av();
        if let Err(err) = sys.add_at(i0 + 0, i0 + 0, loc[0]) {
            return Err(err);
        }
        let ghost g1 = sys.av();
        if let Err(err) = sys.add_at(i0 + 0, i0 + 1, loc[1]) {
            return Err(err);
        }
        let ghost g2 = sys.av();
        if let Err(err) = sys.add_at(i0 + 0, i0 + 2, loc[2]) {
            return Err(err);
        }
        let ghost g3 = sys.av();
        if let Err(err) = sys.add_at(i0 + 1, i0 + 0, loc[3]) {
            return Err(err);
        }
        let ghost g4 = sys.av();
        if let Err(err) = sys.add_at(i0 + 1, i0 + 1, loc[4]) {
            return Err(err);
        }
        let ghost g5 = sys.av();
        if let Err(err) = sys.add_at(i0 + 1, i0 + 2, loc[5]) {
            return Err(err);
        }
        let ghost g6 = sys.av();
        if let Err(err) = sys.add_at(i0 + 2, i0 + 0, loc[6]) {
            return Err(err);
        }
        let ghost g7 = sys.av();
        if let Err(err) = sys.add_at(i0 + 2, i0 + 1, loc[7]) {
            return Err(err);
        }
        let ghost g8 = sys.av();
        if let Err(err) = sys.add_at(i0 + 2, i0 + 2, loc[8]) {
            return Err(err);
        }
        let ghost g9 = sys.av();
        proof {
            let he = quad_h(cv, ge);
            lemma_rvals_wf(sys.a@);
            lemma_quad_entry_props(quad_h(cv, ge), quad_h(cv, ge));
            if ge >= 1 {
                lemma_rvals_index(coords@, 2 * ge - 2);
                lemma_rvals_index(coords@, 2 * ge - 1);
                lemma_flt_trans(cv[2 * ge - 2], cv[2 * ge - 1], cv[2 * ge]);
                lemma_gap_positive(cv[2 * ge - 2], cv[2 * ge]);
                lemma_quad_entry_props(quad_h(cv, ge - 1), quad_h(cv, ge - 1));
            }
            lemma_half(ge);
            assert forall|r0: int, c: int| 0 <= r0 < gn && 0 <= c < gn implies feq(
                #[trigger] ent(sys.av(), gn, r0, c),
                quad_asm_entry(cv, ge + 1, r0, c),
            ) by {
                lemma_flat_index(gn, r0, c);
                let p = r0 * gn + c;
                lemma_rvals_index(sys.a@, p);
                let old_val = g0[p];
                let new_val = sys.av()[p];
                lemma_ops_wf(old_val, f_zero());
                if !(r0 == 2 * ge + 0 && c == 2 * ge + 0) {
                    lemma_flat_neq(gn, r0, c, 2 * ge + 0, 2 * ge + 0);
                }
                if !(r0 == 2 * ge + 0 && c == 2 * ge + 1) {
                    lemma_flat_neq(gn, r0, c, 2 * ge + 0, 2 * ge + 1);
                }
                if !(r0 == 2 * ge + 0 && c == 2 * ge + 2) {
                    lemma_flat_neq(gn, r0, c, 2 * ge + 0, 2 * ge + 2);
                }
                if !(r0 == 2 * ge + 1 && c == 2 * ge + 0) {
                    lemma_flat_neq(gn, r0, c, 2 * ge + 1, 2 * ge + 0);
                }
                if !(r0 == 2 * ge + 1 && c == 2 * ge + 1) {
                    lemma_flat_neq(gn, r0, c, 2 * ge + 1, 2 * ge + 1);
                }
                if !(r0 == 2 * ge + 1 && c == 2 * ge + 2) {
                    lemma_flat_neq(gn, r0, c, 2 * ge + 1, 2 * ge + 2);
                }
                if !(r0 == 2 * ge + 2 && c == 2 * ge + 0) {
                    lemma_flat_neq(gn, r0, c, 2 * ge + 2, 2 * ge + 0);
                }
                if !(r0 == 2 * ge + 2 && c == 2 * ge + 1) {
                    lemma_flat_neq(gn, r0, c, 2 * ge + 2, 2 * ge + 1);
                }
                if !(r0 == 2 * ge + 2 && c == 2 * ge + 2) {
                    lemma_flat_neq(gn, r0, c, 2 * ge + 2, 2 * ge + 2);
                }
                assert(ent(g0, gn, r0, c) == old_val);
                assert(feq(old_val, quad_asm_entry(cv, ge, r0, c)));
                vstd::arithmetic::div_mod::lemma_fundamental_div_mod(r0, 2);
                vstd::arithmetic::div_mod::lemma_fundamental_div_mod(c, 2);
                vstd::arithmetic::div_mod::lemma_mod_division_less_than_divisor(r0, 2);
                vstd::arithmetic::div_mod::lemma_mod_division_less_than_divisor(c, 2);
                if r0 == 2 * ge && c == 2 * ge {
                    assert(feq(g1[p], fadd(old_val, loc@[0]@)));
                    assert(new_val == g1[p]);
                    let lpart = if 0 <= ge - 1 && ge - 1 < ge {
                        quad_entry(quad_h(cv, ge - 1), 2, 2)
                    } else {
                        f_zero()
                    };
                    assert(quad_asm_entry(cv, ge, r0, c) == fadd(lpart, f_zero()));
                    lemma_ops_wf(lpart, f_zero());
                    lemma_fadd_zero(lpart, f_zero());
                    lemma_feq_trans(old_val, fadd(lpart, f_zero()), lpart);
                    assert(loc@[0int * 3 + 0] == loc@[0]);
                    assert(feq(loc@[0]@, quad_entry(h@, 0, 0)));
                    lemma_ops_wf(loc@[0]@, f_zero());
                    lemma_feq_trans(loc@[0]@, quad_entry(h@, 0, 0), quad_entry(he, 0, 0));
                    lemma_ops_wf(lpart, quad_entry(he, 0, 0));
                    lemma_fadd_cong(old_val, loc@[0]@, lpart, quad_entry(he, 0, 0));
                    lemma_ops_wf(old_val, loc@[0]@);
                    lemma_feq_trans(
                        new_val,
                        fadd(old_val, loc@[0]@),
                        fadd(lpart, quad_entry(he, 0, 0)),
                    );
                    assert(quad_asm_entry(cv, ge + 1, r0, c) == fadd(lpart, quad_entry(he, 0, 0)));
                } else if r0 == 2 * ge + 0 && c == 2 * ge + 1 {
                    assert(g1[p] == old_val);
                    assert(feq(g2[p], fadd(g1[p], loc@[1]@)));
                    assert(new_val == g2[p]);
                    assert(quad_asm_entry(cv, ge, r0, c) == f_zero());
                    lemma_ops_wf(loc@[1]@, f_zero());
                    lemma_fadd_zero(loc@[1]@, old_val);
                    lemma_fadd_comm(loc@[1]@, old_val);
                    lemma_ops_wf(old_val, loc@[1]@);
                    lemma_feq_trans(new_val, fadd(old_val, loc@[1]@), loc@[1]@);
                    assert(feq(loc@[0int * 3 + 1]@, quad_entry(h@, 0, 1)));
                    lemma_feq_trans(new_val, loc@[1]@, quad_entry(h@, 0, 1));
                    lemma_feq_trans(new_val, quad_entry(h@, 0, 1), quad_entry(he, 0, 1));
                    assert(quad_asm_entry(cv, ge + 1, r0, c) == quad_entry(he, 0, 1));
                } else if r0 == 2 * ge + 0 && c == 2 * ge + 2 {
                    assert(g2[p] == old_val);
                    assert(feq(g3[p], fadd(g2[p], loc@[2]@)));
                    assert(new_val == g3[p]);
                    assert(quad_asm_entry(cv, ge, r0, c) == f_zero());
                    lemma_ops_wf(loc@[2]@, f_zero());
                    lemma_fadd_zero(loc@[2]@, old_val);
                    lemma_fadd_comm(loc@[2]@, old_val);
                    lemma_ops_wf(old_val, loc@[2]@);
                    lemma_feq_trans(new_val, fadd(old_val, loc@[2]@), loc@[2]@);
                    assert(feq(loc@[0int * 3 + 2]@, quad_entry(h@, 0, 2)));
                    lemma_feq_trans(new_val, loc@[2]@, quad_entry(h@, 0, 2));
                    lemma_feq_trans(new_val, quad_entry(h@, 0, 2), quad_entry(he, 0, 2));
                    assert(quad_asm_entry(cv, ge + 1, r0, c) == quad_entry(he, 0, 2));
                } else if r0 == 2 * ge + 1 && c == 2 * ge + 0 {
                    assert(g3[p] == old_val);
                    assert(feq(g4[p], fadd(g3[p], loc@[3]@)));
                    assert(new_val == g4[p]);
                    assert(quad_asm_entry(cv, ge, r0, c) == f_zero());
                    lemma_ops_wf(loc@[3]@, f_zero());
                    lemma_fadd_zero(loc@[3]@, old_val);
                    lemma_fadd_comm(loc@[3]@, old_val);
                    lemma_ops_wf(old_val, loc@[3]@);
                    lemma_feq_trans(new_val, fadd(old_val, loc@[3]@), loc@[3]@);
                    assert(feq(loc@[1int * 3 + 0]@, quad_entry(h@, 1, 0)));
                    lemma_feq_trans(new_val, loc@[3]@, quad_entry(h@, 1, 0));
                    lemma_feq_trans(new_val, quad_entry(h@, 1, 0), quad_entry(he, 1, 0));
                    assert(quad_asm_entry(cv, ge + 1, r0, c) == quad_entry(he, 1, 0));
                } else if r0 == 2 * ge + 1 && c == 2 * ge + 1 {
                    assert(g4[p] == old_val);
                    assert(feq(g5[p], fadd(g4[p], loc@[4]@)));
                    assert(new_val == g5[p]);
                    assert(quad_asm_entry(cv, ge, r0, c) == f_zero());
                    lemma_ops_wf(loc@[4]@, f_zero());
                    lemma_fadd_zero(loc@[4]@, old_val);
                    lemma_fadd_comm(loc@[4]@, old_val);
                    lemma_ops_wf(old_val, loc@[4]@);
                    lemma_feq_trans(new_val, fadd(old_val, loc@[4]@), loc@[4]@);
                    assert(feq(loc@[1int * 3 + 1]@, quad_entry(h@, 1, 1)));
                    lemma_feq_trans(new_val, loc@[4]@, quad_entry(h@, 1, 1));
                    lemma_feq_trans(new_val, quad_entry(h@, 1, 1), quad_entry(he, 1, 1));
                    assert(quad_asm_entry(cv, ge + 1, r0, c) == quad_entry(he, 1, 1));
                } else if r0 == 2 * ge + 1 && c == 2 * ge + 2 {
                    assert(g5[p] == old_val);
                    assert(feq(g6[p], fadd(g5[p], loc@[5]@)));
                    assert(new_val == g6[p]);
                    assert(quad_asm_entry(cv, ge, r0, c) == f_zero());
                    lemma_ops_wf(loc@[5]@, f_zero());
                    lemma_fadd_zero(loc@[5]@, old_val);
                    lemma_fadd_comm(loc@[5]@, old_val);
                    lemma_ops_wf(old_val, loc@[5]@);
                    lemma_feq_trans(new_val, fadd(old_val, loc@[5]@), loc@[5]@);
                    assert(feq(loc@[1int * 3 + 2]@, quad_entry(h@, 1, 2)));
                    lemma_feq_trans(new_val, loc@[5]@, quad_entry(h@, 1, 2));
                    lemma_feq_trans(new_val, quad_entry(h@, 1, 2), quad_entry(he, 1, 2));
                    assert(quad_asm_entry(cv, ge + 1, r0, c) == quad_entry(he, 1, 2));
                } else if r0 == 2 * ge + 2 && c == 2 * ge + 0 {
                    assert(g6[p] == old_val);
                    assert(feq(g7[p], fadd(g6[p], loc@[6]@)));
                    assert(new_val == g7[p]);
                    assert(quad_asm_entry(cv, ge, r0, c) == f_zero());
                    lemma_ops_wf(loc@[6]@, f_zero());
                    lemma_fadd_zero(loc@[6]@, old_val);
                    lemma_fadd_comm(loc@[6]@, old_val);
                    lemma_ops_wf(old_val, loc@[6]@);
                    lemma_feq_trans(new_val, fadd(old_val, loc@[6]@), loc@[6]@);
                    assert(feq(loc@[2int * 3 + 0]@, quad_entry(h@, 2, 0)));
                    lemma_feq_trans(new_val, loc@[6]@, quad_entry(h@, 2, 0));
                    lemma_feq_trans(new_val, quad_entry(h@, 2, 0), quad_entry(he, 2, 0));
                    assert(quad_asm_entry(cv, ge + 1, r0, c) == quad_entry(he, 2, 0));
                } else if r0 == 2 * ge + 2 && c == 2 * ge + 1 {
                    assert(g7[p] == old_val);
                    assert(feq(g8[p], fadd(g7[p], loc@[7]@)));
                    assert(new_val == g8[p]);
                    assert(quad_asm_entry(cv, ge, r0, c) == f_zero());
                    lemma_ops_wf(loc@[7]@, f_zero());
                    lemma_fadd_zero(loc@[7]@, old_val);
                    lemma_fadd_comm(loc@[7]@, old_val);
                    lemma_ops_wf(old_val, loc@[7]@);
                    lemma_feq_trans(new_val, fadd(old_val, loc@[7]@), loc@[7]@);
                    assert(feq(loc@[2int * 3 + 1]@, quad_entry(h@, 2, 1)));
                    lemma_feq_trans(new_val, loc@[7]@, quad_entry(h@, 2, 1));
                    lemma_feq_trans(new_val, quad_entry(h@, 2, 1), quad_entry(he, 2, 1));
                    assert(quad_asm_entry(cv, ge + 1, r0, c) == quad_entry(he, 2, 1));
                } else if r0 == 2 * ge + 2 && c == 2 * ge + 2 {
                    assert(g8[p] == old_val);
                    assert(feq(sys.av()[p], fadd(g8[p], loc@[8]@)));
                    assert(quad_asm_entry(cv, ge, r0, c) == fadd(f_zero(), f_zero()));
                    lemma_ops_wf(f_zero(), f_zero());
                    lemma_fadd_zero(f_zero(), f_zero());
                    lemma_feq_trans(old_val, fadd(f_zero(), f_zero()), f_zero());
                    lemma_ops_wf(loc@[8]@, f_zero());
                    lemma_fadd_zero(loc@[8]@, old_val);
                    lemma_fadd_comm(loc@[8]@, old_val);
                    lemma_ops_wf(old_val, loc@[8]@);
                    lemma_feq_trans(new_val, fadd(old_val, loc@[8]@), loc@[8]@);
                    assert(loc@[2int * 3 + 2] == loc@[8]);
                    assert(feq(loc@[8]@, quad_entry(h@, 2, 2)));
                    lemma_feq_trans(new_val, loc@[8]@, quad_entry(h@, 2, 2));
                    lemma_feq_trans(new_val, quad_entry(h@, 2, 2), quad_entry(he, 2, 2));
                    let tgt = quad_entry(he, 2, 2);
                    lemma_ops_wf(tgt, f_zero());
                    lemma_fadd_zero(tgt, f_zero());
                    lemma_feq_trans(new_val, tgt, fadd(tgt, f_zero()));
                    assert(quad_asm_entry(cv, ge + 1, r0, c) == fadd(tgt, f_zero()));
                } else {
                    assert(new_val == old_val);
                    assert(quad_asm_entry(cv, ge + 1, r0, c) == quad_asm_entry(cv, ge, r0, c));
                }
            }
        }
        e = e + 1;
    }
    Ok(sys)
}

/// Assembles the 1-D global operator for the chosen basis: linear elements
/// carry the advection-diffusion form, quadratic elements the diffusion-only
/// stiffness (the advection inputs are not used there, matching the
/// element-operator forms of the two bases).
pub fn assemble_1d(coords: &Vec<Rat>, d: &Rat, v: &Rat, basis: BasisFunction) -> (r: Result<
    System,
    FemError,
>)
    requires
        wf_rvec(coords@),
        d.wf(),
        v.wf(),
        2 <= coords@.len(),
        coords@.len() * coords@.len() <= usize::MAX,
        basis == BasisFunction::Quadratic ==> 3 <= coords@.len() && coords@.len() % 2 == 1,
        forall|i: int|
            0 <= i < coords@.len() - 1 ==> flt((#[trigger] coords@[i])@, coords@[i + 1]@),
    ensures
        r matches Err(e) ==> e == FemError::Overflow,
        r matches Ok(s) ==> {
            let n = coords@.len() as int;
            let cv = rvals(coords@);
            &&& s.wf()
            &&& s.n == coords@.len()
            &&& basis == BasisFunction::Linear ==> forall|r0: int, c: int|
                0 <= r0 < n && 0 <= c < n ==> feq(
                    #[trigger] ent(s.av(), n, r0, c),
                    lin_asm_entry(cv, d@, v@, n - 1, r0, c),
                )
            &&& basis == BasisFunction::Quadratic ==> forall|r0: int, c: int|
                0 <= r0 < n && 0 <= c < n ==> feq(
                    #[trigger] ent(s.av(), n, r0, c),
                    quad_asm_entry(cv, (n - 1) / 2, r0, c),
                )
            &&& forall|k: int| 0 <= k < n ==> s.b@[k] == rat_zero()
        },
{
    match basis {
        BasisFunction::Linear => assemble_linear_1d(coords, d, v),
        BasisFunction::Quadratic => assemble_quadratic_1d(coords),
    }
}

/// The 5-point-stencil coefficient of interior row `r` at column `c`:
/// `4` on the diagonal, `-1` at the four neighbour nodes, zero elsewhere.
pub open spec fn stencil_entry(nn: int, r: int, c: int) -> Frac {
    if c == r {
        f_int(4)
    } else if c == r - 1 || c == r + 1 || c == r - nn || c == r + nn {
        f_int(-1)
    } else {
        f_zero()
    }
}

/// Whether node `r` lies on an edge of the `nn`-by-`nn` node grid.
pub open spec fn on_boundary(nn: int, r: int) -> bool {
    r % nn == 0 || r % nn == nn - 1 || r / nn == 0 || r / nn == nn - 1
}

/// The prescribed value at boundary node `r`: `low` on the bottom and left
/// edges, `high` on the top and right edges. The bottom and top edges win at
/// the corners, matching the order in which the edges are enforced.
pub open spec fn edge_rat(nn: int, r: int, low: Rat, high: Rat) -> Rat {
    if r / nn == 0 {
        low
    } else if r / nn == nn - 1 {
        high
    } else if r % nn == 0 {
        low
    } else {
        high
    }
}

/// Row `r` of the flat matrix is the exact identity row.
pub open spec fn identity_row(a: Seq<Rat>, n: int, r: int) -> bool {
    forall|p: int|
        r * n <= p < r * n + n ==> #[trigger] a[p] == (if p == r * n + r {
            rat_one()
        } else {
            rat_zero()
        })
}


/// Overwrites every boundary row of the stencil system with its identity
/// row and prescribed load, leaving interior rows and loads untouched.
#[verifier::rlimit(50)]
fn enforce_edges(s0: System, nn: usize, low: Rat, high: Rat) -> (out: System)
    requires
        s0.wf(),
        2 <= nn,
        s0.n == nn * nn,
        (nn * nn) * (nn * nn) <= usize::MAX,
        low.wf(),
        high.wf(),
        forall|r0: int, c: int|
            0 <= r0 < nn * nn && 0 <= c < nn * nn && !on_boundary(nn as int, r0) ==> feq(
                #[trigger] ent(s0.av(), (nn * nn) as int, r0, c),
                stencil_entry(nn as int, r0, c),
            ),
        forall|k: int| 0 <= k < nn * nn ==> s0.b@[k] == rat_zero(),
    ensures
        out.wf(),
        out.n == nn * nn,
        forall|r0: int|
            0 <= r0 < nn * nn && on_boundary(nn as int, r0) ==> #[trigger] identity_row(
                out.a@,
                (nn * nn) as int,
                r0,
            ) && out.b@[r0] == edge_rat(nn as int, r0, low, high),
        forall|r0: int, c: int|
            0 <= r0 < nn * nn && 0 <= c < nn * nn && !on_boundary(nn as int, r0) ==> feq(
                #[trigger] ent(out.av(), (nn * nn) as int, r0, c),
                stencil_entry(nn as int, r0, c),
            ),
        forall|r0: int|
            0 <= r0 < nn * nn && !on_boundary(nn as int, r0) ==> out.b@[r0] == rat_zero(),
{
    let mut sys = s0;
    let ghost gm = nn as int;
    let n: usize = nn * nn;
    let ghost gn = n as int;
    proof {
        assert(gn == gm * gm);
    }
    let mut k: usize = 0;
    while k < n
        invariant
            k <= n,
            2 <= nn,
            gm == nn as int,
            n == nn * nn,
            gn == n as int,
            gn == gm * gm,
            sys.wf(),
            sys.n == n,
            low.wf(),
            high.wf(),
            forall|p: int|
                0 <= p < gn * gn && on_boundary(gm, p / gn) && p / gn < k
                    ==> #[trigger] sys.a@[p] == (if p == (p / gn) * gn + p / gn {
                    rat_one()
                } else {
                    rat_zero()
                }),
            forall|r0: int|
                0 <= r0 < k && on_boundary(gm, r0) ==> #[trigger] sys.b@[r0] == edge_rat(
                    gm,
                    r0,
                    low,
                    high,
                ),
            forall|r0: int, c: int|
                0 <= r0 < gn && 0 <= c < gn && !on_boundary(gm, r0) ==> feq(
                    #[trigger] ent(sys.av(), gn, r0, c),
                    stencil_entry(gm, r0, c),
                ),
            forall|r0: int| 0 <= r0 < gn && !on_boundary(gm, r0) ==> sys.b@[r0] == rat_zero(),
        decreases n - k,
    {
        let i: usize = k % nn;
        let j: usize = k / nn;
        proof {
            vstd::arithmetic::div_mod::lemma_fundamental_div_mod(k as int, gm);
            vstd::arithmetic::div_mod::lemma_mod_division_less_than_divisor(k as int, gm);
            assert((k as int) / gm < gm) by (nonlinear_arith)
                requires
                    k as int == gm * ((k as int) / gm) + (k as int) % gm,
                    0 <= (k as int) % gm < gm,
                    (k as int) < gm * gm,
                    gm >= 2,
                    (k as int) / gm >= 0,
            ;
        }
        if i == 0 || i == nn - 1 || j == 0 || j == nn - 1 {
            let g = if j == 0 {
                low
            } else if j == nn - 1 {
                high
            } else if i == 0 {
                low
            } else {
                high
            };
            let ghost a_pre = sys.a@;
            let ghost b_pre = sys.b@;
            let ghost f_pre = sys.av();
            sys.apply_dirichlet(k, g);
            proof {
                let gk = k as int;
                lemma_rvals_wf(sys.a@);
                assert(g == edge_rat(gm, gk, low, high));
                assert forall|r0: int, c: int|
                    0 <= r0 < gn && 0 <= c < gn && !on_boundary(gm, r0) implies feq(
                    #[trigger] ent(sys.av(), gn, r0, c),
                    stencil_entry(gm, r0, c),
                ) by {
                    lemma_flat_index(gn, r0, c);
                    let p = r0 * gn + c;
                    lemma_rvals_index(sys.a@, p);
                    lemma_rvals_index(a_pre, p);
                    assert(feq(ent(f_pre, gn, r0, c), stencil_entry(gm, r0, c)));
                    assert(ent(f_pre, gn, r0, c) == a_pre[p]@);
                    assert(r0 != gk);
                    assert(!(gk * gn <= p < gk * gn + gn)) by (nonlinear_arith)
                        requires
                            0 <= r0 < gn,
                            0 <= c < gn,
                            0 <= gk < gn,
                            r0 != gk,
                            p == r0 * gn + c,
                    ;
                    assert(sys.a@[p] == a_pre[p]);
                }
                assert forall|p: int|
                    0 <= p < gn * gn && on_boundary(gm, p / gn) && p / gn < gk + 1
                        implies #[trigger] sys.a@[p] == (if p == (p / gn) * gn + p / gn {
                    rat_one()
                } else {
                    rat_zero()
                }) by {
                    let r0 = p / gn;
                    vstd::arithmetic::div_mod::lemma_fundamental_div_mod(p, gn);
                    vstd::arithmetic::div_mod::lemma_mod_division_less_than_divisor(p, gn);
                    assert(r0 * gn <= p < r0 * gn + gn) by (nonlinear_arith)
                        requires
                            p == gn * r0 + p % gn,
                            0 <= p % gn < gn,
                    ;
                    if r0 == gk {
                        assert(gk * gn <= p < gk * gn + gn);
                    } else {
                        assert(!(gk * gn <= p < gk * gn + gn)) by (nonlinear_arith)
                            requires
                                r0 * gn <= p < r0 * gn + gn,
                                r0 != gk,
                                0 <= r0,
                                0 <= gk,
                        ;
                        assert(sys.a@[p] == a_pre[p]);
                    }
                }
                assert forall|r0: int|
                    0 <= r0 < gk + 1 && on_boundary(gm, r0) implies #[trigger] sys.b@[r0]
                    == edge_rat(gm, r0, low, high) by {
                    if r0 < gk {
                        assert(b_pre[r0] == edge_rat(gm, r0, low, high));
                    }
                }
            }
        }
        k = k + 1;
    }
    proof {
        assert forall|r0: int|
            0 <= r0 < gn && on_boundary(gm, r0) implies #[trigger] identity_row(
            sys.a@,
            gn,
            r0,
        ) by {
            assert forall|p: int|
                r0 * gn <= p < r0 * gn + gn implies #[trigger] sys.a@[p] == (if p == r0 * gn + r0 {
                rat_one()
            } else {
                rat_zero()
            }) by {
                assert(0 <= r0 * gn && r0 * gn + gn <= gn * gn) by (nonlinear_arith)
                    requires
                        0 <= r0 < gn,
                ;
                vstd::arithmetic::div_mod::lemma_fundamental_div_mod_converse_div(
                    p,
                    gn,
                    r0,
                    p - r0 * gn,
                );
                assert(p / gn == r0);
            }
        }
    }
    sys
}

/// Builds the 2-D Laplace system on an `nn`-by-`nn` node grid, row-major:
/// every interior row carries the 5-point relation, and every boundary row
/// is then overwritten with the exact identity row and its prescribed load
/// (`low` on the bottom and left edges, `high` on the top and right edges;
/// the bottom and top edges win at the corners). Interior loads are zero.
#[verifier::rlimit(50)]
pub fn assemble_laplace_2d(nn: usize, low: Rat, high: Rat) -> (r: Result<System, FemError>)
    requires
        2 <= nn,
        low.wf(),
        high.wf(),
        (nn * nn) * (nn * nn) <= usize::MAX,
    ensures
        r matches Err(e) ==> e == FemError::Overflow,
        r matches Ok(s) ==> {
            let gm = nn as int;
            let n = gm * gm;
            &&& s.wf()
            &&& s.n == nn * nn
            &&& forall|r0: int|
                0 <= r0 < n && on_boundary(gm, r0) ==> #[trigger] identity_row(s.a@, n, r0)
                    && s.b@[r0] == edge_rat(gm, r0, low, high)
            &&& forall|r0: int, c: int|
                0 <= r0 < n && 0 <= c < n && !on_boundary(gm, r0) ==> feq(
                    #[trigger] ent(s.av(), n, r0, c),
                    stencil_entry(gm, r0, c),
                )
            &&& forall|r0: int| 0 <= r0 < n && !on_boundary(gm, r0) ==> s.b@[r0] == rat_zero()
        },
{
    let ghost gm = nn as int;
    proof {
        assert(nn * nn >= nn && nn * nn >= 2 && nn * nn <= (nn * nn) * (nn * nn))
            by (nonlinear_arith)
            requires
                nn >= 2,
                (nn * nn) * (nn * nn) <= usize::MAX,
        ;
    }
    let n: usize = nn * nn;
    let ghost gn = n as int;
    let mut sys = System::new_zero(n);
    proof {
        assert forall|r0: int, c: int| 0 <= r0 < gn && 0 <= c < gn implies #[trigger] sys.a@[r0
            * gn + c] == rat_zero() by {
            lemma_flat_index(gn, r0, c);
        }
    }
    let four = Rat::from_int(4);
    let mone = Rat::from_int(-1);
    // first pass: scatter the 5-point relation into every interior row
    let mut r: usize = 0;
    while r < n
        invariant
            r <= n,
            2 <= nn,
            gm == nn as int,
            n == nn * nn,
            gn == n as int,
            gn == gm * gm,
            sys.wf(),
            sys.n == n,
            four.wf(),
            four@ == f_int(4),
            mone.wf(),
            mone@ == f_int(-1),
            forall|r0: int, c: int|
                0 <= r0 < gn && 0 <= c < gn && r0 < r && !on_boundary(gm, r0) ==> feq(
                    #[trigger] ent(sys.av(), gn, r0, c),
                    stencil_entry(gm, r0, c),
                ),
            forall|r0: int, c: int|
                0 <= r0 < gn && 0 <= c < gn && (r0 >= r || on_boundary(gm, r0))
                    ==> #[trigger] sys.a@[r0 * gn + c] == rat_zero(),
            forall|k: int| 0 <= k < gn ==> sys.b@[k] == rat_zero(),
        decreases n - r,
    {
        let i: usize = r % nn;
        let j: usize = r / nn;
        proof {
            vstd::arithmetic::div_mod::lemma_fundamental_div_mod(r as int, gm);
            vstd::arithmetic::div_mod::lemma_mod_division_less_than_divisor(r as int, gm);
            assert((r as int) / gm < gm) by (nonlinear_arith)
                requires
                    r as int == gm * ((r as int) / gm) + (r as int) % gm,
                    0 <= (r as int) % gm < gm,
                    (r as int) < gm * gm,
                    gm >= 2,
                    (r as int) / gm >= 0,
            ;
        }
        if 1 <= i && i < nn - 1 && 1 <= j && j < nn - 1 {
            proof {
                assert(r as int - gm >= 0 && r as int + gm < gn && r as int >= 1 && r as int + 1
                    < gn) by (nonlinear_arith)
                    requires
                        r as int == gm * (j as int) + (i as int),
                        1 <= (i as int) && (i as int) < gm - 1,
                        1 <= (j as int) && (j as int) < gm - 1,
                        gn == gm * gm,
                        gm >= 2,
                ;
            }
            let ghost a_pre = sys.a@;
            let ghost f0 = sys.av();
            let ghost gr = r as int;
            if let Err(err) = sys.add_at(r, r, four) {
                return Err(err);
            }
            let ghost f1 = sys.av();
            if let Err(err) = sys.add_at(r, r - 1, mone) {
                return Err(err);
            }
            let ghost f2 = sys.av();
            if let Err(err) = sys.add_at(r, r + 1, mone) {
                return Err(err);
            }
            let ghost f3 = sys.av();
            if let Err(err) = sys.add_at(r, r - nn, mone) {
                return Err(err);
            }
            let ghost f4 = sys.av();
            if let Err(err) = sys.add_at(r, r + nn, mone) {
                return Err(err);
            }
            proof {
                lemma_rvals_wf(sys.a@);
                assert forall|r0: int, c: int|
                    0 <= r0 < gn && 0 <= c < gn && r0 < gr + 1 && !on_boundary(gm, r0) implies feq(
                    #[trigger] ent(sys.av(), gn, r0, c),
                    stencil_entry(gm, r0, c),
                ) by {
                    lemma_flat_index(gn, r0, c);
                    let p = r0 * gn + c;
                    lemma_rvals_index(sys.a@, p);
                    lemma_rvals_index(a_pre, p);
                    let new_val = sys.av()[p];
                    if !(r0 == gr && c == gr) {
                        lemma_flat_neq(gn, r0, c, gr, gr);
                    }
                    if !(r0 == gr && c == gr - 1) {
                        lemma_flat_neq(gn, r0, c, gr, gr - 1);
                    }
                    if !(r0 == gr && c == gr + 1) {
                        lemma_flat_neq(gn, r0, c, gr, gr + 1);
                    }
                    if !(r0 == gr && c == gr - gm) {
                        lemma_flat_neq(gn, r0, c, gr, gr - gm);
                    }
                    if !(r0 == gr && c == gr + gm) {
                        lemma_flat_neq(gn, r0, c, gr, gr + gm);
                    }
                    if r0 < gr {
                        assert(feq(ent(f0, gn, r0, c), stencil_entry(gm, r0, c)));
                        assert(sys.a@[p] == a_pre[p]);
                        assert(ent(f0, gn, r0, c) == a_pre[p]@);
                        assert(new_val == a_pre[p]@);
                    } else {
                        assert(r0 == gr);
                        assert(a_pre[p] == rat_zero());
                        let z = rat_zero()@;
                        lemma_ops_wf(z, f_zero());
                        if c == gr {
                            assert(feq(f1[p], fadd(f0[p], four@)));
                            assert(f0[p] == z);
                            assert(new_val == f1[p]);
                            lemma_ops_wf(f_int(4), f_zero());
                            lemma_fadd_zero(f_int(4), z);
                            lemma_fadd_comm(f_int(4), z);
                            lemma_ops_wf(z, f_int(4));
                            lemma_feq_trans(new_val, fadd(z, f_int(4)), f_int(4));
                        } else if c == gr - 1 {
                            assert(f1[p] == f0[p]);
                            assert(feq(f2[p], fadd(f1[p], mone@)));
                            assert(new_val == f2[p]);
                            lemma_ops_wf(f_int(-1), f_zero());
                            lemma_fadd_zero(f_int(-1), z);
                            lemma_fadd_comm(f_int(-1), z);
                            lemma_ops_wf(z, f_int(-1));
                            lemma_feq_trans(new_val, fadd(z, f_int(-1)), f_int(-1));
                        } else if c == gr + 1 {
                            assert(f2[p] == f0[p]);
                            assert(feq(f3[p], fadd(f2[p], mone@)));
                            assert(new_val == f3[p]);
                            lemma_ops_wf(f_int(-1), f_zero());
                            lemma_fadd_zero(f_int(-1), z);
                            lemma_fadd_comm(f_int(-1), z);
                            lemma_ops_wf(z, f_int(-1));
                            lemma_feq_trans(new_val, fadd(z, f_int(-1)), f_int(-1));
                        } else if c == gr - gm {
                            assert(f3[p] == f0[p]);
                            assert(feq(f4[p], fadd(f3[p], mone@)));
                            assert(new_val == f4[p]);
                            lemma_ops_wf(f_int(-1), f_zero());
                            lemma_fadd_zero(f_int(-1), z);
                            lemma_fadd_comm(f_int(-1), z);
                            lemma_ops_wf(z, f_int(-1));
                            lemma_feq_trans(new_val, fadd(z, f_int(-1)), f_int(-1));
                        } else if c == gr + gm {
                            assert(f4[p] == f0[p]);
                            assert(feq(sys.av()[p], fadd(f4[p], mone@)));
                            lemma_ops_wf(f_int(-1), f_zero());
                            lemma_fadd_zero(f_int(-1), z);
                            lemma_fadd_comm(f_int(-1), z);
                            lemma_ops_wf(z, f_int(-1));
                            lemma_feq_trans(new_val, fadd(z, f_int(-1)), f_int(-1));
                        } else {
                            assert(sys.a@[p] == a_pre[p]);
                        }
                    }
                }
                assert forall|r0: int, c: int|
                    0 <= r0 < gn && 0 <= c < gn && (r0 >= gr + 1 || on_boundary(gm, r0))
                        implies #[trigger] sys.a@[r0 * gn + c] == rat_zero() by {
                    lemma_flat_index(gn, r0, c);
                    lemma_flat_neq(gn, r0, c, gr, gr);
                    lemma_flat_neq(gn, r0, c, gr, gr - 1);
                    lemma_flat_neq(gn, r0, c, gr, gr + 1);
                    lemma_flat_neq(gn, r0, c, gr, gr - gm);
                    lemma_flat_neq(gn, r0, c, gr, gr + gm);
                    assert(a_pre[r0 * gn + c] == rat_zero());
                }
            }
        }
        r = r + 1;
    }
    let sys = enforce_edges(sys, nn, low, high);
    Ok(sys)
}

} // verus!
