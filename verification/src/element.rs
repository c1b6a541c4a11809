//! Element-level local operators.
//!
//! A linear (2-node) element yields a 2-by-2 local matrix combining the
//! Galerkin diffusion stiffness with the centred (non-upwinded) advection
//! form; a quadratic (3-node) element yields the exact 3-by-3 stiffness of
//! the one-dimensional quadratic Lagrange basis, diffusion only. The
//! diffusion-only matrices are symmetric and every row sums to zero, which
//! [`lemma_diffusion_local_rows`] and [`lemma_quadratic_local_rows`] prove.

use vstd::prelude::*;
use crate::FemError;
use crate::rat::{
    Frac, Rat, f_wf, f_zero, f_one, f_int, feq, flt, fadd, fneg, fsub, fmul, fdiv, iabs,
    lemma_feq_trans, lemma_ops_wf, lemma_fadd_cong, lemma_fmul_cong, lemma_fsub_cong,
    lemma_fdiv_cong, lemma_fneg_cong,
};
use crate::linalg::{lemma_fadd_zero, lemma_fadd_comm};
use crate::system::{rvals, wf_rvec};

verus! {

/// The shape-function family of an element.
#[derive(Clone, Copy, Debug, PartialEq, Eq, Structural)]
pub enum BasisFunction {
    Linear,
    Quadratic,
}

/// Geometric element kinds of structured and unstructured meshes.
#[derive(Clone, Copy, Debug, PartialEq, Eq, Structural)]
pub enum ElementType {
    Point,
    Segment,
    Triangle,
    Quadrilateral,
    Tetrahedron,
    Hexahedron,
}

/// Entry `(i, j)` of the 2-by-2 advection-diffusion local operator for an
/// element of length `h`, diffusion `d` and advection speed `v`.
pub open spec fn lin_entry(h: Frac, d: Frac, v: Frac, i: int, j: int) -> Frac {
    let dh = fdiv(d, h);
    let v2 = fdiv(v, f_int(2));
    if i == 0 && j == 0 {
        fsub(dh, v2)
    } else if i == 0 && j == 1 {
        fadd(fneg(dh), v2)
    } else if i == 1 && j == 0 {
        fsub(fneg(dh), v2)
    } else {
        fadd(dh, v2)
    }
}

/// The scale `1 / (3 h)` of the quadratic local stiffness matrix.
pub open spec fn quad_factor(h: Frac) -> Frac {
    fdiv(f_one(), fmul(f_int(3), h))
}

/// The integer coefficient at `(i, j)` of the quadratic local stiffness.
pub open spec fn quad_coeff(i: int, j: int) -> int {
    if i == 1 && j == 1 {
        16
    } else if i == 1 || j == 1 {
        -8
    } else if i == j {
        7
    } else {
        1
    }
}

/// Entry `(i, j)` of the 3-by-3 quadratic diffusion local operator.
pub open spec fn quad_entry(h: Frac, i: int, j: int) -> Frac {
    fmul(f_int(quad_coeff(i, j)), quad_factor(h))
}

/// A positive value has a positive numerator, and a value equal to it is
/// non-zero as well.
pub proof fn lemma_pos_nonzero(a: Frac, b: Frac)
    requires
        f_wf(a),
        f_wf(b),
        flt(f_zero(), a),
        feq(b, a),
    ensures
        a.n > 0,
        b.n > 0,
{
    assert(a.n > 0 && b.n > 0) by (nonlinear_arith)
        requires
            0 * a.d < a.n * 1,
            b.n * a.d == a.n * b.d,
            a.d > 0,
            b.d > 0,
    ;
}

/// Builds the 2-by-2 local operator of a linear element, flat row-major.
pub fn linear_element_matrix(h: &Rat, d: &Rat, v: &Rat) -> (r: Result<Vec<Rat>, FemError>)
    requires
        h.wf(),
        d.wf(),
        v.wf(),
        flt(f_zero(), h@),
    ensures
        r matches Ok(m) ==> {
            &&& m@.len() == 4
            &&& wf_rvec(m@)
            &&& feq(m@[0]@, lin_entry(h@, d@, v@, 0, 0))
            &&& feq(m@[1]@, lin_entry(h@, d@, v@, 0, 1))
            &&& feq(m@[2]@, lin_entry(h@, d@, v@, 1, 0))
            &&& feq(m@[3]@, lin_entry(h@, d@, v@, 1, 1))
        },
        r matches Err(e) ==> e == FemError::Overflow,
        (iabs(h@.n) <= 0x1000 && h@.d <= 0x1000 && iabs(d@.n) <= 0x1000 && d@.d <= 0x1000 && iabs(
            v@.n,
        ) <= 0x1000 && v@.d <= 0x1000) ==> r matches Ok(_),
{
    proof {
        lemma_pos_nonzero(h@, h@);
    }
    let ghost bounded = iabs(h@.n) <= 0x1000 && h@.d <= 0x1000 && iabs(d@.n) <= 0x1000 && d@.d
        <= 0x1000 && iabs(v@.n) <= 0x1000 && v@.d <= 0x1000;
    let two = Rat::from_int(2);
    proof {
        if bounded {
            assert(iabs(d@.n * h@.d) <= 0x100_0000 && iabs(d@.d * h@.n) <= 0x100_0000 && iabs(
                v@.n * two@.d,
            ) <= 0x1000 && iabs(v@.d * two@.n) <= 0x2000) by (nonlinear_arith)
                requires
                    iabs(h@.n) <= 0x1000,
                    0 < h@.d <= 0x1000,
                    iabs(d@.n) <= 0x1000,
                    0 < d@.d <= 0x1000,
                    iabs(v@.n) <= 0x1000,
                    0 < v@.d <= 0x1000,
                    two@.n == 2,
                    two@.d == 1,
            ;
        }
    }
    let dh = match d.div(h) {
        Some(x) => x,
        None => {
            proof {
                assert(!bounded);
            }
            return Err(FemError::Overflow);
        },
    };
    let v2 = match v.div(&two) {
        Some(x) => x,
        None => {
            proof {
                assert(!bounded);
            }
            return Err(FemError::Overflow);
        },
    };
    proof {
        if bounded {
            assert(iabs(dh@.n * v2@.d - v2@.n * dh@.d) <= 0x7fff_ffff_ffff_ffff && iabs(
                dh@.n * v2@.d + v2@.n * dh@.d,
            ) <= 0x7fff_ffff_ffff_ffff && dh@.d * v2@.d <= 0x7fff_ffff_ffff_ffff && iabs(
                (-dh@.n) * v2@.d - v2@.n * dh@.d,
            ) <= 0x7fff_ffff_ffff_ffff && iabs((-dh@.n) * v2@.d + v2@.n * dh@.d)
                <= 0x7fff_ffff_ffff_ffff) by (nonlinear_arith)
                requires
                    iabs(dh@.n) <= 0x100_0000,
                    0 < dh@.d <= 0x100_0000,
                    iabs(v2@.n) <= 0x1000,
                    0 < v2@.d <= 0x2000,
            ;
        }
    }
    let m00 = match dh.sub(&v2) {
        Some(x) => x,
        None => {
            proof {
                assert(!bounded);
            }
            return Err(FemError::Overflow);
        },
    };
    let ndh = dh.neg();
    let m01 = match ndh.add(&v2) {
        Some(x) => x,
        None => {
            proof {
                assert(!bounded);
            }
            return Err(FemError::Overflow);
        },
    };
    let m10 = match ndh.sub(&v2) {
        Some(x) => x,
        None => {
            proof {
                assert(!bounded);
            }
            return Err(FemError::Overflow);
        },
    };
    let m11 = match dh.add(&v2) {
        Some(x) => x,
        None => {
            proof {
                assert(!bounded);
            }
            return Err(FemError::Overflow);
        },
    };
    proof {
        let sdh = fdiv(d@, h@);
        let sv2 = fdiv(v@, f_int(2));
        lemma_ops_wf(d@, h@);
        lemma_ops_wf(v@, f_int(2));
        lemma_ops_wf(sdh, sv2);
        lemma_ops_wf(fneg(sdh), sv2);
        lemma_ops_wf(dh@, v2@);
        lemma_ops_wf(fneg(dh@), v2@);
        lemma_fsub_cong(dh@, v2@, sdh, sv2);
        lemma_fneg_cong(dh@, sdh);
        lemma_fadd_cong(fneg(dh@), v2@, fneg(sdh), sv2);
        lemma_fsub_cong(fneg(dh@), v2@, fneg(sdh), sv2);
        lemma_fadd_cong(dh@, v2@, sdh, sv2);
        lemma_ops_wf(fsub(dh@, v2@), f_zero());
        lemma_feq_trans(m00@, fsub(dh@, v2@), fsub(sdh, sv2));
        lemma_feq_trans(m01@, fadd(fneg(dh@), v2@), fadd(fneg(sdh), sv2));
        lemma_feq_trans(m10@, fsub(fneg(dh@), v2@), fsub(fneg(sdh), sv2));
        lemma_feq_trans(m11@, fadd(dh@, v2@), fadd(sdh, sv2));
    }
    let mut m: Vec<Rat> = Vec::new();
    m.push(m00);
    m.push(m01);
    m.push(m10);
    m.push(m11);
    Ok(m)
}

/// Multiplies an integer coefficient onto the shared scale factor.
fn coeff_times(c: i64, factor: &Rat) -> (r: Result<Rat, FemError>)
    requires
        factor.wf(),
        c > i64::MIN,
    ensures
        r matches Ok(x) ==> x.wf() && feq(x@, fmul(f_int(c as int), factor@)),
        r matches Err(e) ==> e == FemError::Overflow,
        (iabs(c as int * factor@.n) <= 0x7fff_ffff_ffff_ffff && factor@.d
            <= 0x7fff_ffff_ffff_ffff) ==> r matches Ok(_),
{
    let cr = Rat::from_int(c);
    proof {
        assert(1 * factor@.d == factor@.d) by (nonlinear_arith);
    }
    match cr.mul(factor) {
        Some(x) => Ok(x),
        None => Err(FemError::Overflow),
    }
}

/// Carries an entry's value across the factor's value equality.
proof fn lemma_entry_chain(e: Frac, c: int, fv: Frac, h: Frac)
    requires
        f_wf(e),
        f_wf(fv),
        f_wf(h),
        f_wf(quad_factor(h)),
        feq(e, fmul(f_int(c), fv)),
        feq(fv, quad_factor(h)),
    ensures
        feq(e, fmul(f_int(c), quad_factor(h))),
{
    lemma_fmul_cong(f_int(c), fv, f_int(c), quad_factor(h));
    lemma_ops_wf(f_int(c), fv);
    lemma_ops_wf(f_int(c), quad_factor(h));
    lemma_feq_trans(e, fmul(f_int(c), fv), fmul(f_int(c), quad_factor(h)));
}

/// Builds the 3-by-3 local stiffness of a quadratic element, flat row-major.
pub fn quadratic_element_matrix(h: &Rat) -> (r: Result<Vec<Rat>, FemError>)
    requires
        h.wf(),
        flt(f_zero(), h@),
    ensures
        r matches Ok(m) ==> {
            &&& m@.len() == 9
            &&& wf_rvec(m@)
            &&& forall|i: int, j: int|
                0 <= i < 3 && 0 <= j < 3 ==> feq(#[trigger] m@[i * 3 + j]@, quad_entry(h@, i, j))
        },
        r matches Err(e) ==> e == FemError::Overflow,
        (iabs(h@.n) <= 0x1000 && h@.d <= 0x1000) ==> r matches Ok(_),
{
    let ghost bounded = iabs(h@.n) <= 0x1000 && h@.d <= 0x1000;
    let three = Rat::from_int(3);
    proof {
        if bounded {
            assert(iabs(three@.n * h@.n) <= 0x3000 && three@.d * h@.d <= 0x1000)
                by (nonlinear_arith)
                requires
                    iabs(h@.n) <= 0x1000,
                    0 < h@.d <= 0x1000,
                    three@.n == 3,
                    three@.d == 1,
            ;
        }
    }
    let th = match three.mul(h) {
        Some(x) => x,
        None => {
            proof {
                assert(!bounded);
            }
            return Err(FemError::Overflow);
        },
    };
    proof {
        let p = fmul(f_int(3), h@);
        assert(p.n > 0 && p.d > 0) by (nonlinear_arith)
            requires
                p.n == 3 * h@.n,
                p.d == 1 * h@.d,
                0 * h@.d < h@.n * 1,
                h@.d > 0,
        ;
        lemma_pos_nonzero(p, th@);
    }
    let one = Rat::one();
    proof {
        if bounded {
            assert(iabs(one@.n * th@.d) <= 0x1000 && iabs(one@.d * th@.n) <= 0x3000)
                by (nonlinear_arith)
                requires
                    iabs(th@.n) <= 0x3000,
                    0 < th@.d <= 0x1000,
                    one@.n == 1,
                    one@.d == 1,
            ;
        }
    }
    let factor = match one.div(&th) {
        Some(x) => x,
        None => {
            proof {
                assert(!bounded);
            }
            return Err(FemError::Overflow);
        },
    };
    proof {
        lemma_ops_wf(f_int(3), h@);
        lemma_fdiv_cong(f_one(), th@, f_one(), fmul(f_int(3), h@));
        lemma_ops_wf(f_one(), th@);
        lemma_ops_wf(f_one(), fmul(f_int(3), h@));
        lemma_feq_trans(factor@, fdiv(f_one(), th@), quad_factor(h@));
        if bounded {
            assert(iabs(7 * factor@.n) <= 0x7000 && iabs(-8 * factor@.n) <= 0x8000 && iabs(
                1 * factor@.n,
            ) <= 0x1000 && iabs(16 * factor@.n) <= 0x10000) by (nonlinear_arith)
                requires
                    iabs(factor@.n) <= 0x1000,
            ;
        }
    }
    proof {
        if bounded {
            assert(factor@.d <= 0x3000);
        }
    }
    let e00 = coeff_times(7, &factor)?;
    let e01 = coeff_times(-8, &factor)?;
    let e02 = coeff_times(1, &factor)?;
    let e10 = coeff_times(-8, &factor)?;
    let e11 = coeff_times(16, &factor)?;
    let e12 = coeff_times(-8, &factor)?;
    let e20 = coeff_times(1, &factor)?;
    let e21 = coeff_times(-8, &factor)?;
    let e22 = coeff_times(7, &factor)?;
    proof {
        lemma_entry_chain(e00@, 7, factor@, h@);
        lemma_entry_chain(e01@, -8, factor@, h@);
        lemma_entry_chain(e02@, 1, factor@, h@);
        lemma_entry_chain(e10@, -8, factor@, h@);
        lemma_entry_chain(e11@, 16, factor@, h@);
        lemma_entry_chain(e12@, -8, factor@, h@);
        lemma_entry_chain(e20@, 1, factor@, h@);
        lemma_entry_chain(e21@, -8, factor@, h@);
        lemma_entry_chain(e22@, 7, factor@, h@);
    }
    let mut m: Vec<Rat> = Vec::new();
    m.push(e00);
    m.push(e01);
    m.push(e02);
    m.push(e10);
    m.push(e11);
    m.push(e12);
    m.push(e20);
    m.push(e21);
    m.push(e22);
    proof {
        assert forall|i: int, j: int| 0 <= i < 3 && 0 <= j < 3 implies feq(
            #[trigger] m@[i * 3 + j]@,
            quad_entry(h@, i, j),
        ) by {
            assert(0 <= i * 3 + j < 9) by (nonlinear_arith)
                requires
                    0 <= i < 3,
                    0 <= j < 3,
            ;
        }
    }
    Ok(m)
}

/// A value minus itself is zero, and a value plus its negation is zero.
pub proof fn lemma_add_neg_zero(a: Frac)
    requires
        f_wf(a),
    ensures
        feq(fadd(a, fneg(a)), f_zero()),
        feq(fsub(a, a), f_zero()),
{
    assert((a.n * a.d + (-a.n) * a.d) * 1 == 0 * (a.d * a.d)) by (nonlinear_arith);
}

/// Each row of the diffusion-only linear local operator sums to zero, and
/// the matrix is symmetric. This holds for every positive element length.
pub proof fn lemma_diffusion_local_rows(h: Frac, d: Frac, v: Frac)
    requires
        f_wf(h),
        f_wf(d),
        f_wf(v),
        flt(f_zero(), h),
        feq(v, f_zero()),
    ensures
        feq(fadd(lin_entry(h, d, v, 0, 0), lin_entry(h, d, v, 0, 1)), f_zero()),
        feq(fadd(lin_entry(h, d, v, 1, 0), lin_entry(h, d, v, 1, 1)), f_zero()),
        feq(lin_entry(h, d, v, 0, 1), lin_entry(h, d, v, 1, 0)),
{
    lemma_pos_nonzero(h, h);
    let dh = fdiv(d, h);
    let v2 = fdiv(v, f_int(2));
    lemma_ops_wf(d, h);
    lemma_ops_wf(v, f_int(2));
    lemma_ops_wf(dh, v2);
    lemma_ops_wf(fneg(dh), v2);
    assert(v2.n == 0) by (nonlinear_arith)
        requires
            v.n == 0,
            v2.n == v.n * 1,
    ;
    // row 0: (dh - v2) + (-dh + v2) ~ 0
    assert(feq(fadd(fsub(dh, v2), fadd(fneg(dh), v2)), f_zero())) by {
        let l = fadd(fsub(dh, v2), fadd(fneg(dh), v2));
        assert(l.n * 1 == 0 * l.d) by (nonlinear_arith)
            requires
                v2.n == 0,
                l.n == (dh.n * v2.d + (-v2.n) * dh.d) * (dh.d * v2.d) + ((-dh.n) * v2.d + v2.n
                    * dh.d) * (dh.d * v2.d),
    ;
    }
    // row 1: (-dh - v2) + (dh + v2) ~ 0
    assert(feq(fadd(fsub(fneg(dh), v2), fadd(dh, v2)), f_zero())) by {
        let l = fadd(fsub(fneg(dh), v2), fadd(dh, v2));
        assert(l.n * 1 == 0 * l.d) by (nonlinear_arith)
            requires
                v2.n == 0,
                l.n == ((-dh.n) * v2.d + (-v2.n) * dh.d) * (dh.d * v2.d) + (dh.n * v2.d + v2.n
                    * dh.d) * (dh.d * v2.d),
    ;
    }
    // symmetry: (-dh + v2) ~ (-dh - v2)
    assert(feq(fadd(fneg(dh), v2), fsub(fneg(dh), v2))) by {
        let l = fadd(fneg(dh), v2);
        let r = fsub(fneg(dh), v2);
        assert(l.n * r.d == r.n * l.d) by (nonlinear_arith)
            requires
                v2.n == 0,
                l.n == (-dh.n) * v2.d + v2.n * dh.d,
                r.n == (-dh.n) * v2.d + (-v2.n) * dh.d,
                l.d == dh.d * v2.d,
                r.d == dh.d * v2.d,
    ;
    }
}

/// Each row of the quadratic local stiffness sums to zero, and the matrix
/// is symmetric, for every positive element length.
pub proof fn lemma_quadratic_local_rows(h: Frac)
    requires
        f_wf(h),
        flt(f_zero(), h),
    ensures
        forall|i: int|
            0 <= i < 3 ==> feq(
                fadd(
                    fadd(#[trigger] quad_entry(h, i, 0), quad_entry(h, i, 1)),
                    quad_entry(h, i, 2),
                ),
                f_zero(),
            ),
        forall|i: int, j: int|
            0 <= i < 3 && 0 <= j < 3 ==> #[trigger] quad_entry(h, i, j) == quad_entry(h, j, i),
{
    let f = quad_factor(h);
    lemma_ops_wf(f_int(3), h);
    lemma_ops_wf(f_one(), fmul(f_int(3), h));
    assert forall|i: int| 0 <= i < 3 implies feq(
        fadd(fadd(#[trigger] quad_entry(h, i, 0), quad_entry(h, i, 1)), quad_entry(h, i, 2)),
        f_zero(),
    ) by {
        let c0 = quad_coeff(i, 0);
        let c1 = quad_coeff(i, 1);
        let c2 = quad_coeff(i, 2);
        assert(c0 + c1 + c2 == 0);
        let l = fadd(fadd(fmul(f_int(c0), f), fmul(f_int(c1), f)), fmul(f_int(c2), f));
        assert(l.n * 1 == 0 * l.d) by (nonlinear_arith)
            requires
                c0 + c1 + c2 == 0,
                l.n == ((c0 * f.n) * (1 * f.d) + (c1 * f.n) * (1 * f.d)) * (1 * f.d) + (c2 * f.n)
                    * ((1 * f.d) * (1 * f.d)),
        ;
    }
}

} // verus!
