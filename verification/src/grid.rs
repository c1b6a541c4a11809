//! Grid generation: equally spaced node coordinates over a 1-D interval.
//!
//! For `m` linear elements the grid holds `m + 1` nodes; for `m` quadratic
//! elements it holds `2 m + 1` nodes, so that every element owns one interior
//! midpoint. The coordinates are exact: node `i` sits at `i * (length / divs)`,
//! the sequence is strictly increasing, starts at zero and ends exactly at
//! `length`.

use vstd::prelude::*;
use crate::FemError;
use crate::element::{BasisFunction, lemma_pos_nonzero};
use crate::rat::{
    Frac, Rat, f_wf, f_zero, f_int, feq, flt, fmul, fdiv, iabs,
    lemma_feq_trans, lemma_ops_wf, lemma_fmul_cong,
};
use crate::system::wf_rvec;

verus! {

/// The exact coordinate of node `i` on a grid of `divs` equal sub-intervals
/// spanning `[0, length]`.
pub open spec fn node_coord(length: Frac, divs: int, i: int) -> Frac {
    fmul(f_int(i), fdiv(length, f_int(divs)))
}

/// Node `i` sits strictly left of node `i + 1`, the first node at zero and
/// the last node exactly at `length`.
proof fn lemma_coord_facts(length: Frac, divs: int, i: int)
    requires
        f_wf(length),
        flt(f_zero(), length),
        1 <= divs,
        0 <= i,
    ensures
        i < divs ==> flt(node_coord(length, divs, i), node_coord(length, divs, i + 1)),
        i == 0 ==> feq(node_coord(length, divs, i), f_zero()),
        i == divs ==> feq(node_coord(length, divs, i), length),
        f_wf(node_coord(length, divs, i)),
{
    let dx = fdiv(length, f_int(divs));
    assert(dx.n == length.n * 1 && dx.d == length.d * divs);
    assert(length.n > 0);
    assert(dx.n > 0) by (nonlinear_arith)
        requires
            dx.n == length.n * 1,
            length.n > 0,
    ;
    assert(dx.d > 0) by (nonlinear_arith)
        requires
            dx.d == length.d * divs,
            length.d > 0,
            divs >= 1,
    ;
    if i < divs {
        assert((i * dx.n) * (1 * dx.d) < ((i + 1) * dx.n) * (1 * dx.d)) by (nonlinear_arith)
            requires
                dx.n > 0,
                dx.d > 0,
                0 <= i,
        ;
    }
    if i == 0 {
        assert((0 * dx.n) * 1 == 0 * (1 * dx.d)) by (nonlinear_arith);
    }
    if i == divs {
        assert((i * dx.n) * length.d == length.n * (1 * dx.d)) by (nonlinear_arith)
            requires
                dx.n == length.n * 1,
                dx.d == length.d * divs,
                i == divs,
        ;
    }
}

/// Generates the node coordinates of a 1-D grid: `m + 1` nodes for `m`
/// linear elements, `2 m + 1` nodes for `m` quadratic elements. A zero
/// element count or a non-positive length is rejected before any spacing is
/// computed.
pub fn generate_nodes_1d(length: &Rat, m: usize, basis: BasisFunction) -> (r: Result<
    Vec<Rat>,
    FemError,
>)
    requires
        length.wf(),
    ensures
        (m == 0 || !flt(f_zero(), length@)) <==> (r matches Err(e) && e
            == FemError::DegenerateInput),
        r matches Err(e) ==> e == FemError::DegenerateInput || e == FemError::Overflow,
        (m >= 1 && m <= 0x10000 && flt(f_zero(), length@) && iabs(length@.n) <= 0x10000
            && length@.d <= 0x10000) ==> r matches Ok(_),
        r matches Ok(c) ==> {
            let divs = if basis == BasisFunction::Linear {
                m as int
            } else {
                2 * m as int
            };
            &&& c@.len() == divs + 1
            &&& wf_rvec(c@)
            &&& forall|i: int|
                0 <= i <= divs ==> feq((#[trigger] c@[i])@, node_coord(length@, divs, i))
            &&& forall|i: int| 0 <= i < divs ==> flt(c@[i]@, #[trigger] c@[i + 1]@)
            &&& feq(c@[0]@, f_zero())
            &&& feq(c@[divs]@, length@)
        },
{
    if m == 0 {
        return Err(FemError::DegenerateInput);
    }
    let zero = Rat::zero();
    if !zero.lt(length) {
        return Err(FemError::DegenerateInput);
    }
    let divs: usize = match basis {
        BasisFunction::Linear => m,
        BasisFunction::Quadratic => {
            if m > usize::MAX / 2 {
                return Err(FemError::Overflow);
            }
            2 * m
        },
    };
    if divs > 0x1000_0000 {
        return Err(FemError::Overflow);
    }
    let ghost bounded = m <= 0x10000 && iabs(length@.n) <= 0x10000 && length@.d <= 0x10000;
    let divs_r = Rat::from_int(divs as i64);
    proof {
        lemma_pos_nonzero(length@, length@);
        assert(divs_r@.n > 0);
        if bounded {
            assert(iabs(length@.n * divs_r@.d) <= 0x7fff_ffff_ffff_ffff && iabs(
                length@.d * divs_r@.n,
            ) <= 0x7fff_ffff_ffff_ffff) by (nonlinear_arith)
                requires
                    iabs(length@.n) <= 0x10000,
                    0 < length@.d <= 0x10000,
                    divs_r@.d == 1,
                    0 < divs_r@.n == divs as int <= 0x20000,
            ;
        }
    }
    let dx = match length.div(&divs_r) {
        Some(x) => x,
        None => {
            proof {
                assert(!bounded);
            }
            return Err(FemError::Overflow);
        },
    };
    proof {
        if bounded {
            assert(dx@.d <= iabs(length@.d * (divs as int)) && iabs(dx@.n) <= iabs(
                length@.n * 1,
            ));
            assert(iabs(length@.d * (divs as int)) <= 0x2000_0000_0000) by (nonlinear_arith)
                requires
                    0 < length@.d <= 0x10000,
                    0 < divs as int <= 0x20000,
            ;
        }
    }
    let mut c: Vec<Rat> = Vec::new();
    let mut i: usize = 0;
    while i <= divs
        invariant
            i <= divs + 1,
            1 <= divs,
            m >= 1,
            divs <= 0x1000_0000,
            c@.len() == i,
            length.wf(),
            dx.wf(),
            flt(f_zero(), length@),
            feq(dx@, fdiv(length@, f_int(divs as int))),
            bounded == (m <= 0x10000 && iabs(length@.n) <= 0x10000 && length@.d <= 0x10000),
            divs <= 2 * m,
            bounded ==> iabs(dx@.n) <= 0x10000 && dx@.d <= 0x2000_0000_0000,
            forall|p: int| 0 <= p < i ==> (#[trigger] c@[p]).wf(),
            forall|p: int|
                0 <= p < i ==> feq((#[trigger] c@[p])@, node_coord(length@, divs as int, p)),
        decreases divs + 1 - i,
    {
        let ir = Rat::from_int(i as i64);
        proof {
            if bounded {
                assert(iabs(ir@.n * dx@.n) <= 0x7fff_ffff_ffff_ffff && ir@.d * dx@.d
                    <= 0x7fff_ffff_ffff_ffff) by (nonlinear_arith)
                    requires
                        0 <= ir@.n == i as int <= 0x20000,
                        iabs(dx@.n) <= 0x10000,
                        ir@.d == 1,
                        0 < dx@.d <= 0x2000_0000_0000,
                ;
            }
        }
        let ci = match ir.mul(&dx) {
            Some(x) => x,
            None => {
                proof {
                    assert(!bounded);
                }
                return Err(FemError::Overflow);
            },
        };
        proof {
            lemma_ops_wf(length@, f_int(divs as int));
            lemma_fmul_cong(ir@, dx@, f_int(i as int), fdiv(length@, f_int(divs as int)));
            lemma_ops_wf(ir@, dx@);
            lemma_ops_wf(f_int(i as int), fdiv(length@, f_int(divs as int)));
            lemma_feq_trans(ci@, fmul(ir@, dx@), node_coord(length@, divs as int, i as int));
        }
        c.push(ci);
        i = i + 1;
    }
    proof {
        assert forall|p: int| 0 <= p < divs as int implies flt(c@[p]@, #[trigger] c@[p + 1]@) by {
            lemma_coord_facts(length@, divs as int, p);
            lemma_flt_feq_transfer(
                node_coord(length@, divs as int, p),
                node_coord(length@, divs as int, p + 1),
                c@[p]@,
                c@[p + 1]@,
            );
        }
        lemma_coord_facts(length@, divs as int, 0);
        lemma_coord_facts(length@, divs as int, divs as int);
        lemma_ops_wf(f_zero(), f_zero());
        assert(feq(c@[0]@, f_zero())) by {
            lemma_feq_trans(c@[0]@, node_coord(length@, divs as int, 0), f_zero());
        }
        assert(feq(c@[divs as int]@, length@)) by {
            lemma_feq_trans(c@[divs as int]@, node_coord(length@, divs as int, divs as int), length@);
        }
    }
    Ok(c)
}

/// Strict order carries across value equality on both sides.
pub proof fn lemma_flt_feq_transfer(a: Frac, b: Frac, a2: Frac, b2: Frac)
    requires
        f_wf(a),
        f_wf(b),
        f_wf(a2),
        f_wf(b2),
        flt(a, b),
        feq(a2, a),
        feq(b2, b),
    ensures
        flt(a2, b2),
{
    assert(a2.n * b2.d < b2.n * a2.d) by (nonlinear_arith)
        requires
            a.n * b.d < b.n * a.d,
            a2.n * a.d == a.n * a2.d,
            b2.n * b.d == b.n * b2.d,
            a.d > 0,
            b.d > 0,
            a2.d > 0,
            b2.d > 0,
    ;
}

/// Generates the node coordinates of a square 2-D grid with `m` elements
/// per axis: `(m + 1) * (m + 1)` nodes in row-major order, node
/// `j * (m + 1) + i` at `(i * (length / m), j * (length / m))`. Degenerate
/// input is rejected exactly as in the 1-D case.
pub fn generate_nodes_2d(length: &Rat, m: usize) -> (r: Result<Vec<(Rat, Rat)>, FemError>)
    requires
        length.wf(),
    ensures
        (m == 0 || !flt(f_zero(), length@)) <==> (r matches Err(e) && e
            == FemError::DegenerateInput),
        r matches Err(e) ==> e == FemError::DegenerateInput || e == FemError::Overflow,
        r matches Ok(c) ==> {
            let nn = m + 1;
            &&& c@.len() == nn * nn
            &&& forall|k: int|
                0 <= k < nn * nn ==> {
                    &&& (#[trigger] c@[k]).0.wf()
                    &&& c@[k].1.wf()
                    &&& feq(c@[k].0@, node_coord(length@, m as int, k % (nn as int)))
                    &&& feq(c@[k].1@, node_coord(length@, m as int, k / (nn as int)))
                }
        },
{
    let axis = match generate_nodes_1d(length, m, BasisFunction::Linear) {
        Ok(a) => a,
        Err(e) => {
            return Err(e);
        },
    };
    let nn: usize = m + 1;
    if nn.checked_mul(nn).is_none() {
        return Err(FemError::Overflow);
    }
    let ghost gnn = nn as int;
    let mut c: Vec<(Rat, Rat)> = Vec::new();
    let mut j: usize = 0;
    while j < nn
        invariant
            j <= nn,
            nn == m + 1,
            nn * nn <= usize::MAX,
            axis@.len() == gnn,
            gnn == nn as int,
            length.wf(),
            forall|p: int| 0 <= p < gnn ==> (#[trigger] axis@[p]).wf(),
            forall|p: int|
                0 <= p < gnn ==> feq((#[trigger] axis@[p])@, node_coord(length@, m as int, p)),
            c@.len() == j * gnn,
            forall|k: int|
                0 <= k < j * gnn ==> {
                    &&& (#[trigger] c@[k]).0.wf()
                    &&& c@[k].1.wf()
                    &&& feq(c@[k].0@, node_coord(length@, m as int, k % gnn))
                    &&& feq(c@[k].1@, node_coord(length@, m as int, k / gnn))
                },
        decreases nn - j,
    {
        let mut i: usize = 0;
        proof {
            assert((j as int) * gnn + gnn <= gnn * gnn && (j as int) * gnn >= 0)
                by (nonlinear_arith)
                requires
                    0 <= (j as int) < gnn,
            ;
        }
        while i < nn
            invariant
                i <= nn,
                j < nn,
                nn == m + 1,
                nn * nn <= usize::MAX,
                axis@.len() == gnn,
                gnn == nn as int,
                length.wf(),
                (j as int) * gnn + gnn <= gnn * gnn,
                forall|p: int| 0 <= p < gnn ==> (#[trigger] axis@[p]).wf(),
                forall|p: int|
                    0 <= p < gnn ==> feq(
                        (#[trigger] axis@[p])@,
                        node_coord(length@, m as int, p),
                    ),
                c@.len() == j * gnn + i,
                forall|k: int|
                    0 <= k < j * gnn + i ==> {
                        &&& (#[trigger] c@[k]).0.wf()
                        &&& c@[k].1.wf()
                        &&& feq(c@[k].0@, node_coord(length@, m as int, k % gnn))
                        &&& feq(c@[k].1@, node_coord(length@, m as int, k / gnn))
                    },
            decreases nn - i,
        {
            c.push((axis[i], axis[j]));
            proof {
                let k = (j as int) * gnn + (i as int);
                vstd::arithmetic::div_mod::lemma_fundamental_div_mod_converse_div(
                    k,
                    gnn,
                    j as int,
                    i as int,
                );
                vstd::arithmetic::div_mod::lemma_fundamental_div_mod_converse_mod(
                    k,
                    gnn,
                    j as int,
                    i as int,
                );
            }
            i = i + 1;
        }
        proof {
            assert(((j as int) + 1) * gnn == (j as int) * gnn + gnn) by (nonlinear_arith);
        }
        j = j + 1;
    }
    proof {
        assert((gnn * gnn) == (nn * nn) as int);
    }
    Ok(c)
}

} // verus!
