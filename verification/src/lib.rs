//! A small assembly-and-solve engine for one- and two-dimensional steady
//! diffusion and advection-diffusion boundary-value problems on structured
//! node grids.
//!
//! Every scalar in the pipeline is an exact rational number ([`rat::Rat`]),
//! so grid generation, element operators, scatter assembly, Dirichlet row
//! replacement and both linear solvers carry exact contracts: the direct
//! solver's result provably satisfies the assembled system, and the
//! iterative solver's iterates are pinned value-by-value.

use vstd::prelude::*;

pub mod assemble;
pub mod boundary;
pub mod direct;
pub mod element;
pub mod grid;
pub mod jacobi;
pub mod plot3d;
pub mod linalg;
pub mod system;
pub mod rat;

verus! {

/// Failure conditions of the assembly-and-solve pipeline.
#[derive(Clone, Copy, Debug, PartialEq, Eq, Structural)]
pub enum FemError {
    /// Degenerate input: zero elements or a non-positive domain length,
    /// rejected before any node spacing is computed.
    DegenerateInput,
    /// The direct solver met a pivot of magnitude at most `1e-12` during
    /// forward elimination; the solve is aborted, not retried with pivoting.
    SingularSystem,
    /// An exact rational value left the range this machine can represent.
    Overflow,
}

} // verus!
