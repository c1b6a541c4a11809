//! Boundary vocabulary for structured grids.

use vstd::prelude::*;

verus! {

/// The six faces of a structured block, by axis and end.
#[derive(Clone, Copy, Debug, PartialEq, Eq, Structural)]
pub enum Boundary {
    IMin,
    IMax,
    JMin,
    JMax,
    KMin,
    KMax,
}

/// The physical kind of a boundary patch.
#[derive(Clone, Copy, Debug, PartialEq, Eq, Structural)]
pub enum BoundaryType {
    Wall,
    VelocityInlet,
    PressureOutlet,
}

} // verus!
