use vstd::prelude::*;

verus! {

/// Number of cells along one side of the grid.
pub const GRID_SIDE: usize = 9;

/// Number of cells along one side of a box.
pub const BOX_SIDE: usize = 3;

/// Smallest value a cell may hold.
pub const VALUE_MIN: u8 = 1;

/// Largest value a cell may hold.
pub const VALUE_MAX: u8 = 9;

} // verus!
