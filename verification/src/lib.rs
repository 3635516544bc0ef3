use vstd::prelude::*;

pub mod bits;
pub mod commands;
pub mod constants;
pub mod exact_cover;
pub mod sudoku_game;
pub mod test_harness;
pub mod text;
pub mod tokens;

verus! {
} // verus!
