//! Variable-size Sudoku: constraint groups, validation and a backtracking
//! solver, with their behaviour stated as contracts and proved.
use vstd::prelude::*;

pub mod groups;
pub mod validity;
pub mod solver;

pub use groups::{checked_sudoku_indices, sudoku_indices, GroupsError};
pub use validity::valid_sudoku;
pub use solver::solve_sudoku;

verus! {

/// The value held by a filled cell.
pub type IType = i32;

/// A flat, row-major grid of `n^4` cells; `None` marks an empty cell.
pub type Grid = Vec<Option<IType>>;

} // verus!
