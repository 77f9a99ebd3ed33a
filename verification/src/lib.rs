//! A 9x9 Sudoku solving library.
//!
//! A [`Grid`](grid::Grid) holds the 81 cell values; [`ValueSet`](value_set::ValueSet)
//! is a bitmask set of the digits 1..=9 used to track the remaining candidates of a
//! cell; [`SolveState`](state::SolveState) pairs a grid with the candidate set of
//! every cell and keeps them consistent under assignment; the solver explores the
//! search tree by copying a state, assigning one candidate and recursing, either
//! sequentially or with parallel branch fan-out.

pub mod board;
pub mod value_set;
pub mod grid;
pub mod rules;
pub mod state;
pub mod solver;
pub mod text;

pub use grid::Grid;
pub use rules::get_candidates;
pub use solver::{solve_recursive, solve_recursive_par};
pub use state::SolveState;
pub use text::{parse_grid, render_grid};
pub use value_set::{ValueSet, ValueSetIterator};

use vstd::prelude::*;

verus! {

/// Cell values are only 0 (empty) and 1..=9 for an assigned digit.
pub type CellValue = u8;

/// The sentinel value of an unassigned cell.
pub const EMPTY_CELL: CellValue = 0;

} // verus!
