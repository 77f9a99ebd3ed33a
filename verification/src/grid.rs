//! A 9x9 Sudoku grid: 81 cells in row-major order, each holding 0 (empty)
//! or a digit 1..=9. A plain value type with cell-by-cell equality; the
//! search copies whole grids instead of undoing mutations.

use vstd::prelude::*;
use vstd::slice::slice_to_vec;
use crate::board::{board_extends, board_filled, board_wf, cell_index};

verus! {

/// The 9x9 board of cell values, viewed as a sequence of 81 bytes.
#[derive(Debug)]
pub struct Grid {
    cells: Vec<u8>,
}

impl View for Grid {
    type V = Seq<u8>;

    closed spec fn view(&self) -> Seq<u8> {
        self.cells@
    }
}

impl Grid {
    /// The grid holds 81 cells, each 0 or a digit 1..=9.
    pub open spec fn wf(self) -> bool {
        board_wf(self@)
    }

    /// Builds a grid from 81 row-major cell values.
    pub fn new(values: &[u8]) -> (r: Grid)
        requires
            values@.len() == 81,
            forall|i: int| 0 <= i < 81 ==> values@[i] <= 9,
        ensures
            r.wf(),
            r@ == values@,
    {
        Grid { cells: slice_to_vec(values) }
    }

    /// The value of the cell in column `x` of row `y`.
    pub fn get(&self, x: usize, y: usize) -> (r: u8)
        requires
            self.wf(),
            x < 9,
            y < 9,
        ensures
            r == self@[cell_index(x as int, y as int)],
            r <= 9,
    {
        self.cells[y * 9 + x]
    }

    /// Overwrites the cell in column `x` of row `y` with `val`.
    pub fn set(&mut self, val: u8, x: usize, y: usize)
        requires
            old(self).wf(),
            x < 9,
            y < 9,
            val <= 9,
        ensures
            final(self).wf(),
            final(self)@ == old(self)@.update(cell_index(x as int, y as int), val),
    {
        self.cells[y * 9 + x] = val;
    }

    /// An independent copy with the same 81 cell values.
    pub fn duplicate(&self) -> (r: Grid)
        requires
            self.wf(),
        ensures
            r.wf(),
            r@ == self@,
    {
        let mut cells: Vec<u8> = Vec::new();
        let mut i: usize = 0;
        while i < 81
            invariant
                self.wf(),
                i <= 81,
                cells@.len() == i,
                forall|j: int| 0 <= j < i ==> cells@[j] == self@[j],
            decreases 81 - i,
        {
            cells.push(self.cells[i]);
            i = i + 1;
        }
        let r = Grid { cells };
        proof {
            assert(r@ =~= self@);
        }
        r
    }

    /// Cell-by-cell equality of two grids.
    pub fn eq_cells(&self, other: &Grid) -> (r: bool)
        requires
            self.wf(),
            other.wf(),
        ensures
            r == (self@ == other@),
    {
        let mut i: usize = 0;
        while i < 81
            invariant
                self.wf(),
                other.wf(),
                i <= 81,
                forall|j: int| 0 <= j < i ==> self@[j] == other@[j],
            decreases 81 - i,
        {
            if self.cells[i] != other.cells[i] {
                return false;
            }
            i = i + 1;
        }
        proof {
            assert(self@ =~= other@);
        }
        true
    }

    /// The cell value at a row-major linear index.
    pub fn get_at(&self, i: usize) -> (r: u8)
        requires
            self.wf(),
            i < 81,
        ensures
            r == self@[i as int],
            r <= 9,
    {
        self.cells[i]
    }

    /// True iff every cell is assigned.
    pub fn filled_check(&self) -> (r: bool)
        requires
            self.wf(),
        ensures
            r == board_filled(self@),
    {
        let mut i: usize = 0;
        while i < 81
            invariant
                self.wf(),
                i <= 81,
                forall|j: int| 0 <= j < i ==> self@[j] != 0,
            decreases 81 - i,
        {
            if self.cells[i] == 0 {
                return false;
            }
            i = i + 1;
        }
        true
    }

    /// True iff `other` keeps every assignment of this grid.
    pub fn extends_check(&self, other: &Grid) -> (r: bool)
        requires
            self.wf(),
            other.wf(),
        ensures
            r == board_extends(self@, other@),
    {
        let mut i: usize = 0;
        while i < 81
            invariant
                self.wf(),
                other.wf(),
                i <= 81,
                forall|j: int| 0 <= j < i && self@[j] != 0 ==> other@[j] == self@[j],
            decreases 81 - i,
        {
            if self.cells[i] != 0 && other.cells[i] != self.cells[i] {
                return false;
            }
            i = i + 1;
        }
        true
    }

    /// Whether the grid is well formed; total, for values of unknown origin.
    pub fn check_wf(&self) -> (r: bool)
        ensures
            r == self.wf(),
    {
        if self.cells.len() != 81 {
            return false;
        }
        let mut i: usize = 0;
        while i < 81
            invariant
                self@.len() == 81,
                i <= 81,
                forall|j: int| 0 <= j < i ==> self@[j] <= 9,
            decreases 81 - i,
        {
            if self.cells[i] > 9 {
                return false;
            }
            i = i + 1;
        }
        true
    }
}

} // verus!
