//! The mathematical model of a 9x9 board: a sequence of 81 cell values,
//! indexed in row-major order, together with the peer relation (row, column,
//! 3x3 box) and the candidate rule that the executable code is proved against.

use vstd::prelude::*;

verus! {

/// Linear index of the cell in column `x` of row `y`, row-major.
pub open spec fn cell_index(x: int, y: int) -> int {
    y * 9 + x
}

/// Both coordinates lie inside the 9x9 board.
pub open spec fn on_board(x: int, y: int) -> bool {
    0 <= x < 9 && 0 <= y < 9
}

/// A well-formed board: 81 cells, each holding 0 (empty) or a digit 1..=9.
pub open spec fn board_wf(b: Seq<u8>) -> bool {
    b.len() == 81 && forall|i: int| 0 <= i < 81 ==> b[i] <= 9
}

/// The two cells share a row, a column, or a 3x3 box (reflexive).
pub open spec fn same_unit(x1: int, y1: int, x2: int, y2: int) -> bool {
    y1 == y2 || x1 == x2 || (x1 / 3 == x2 / 3 && y1 / 3 == y2 / 3)
}

/// The digit `v` is assigned somewhere in the unit (row, column or box) of
/// the cell at `(x, y)`.
pub open spec fn unit_has(b: Seq<u8>, x: int, y: int, v: u8) -> bool {
    exists|x2: int, y2: int|
        on_board(x2, y2) && same_unit(x, y, x2, y2) && b[cell_index(x2, y2)] == v
}

/// The candidate rule: `v` is a legal candidate for the cell at `(x, y)` iff
/// the cell is empty, `v` is a digit, and no cell of the same row, column or
/// box already holds `v`.
pub open spec fn candidate_ok(b: Seq<u8>, x: int, y: int, v: u8) -> bool {
    b[cell_index(x, y)] == 0 && 1 <= v <= 9 && !unit_has(b, x, y, v)
}

/// The assigned cell at `(x, y)` clashes with some other cell of its row,
/// column or box that holds the same digit.
pub open spec fn has_conflict(b: Seq<u8>, x: int, y: int) -> bool {
    b[cell_index(x, y)] != 0 && exists|x2: int, y2: int|
        on_board(x2, y2) && (x2, y2) != (x, y) && same_unit(x, y, x2, y2) && b[cell_index(x2, y2)]
            == b[cell_index(x, y)]
}

/// No two distinct cells of a common unit hold the same digit.
pub open spec fn board_consistent(b: Seq<u8>) -> bool {
    forall|x: int, y: int| on_board(x, y) ==> !has_conflict(b, x, y)
}

/// Some empty cell has no legal candidate left, so no completion of the
/// board can ever fill it: the branch is dead.
pub open spec fn board_deadlocked(b: Seq<u8>) -> bool {
    exists|x: int, y: int|
        on_board(x, y) && b[cell_index(x, y)] == 0 && (forall|v: u8| !candidate_ok(b, x, y, v))
}

/// Every cell is assigned.
pub open spec fn board_filled(b: Seq<u8>) -> bool {
    forall|i: int| 0 <= i < 81 ==> b[i] != 0
}

/// `b2` keeps every assignment of `b1` (and may fill empty cells).
pub open spec fn board_extends(b1: Seq<u8>, b2: Seq<u8>) -> bool {
    forall|i: int| 0 <= i < 81 && b1[i] != 0 ==> b2[i] == b1[i]
}

/// The number of empty cells among the first `n`; the measure that shrinks
/// with every assignment and bounds the depth of the search.
pub open spec fn empties_below(b: Seq<u8>, n: int) -> int
    decreases n,
{
    if n <= 0 {
        0
    } else {
        empties_below(b, n - 1) + if b[n - 1] == 0 {
            1int
        } else {
            0int
        }
    }
}

pub open spec fn num_empties(b: Seq<u8>) -> int {
    empties_below(b, 81)
}

/// Writing a nonzero value into an empty cell lowers the number of empty
/// cells by exactly one.
pub proof fn lemma_empties_update(b: Seq<u8>, i: int, v: u8, n: int)
    requires
        b.len() == 81,
        0 <= i < 81,
        b[i] == 0,
        v != 0,
        0 <= n <= 81,
    ensures
        empties_below(b.update(i, v), n) == if i < n {
            empties_below(b, n) - 1
        } else {
            empties_below(b, n)
        },
    decreases n,
{
    if n > 0 {
        lemma_empties_update(b, i, v, n - 1);
    }
}

/// Every count of empty cells is nonnegative.
pub proof fn lemma_empties_nonneg(b: Seq<u8>, n: int)
    ensures
        empties_below(b, n) >= 0,
    decreases n,
{
    if n > 0 {
        lemma_empties_nonneg(b, n - 1);
    }
}

} // verus!
