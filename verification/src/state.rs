//! A grid paired with the candidate set of every cell, kept exactly in step
//! with the candidate rule after every mutation. The search branches by
//! copying a whole state and assigning one cell in the copy, so no undo
//! logic is needed and branches never share mutable state.

use vstd::prelude::*;
use crate::board::{
    board_deadlocked,
    board_filled,
    candidate_ok,
    cell_index,
    on_board,
    same_unit,
};
use crate::grid::Grid;
use crate::rules::{get_candidates, lemma_candidates_after_assign, lemma_coords_index, lemma_index_decompose};
use crate::value_set::ValueSet;

verus! {

/// The search state: a grid and, for every one of the 81 cells, the set of
/// digits that may still legally fill it (empty for assigned cells).
#[derive(Debug)]
pub struct SolveState {
    pub grid: Grid,
    pub candidates: Vec<ValueSet>,
}

impl SolveState {
    /// The grid is well formed and every cell's candidate set equals what
    /// the candidate rule computes on the current grid — the invariant that
    /// holds after construction and after every assignment.
    pub open spec fn wf(self) -> bool {
        &&& self.grid.wf()
        &&& self.candidates@.len() == 81
        &&& forall|x: int, y: int, v: u8|
            on_board(x, y) ==> self.candidates@[cell_index(x, y)].spec_has(v) == candidate_ok(
                self.grid@,
                x,
                y,
                v,
            )
    }

    /// Builds the state for a grid, computing the candidates of all 81
    /// cells with the constraint rule.
    pub fn new(grid: Grid) -> (r: SolveState)
        requires
            grid.wf(),
        ensures
            r.wf(),
            r.grid@ == grid@,
    {
        let mut candidates: Vec<ValueSet> = Vec::new();
        let mut i: usize = 0;
        while i < 81
            invariant
                grid.wf(),
                i <= 81,
                candidates@.len() == i,
                forall|j: int, v: u8|
                    0 <= j < i ==> #[trigger] candidates@[j].spec_has(v) == candidate_ok(
                        grid@,
                        j % 9,
                        j / 9,
                        v,
                    ),
            decreases 81 - i,
        {
            proof {
                lemma_index_decompose(i as int);
            }
            let cs = get_candidates(&grid, i % 9, i / 9);
            candidates.push(cs);
            i = i + 1;
        }
        let r = SolveState { grid, candidates };
        proof {
            assert forall|x: int, y: int, v: u8| on_board(x, y) implies r.candidates@[cell_index(
                x,
                y,
            )].spec_has(v) == candidate_ok(r.grid@, x, y, v) by {
                lemma_coords_index(x, y);
            }
        }
        r
    }

    /// An independent copy: same grid, same candidate sets.
    pub fn duplicate(&self) -> (r: SolveState)
        requires
            self.grid.wf(),
            self.candidates@.len() == 81,
        ensures
            r.grid@ == self.grid@,
            r.grid.wf(),
            r.candidates@ == self.candidates@,
    {
        let grid = self.grid.duplicate();
        let mut candidates: Vec<ValueSet> = Vec::new();
        let mut i: usize = 0;
        while i < 81
            invariant
                self.candidates@.len() == 81,
                i <= 81,
                candidates@.len() == i,
                forall|j: int| 0 <= j < i ==> candidates@[j] == self.candidates@[j],
            decreases 81 - i,
        {
            candidates.push(self.candidates[i]);
            i = i + 1;
        }
        proof {
            assert(candidates@ =~= self.candidates@);
        }
        SolveState { grid, candidates }
    }

    /// True iff some empty cell has no candidate left; such a state can
    /// never reach a solution and must be discarded.
    pub fn deadlocked(&self) -> (r: bool)
        requires
            self.wf(),
        ensures
            r == board_deadlocked(self.grid@),
    {
        let mut y: usize = 0;
        while y < 9
            invariant
                self.wf(),
                y <= 9,
                forall|x2: int, y2: int|
                    on_board(x2, y2) && y2 < y ==> !(self.grid@[cell_index(x2, y2)] == 0 && (forall|
                        v: u8,
                    | !candidate_ok(self.grid@, x2, y2, v))),
            decreases 9 - y,
        {
            let mut x: usize = 0;
            while x < 9
                invariant
                    self.wf(),
                    y < 9,
                    x <= 9,
                    forall|x2: int, y2: int|
                        on_board(x2, y2) && y2 < y ==> !(self.grid@[cell_index(x2, y2)] == 0 && (
                        forall|v: u8| !candidate_ok(self.grid@, x2, y2, v))),
                    forall|x2: int|
                        0 <= x2 < x ==> !(self.grid@[cell_index(x2, y as int)] == 0 && (forall|
                            v: u8,
                        | !candidate_ok(self.grid@, x2, y as int, v))),
                decreases 9 - x,
            {
                proof {
                    lemma_coords_index(x as int, y as int);
                }
                if self.grid.get(x, y) == 0 {
                    let cs = self.candidates[y * 9 + x];
                    if cs.count() == 0 {
                        proof {
                            cs.lemma_count_zero();
                            assert forall|v: u8| !candidate_ok(
                                self.grid@,
                                x as int,
                                y as int,
                                v,
                            ) by {
                                assert(self.candidates@[cell_index(x as int, y as int)].spec_has(v)
                                    == candidate_ok(self.grid@, x as int, y as int, v));
                            }
                            assert(on_board(x as int, y as int) && self.grid@[cell_index(
                                x as int,
                                y as int,
                            )] == 0 && (forall|v: u8|
                                !candidate_ok(self.grid@, x as int, y as int, v)));
                            assert(board_deadlocked(self.grid@));
                        }
                        return true;
                    }
                    proof {
                        cs.lemma_count_zero();
                        assert(!(forall|w: u8| !cs.spec_has(w)));
                        let w = choose|w: u8| cs.spec_has(w);
                        assert(candidate_ok(self.grid@, x as int, y as int, w));
                    }
                }
                x = x + 1;
            }
            y = y + 1;
        }
        false
    }

    /// True iff every cell is assigned.
    pub fn is_solved(&self) -> (r: bool)
        requires
            self.grid.wf(),
        ensures
            r == board_filled(self.grid@),
    {
        let mut y: usize = 0;
        while y < 9
            invariant
                self.grid.wf(),
                y <= 9,
                forall|x2: int, y2: int|
                    on_board(x2, y2) && y2 < y ==> self.grid@[cell_index(x2, y2)] != 0,
            decreases 9 - y,
        {
            let mut x: usize = 0;
            while x < 9
                invariant
                    self.grid.wf(),
                    y < 9,
                    x <= 9,
                    forall|x2: int, y2: int|
                        on_board(x2, y2) && y2 < y ==> self.grid@[cell_index(x2, y2)] != 0,
                    forall|x2: int| 0 <= x2 < x ==> self.grid@[cell_index(x2, y as int)] != 0,
                decreases 9 - x,
            {
                if self.grid.get(x, y) == 0 {
                    return false;
                }
                x = x + 1;
            }
            y = y + 1;
        }
        proof {
            assert forall|i: int| 0 <= i < 81 implies self.grid@[i] != 0 by {
                lemma_index_decompose(i);
            }
        }
        true
    }

    /// Removes `val` from the candidate set of every cell that shares a
    /// row, column or box with `(x, y)` (including `(x, y)` itself); all
    /// other cells keep their candidates, and the grid is untouched.
    fn remove_val_from_peers(&mut self, val: u8, x: usize, y: usize)
        requires
            old(self).candidates@.len() == 81,
            val <= 9,
            x < 9,
            y < 9,
        ensures
            final(self).grid == old(self).grid,
            final(self).candidates@.len() == 81,
            forall|x2: int, y2: int, w: u8|
                on_board(x2, y2) ==> final(self).candidates@[cell_index(x2, y2)].spec_has(w) == (
                old(self).candidates@[cell_index(x2, y2)].spec_has(w) && !(same_unit(
                    x as int,
                    y as int,
                    x2,
                    y2,
                ) && w == val)),
    {
        let mut i: usize = 0;
        while i < 81
            invariant
                self.grid == old(self).grid,
                self.candidates@.len() == 81,
                x < 9,
                y < 9,
                val <= 9,
                i <= 81,
                forall|j: int, w: u8|
                    0 <= j < i ==> self.candidates@[j].spec_has(w) == (old(
                        self,
                    ).candidates@[j].spec_has(w) && !(same_unit(x as int, y as int, j % 9, j / 9)
                        && w == val)),
                forall|j: int| i <= j < 81 ==> self.candidates@[j] == old(self).candidates@[j],
            decreases 81 - i,
        {
            let cx = i % 9;
            let cy = i / 9;
            proof {
                lemma_index_decompose(i as int);
            }
            if cx == x || cy == y || (cx / 3 == x / 3 && cy / 3 == y / 3) {
                let mut cs = self.candidates[i];
                cs.remove(val);
                self.candidates[i] = cs;
            } else {
                assert(!same_unit(x as int, y as int, i as int % 9, i as int / 9));
            }
            i = i + 1;
        }
        proof {
            assert forall|x2: int, y2: int, w: u8| on_board(x2, y2) implies self.candidates@[
                cell_index(x2, y2)
            ].spec_has(w) == (old(self).candidates@[cell_index(x2, y2)].spec_has(w) && !(same_unit(
                x as int,
                y as int,
                x2,
                y2,
            ) && w == val)) by {
                lemma_coords_index(x2, y2);
            }
        }
    }

    /// Assigns `val` (a current candidate) to the empty cell at `(x, y)` in
    /// a copy of the state: the cell's candidates are cleared, `val` is
    /// removed from every peer's candidates, and the copy is returned —
    /// unless the propagated state is deadlocked, in which case the branch
    /// is reported dead with `None`. The receiver is never modified.
    pub fn assign(&self, val: u8, x: usize, y: usize) -> (r: Option<SolveState>)
        requires
            self.wf(),
            x < 9,
            y < 9,
            self.candidates@[cell_index(x as int, y as int)].spec_has(val),
        ensures
            (r is Some) <==> !board_deadlocked(
                self.grid@.update(cell_index(x as int, y as int), val),
            ),
            r matches Some(s) ==> s.wf() && s.grid@ == self.grid@.update(
                cell_index(x as int, y as int),
                val,
            ) && !board_deadlocked(s.grid@),
    {
        let ghost b = self.grid@;
        let ghost xi: int = x as int;
        let ghost yi: int = y as int;
        proof {
            lemma_coords_index(xi, yi);
            // The candidate rule justifies the write: the cell is empty and
            // the value is a digit.
            assert(candidate_ok(b, xi, yi, val));
        }
        let mut cpy = self.duplicate();
        cpy.grid.set(val, x, y);
        let idx = y * 9 + x;
        let mut cs = cpy.candidates[idx];
        cs.clear();
        cpy.candidates[idx] = cs;
        let ghost mid = cpy;
        cpy.remove_val_from_peers(val, x, y);
        proof {
            let g2 = b.update(cell_index(xi, yi), val);
            assert forall|x2: int, y2: int, v: u8| on_board(x2, y2) implies cpy.candidates@[
                cell_index(x2, y2)
            ].spec_has(v) == candidate_ok(g2, x2, y2, v) by {
                lemma_coords_index(x2, y2);
                lemma_candidates_after_assign(b, xi, yi, val, x2, y2, v);
                if x2 == xi && y2 == yi {
                    assert(mid.candidates@[cell_index(x2, y2)] == cs);
                } else {
                    assert(cell_index(x2, y2) != cell_index(xi, yi));
                    assert(mid.candidates@[cell_index(x2, y2)] == self.candidates@[cell_index(
                        x2,
                        y2,
                    )]);
                }
            }
            assert(cpy.wf());
        }
        if cpy.deadlocked() {
            None
        } else {
            Some(cpy)
        }
    }

    /// The candidate set, column and row of the empty cell with the fewest
    /// (but at least one) remaining candidates; ties are broken by the
    /// lowest row-major index. `None` iff no cell has a positive candidate
    /// count — with the state invariant that means every cell is assigned
    /// or the state is deadlocked.
    pub fn candidate_fewest_choices(&self) -> (r: Option<(ValueSet, usize, usize)>)
        requires
            self.candidates@.len() == 81,
        ensures
            match r {
                Some((cs, x, y)) => {
                    &&& x < 9
                    &&& y < 9
                    &&& cs == self.candidates@[cell_index(x as int, y as int)]
                    &&& cs.spec_count() > 0
                    &&& forall|j: int|
                        0 <= j < 81 && self.candidates@[j].spec_count() > 0
                            ==> cs.spec_count() <= self.candidates@[j].spec_count()
                    &&& forall|j: int|
                        0 <= j < cell_index(x as int, y as int)
                            ==> self.candidates@[j].spec_count() == 0
                            || self.candidates@[j].spec_count() > cs.spec_count()
                },
                None => forall|j: int| 0 <= j < 81 ==> self.candidates@[j].spec_count() == 0,
            },
    {
        let mut lowest_count: u8 = 10;
        let mut best_i: usize = 81;
        let mut i: usize = 0;
        proof {
            assert forall|j: int| 0 <= j < 81 implies self.candidates@[j].spec_count() >= 0 by {
                self.candidates@[j].lemma_count_from_bounds(1);
            }
        }
        while i < 81
            invariant
                self.candidates@.len() == 81,
                forall|j: int| 0 <= j < 81 ==> self.candidates@[j].spec_count() >= 0,
                i <= 81,
                best_i == 81 || best_i < i,
                best_i == 81 ==> lowest_count == 10,
                best_i == 81 ==> forall|j: int|
                    0 <= j < i ==> self.candidates@[j].spec_count() == 0,
                best_i < 81 ==> {
                    &&& 1 <= lowest_count <= 9
                    &&& lowest_count as int == self.candidates@[best_i as int].spec_count()
                    &&& forall|j: int|
                        0 <= j < i && self.candidates@[j].spec_count() > 0
                            ==> lowest_count as int <= self.candidates@[j].spec_count()
                    &&& forall|j: int|
                        0 <= j < best_i ==> self.candidates@[j].spec_count() == 0
                            || self.candidates@[j].spec_count() > lowest_count as int
                },
            decreases 81 - i,
        {
            let count = self.candidates[i].count();
            if count > 0 && count < lowest_count {
                lowest_count = count;
                best_i = i;
            }
            i = i + 1;
        }
        if best_i < 81 {
            proof {
                lemma_index_decompose(best_i as int);
            }
            Some((self.candidates[best_i], best_i % 9, best_i / 9))
        } else {
            None
        }
    }
}

} // verus!
