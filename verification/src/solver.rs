//! The backtracking search: pick the empty cell with the fewest candidates,
//! try each candidate in ascending order on a copy of the state, and recurse
//! until the board is filled or every branch is exhausted. The parallel
//! variant explores the candidate branches of each decision point on worker
//! threads and keeps the sequentially first solution.

use vstd::prelude::*;
use rayon::iter::{IntoParallelRefIterator, ParallelIterator};
use crate::board::{
    board_wf,
    unit_has,
    board_consistent,
    board_deadlocked,
    board_extends,
    board_filled,
    candidate_ok,
    cell_index,
    lemma_empties_nonneg,
    lemma_empties_update,
    num_empties,
    on_board,
};
use crate::grid::Grid;
use crate::rules::{
    grid_consistent_check,
    lemma_consistent_after_assign,
    lemma_coords_index,
    lemma_index_decompose,
};
use crate::state::SolveState;
use crate::value_set::ValueSet;

verus! {

/// What the solvers promise of a returned grid: filled, an extension of the
/// input, and consistent whenever the input was.
pub open spec fn solution_of(b0: Seq<u8>, b: Seq<u8>) -> bool {
    &&& board_filled(b)
    &&& board_extends(b0, b)
    &&& (board_consistent(b0) ==> board_consistent(b))
}

/// The number of legal candidates of the cell at `(x, y)` among the digits
/// `lo..=9`, read off the board alone.
pub open spec fn rule_count_from(b: Seq<u8>, x: int, y: int, lo: int) -> int
    decreases 10 - lo,
{
    if lo > 9 {
        0
    } else {
        (if candidate_ok(b, x, y, lo as u8) {
            1int
        } else {
            0int
        }) + rule_count_from(b, x, y, lo + 1)
    }
}

/// The number of legal candidates of the cell with linear index `i`.
pub open spec fn cell_count(b: Seq<u8>, i: int) -> int {
    rule_count_from(b, i % 9, i / 9, 1)
}

/// The row-major scan of the minimum-remaining-values heuristic: the first
/// index attaining the least positive candidate count seen so far wins.
pub open spec fn scan_best(b: Seq<u8>, i: int, best: int, lowest: int) -> int
    decreases 81 - i,
{
    if i < 0 || i >= 81 {
        best
    } else if cell_count(b, i) > 0 && cell_count(b, i) < lowest {
        scan_best(b, i + 1, i, cell_count(b, i))
    } else {
        scan_best(b, i + 1, best, lowest)
    }
}

/// The cell the search branches on: the first cell attaining the least
/// positive candidate count, or 81 when every cell counts zero.
pub open spec fn best_cell(b: Seq<u8>) -> int {
    scan_best(b, 0, 81, 10)
}

/// What it means for `i` to be the branch cell: positive count, minimal
/// among the positive counts, and first among the minima.
pub open spec fn is_best_choice(b: Seq<u8>, i: int) -> bool {
    &&& 0 <= i < 81
    &&& cell_count(b, i) > 0
    &&& forall|j: int|
        0 <= j < 81 && cell_count(b, j) > 0 ==> cell_count(b, i) <= cell_count(b, j)
    &&& forall|j: int| 0 <= j < i ==> cell_count(b, j) == 0 || cell_count(b, j) > cell_count(b, i)
}

/// The result of the whole search, as a function of the board alone: the
/// board itself once filled; otherwise the first solution found by trying
/// the branch cell's candidates in ascending order, assignments that
/// deadlock skipped. This pins the solver's answer completely, so equal
/// boards always solve to equal answers.
pub open spec fn spec_solve(b: Seq<u8>) -> Option<Seq<u8>>
    decreases num_empties(b), 10int,
        when b.len() == 81
        via spec_solve_decreases
{
    if board_filled(b) {
        Some(b)
    } else if best_cell(b) == 81 {
        None
    } else {
        try_values(b, best_cell(b) % 9, best_cell(b) / 9, 1)
    }
}

/// The branch cell's candidates `v..=9` tried in order: the first one that
/// is legal, does not deadlock, and whose subtree solves, wins.
pub open spec fn try_values(b: Seq<u8>, x: int, y: int, v: int) -> Option<Seq<u8>>
    decreases num_empties(b), 10 - v,
        when b.len() == 81 && on_board(x, y) && 1 <= v
        via try_values_decreases
{
    if v > 9 {
        None
    } else if candidate_ok(b, x, y, v as u8) && !board_deadlocked(
        b.update(cell_index(x, y), v as u8),
    ) {
        match spec_solve(b.update(cell_index(x, y), v as u8)) {
            Some(s) => Some(s),
            None => try_values(b, x, y, v + 1),
        }
    } else {
        try_values(b, x, y, v + 1)
    }
}

#[via_fn]
proof fn spec_solve_decreases(b: Seq<u8>) {
    lemma_empties_nonneg(b, 81);
}

#[via_fn]
proof fn try_values_decreases(b: Seq<u8>, x: int, y: int, v: int) {
    lemma_empties_nonneg(b, 81);
    if 1 <= v <= 9 && on_board(x, y) && candidate_ok(b, x, y, v as u8) {
        lemma_coords_index(x, y);
        lemma_empties_update(b, cell_index(x, y), v as u8, 81);
        lemma_empties_nonneg(b.update(cell_index(x, y), v as u8), 81);
    }
}

/// Candidate counts are between 0 and the number of digits left to scan.
proof fn lemma_rule_count_bounds(b: Seq<u8>, x: int, y: int, lo: int)
    ensures
        0 <= rule_count_from(b, x, y, lo),
        rule_count_from(b, x, y, lo) <= if lo > 9 {
            0int
        } else {
            10 - lo
        },
    decreases 10 - lo,
{
    if lo <= 9 {
        lemma_rule_count_bounds(b, x, y, lo + 1);
    }
}

/// A candidate set that matches the rule pointwise also counts the same as
/// the rule.
proof fn lemma_counts_match(s: ValueSet, b: Seq<u8>, x: int, y: int, lo: int)
    requires
        forall|w: u8| s.spec_has(w) == candidate_ok(b, x, y, w),
    ensures
        s.count_from(lo) == rule_count_from(b, x, y, lo),
    decreases 10 - lo,
{
    if lo <= 9 {
        lemma_counts_match(s, b, x, y, lo + 1);
    }
}

/// The scan invariant of `scan_best`, from position `i` on: either nothing
/// positive has been seen, or `best` is the first index of the least
/// positive count seen.
pub open spec fn scan_inv(b: Seq<u8>, i: int, best: int, lowest: int) -> bool {
    &&& 0 <= i <= 81
    &&& if best == 81 {
        lowest == 10 && forall|j: int| 0 <= j < i ==> cell_count(b, j) == 0
    } else {
        &&& 0 <= best < i
        &&& lowest == cell_count(b, best)
        &&& 0 < lowest
        &&& forall|j: int| 0 <= j < i && cell_count(b, j) > 0 ==> lowest <= cell_count(b, j)
        &&& forall|j: int|
            0 <= j < best ==> cell_count(b, j) == 0 || cell_count(b, j) > lowest
    }
}

/// What the scan returns: 81 when every cell counts zero, else the first
/// cell of the least positive count.
proof fn lemma_scan_best(b: Seq<u8>, i: int, best: int, lowest: int)
    requires
        scan_inv(b, i, best, lowest),
        lowest <= 10,
    ensures
        scan_best(b, i, best, lowest) == 81 ==> forall|j: int|
            0 <= j < 81 ==> cell_count(b, j) == 0,
        scan_best(b, i, best, lowest) != 81 ==> is_best_choice(b, scan_best(b, i, best, lowest)),
    decreases 81 - i,
{
    assert forall|j: int| 0 <= j < 81 implies cell_count(b, j) >= 0 by {
        lemma_rule_count_bounds(b, j % 9, j / 9, 1);
    }
    if i < 81 {
        lemma_rule_count_bounds(b, i % 9, i / 9, 1);
        if cell_count(b, i) > 0 && cell_count(b, i) < lowest {
            lemma_scan_best(b, i + 1, i, cell_count(b, i));
        } else {
            lemma_scan_best(b, i + 1, best, lowest);
        }
    }
}

/// The branch cell is unique: any index with the first-least-positive-count
/// property is the one the scan returns.
proof fn lemma_best_unique(b: Seq<u8>, i0: int)
    requires
        is_best_choice(b, i0),
    ensures
        best_cell(b) == i0,
{
    lemma_scan_best(b, 0, 81, 10);
    let r = best_cell(b);
    if r != i0 {
        assert(is_best_choice(b, r));
        if i0 < r {
            assert(cell_count(b, i0) == 0 || cell_count(b, i0) > cell_count(b, r));
        } else {
            assert(cell_count(b, r) == 0 || cell_count(b, r) > cell_count(b, i0));
        }
    }
}

/// A full solution of the puzzle `b0`: a well-formed, fully assigned,
/// consistent board that keeps every given of `b0`.
pub open spec fn is_solution(b0: Seq<u8>, s: Seq<u8>) -> bool {
    &&& crate::board::board_wf(s)
    &&& board_filled(s)
    &&& board_extends(b0, s)
    &&& board_consistent(s)
}

/// Agreement on uniquely solvable puzzles: when a puzzle admits only one
/// solution, every answer either solver returns is that solution, so the
/// two variants can never return different boards. Both solvers' contracts
/// already pin their results to the same [`spec_solve`] answer; this law
/// records the weaker argument that needs no search plan at all.
pub proof fn lemma_unique_solution_agreement(b0: Seq<u8>, s1: Seq<u8>, s2: Seq<u8>)
    requires
        forall|t1: Seq<u8>, t2: Seq<u8>| is_solution(b0, t1) && is_solution(b0, t2) ==> t1 == t2,
        is_solution(b0, s1),
        is_solution(b0, s2),
    ensures
        s1 == s2,
{
}

/// What one branch of the search yields: assigning `v` to the cell at
/// `(x, y)` and searching on — `None` when `v` is no legal candidate or the
/// assignment deadlocks at once.
pub open spec fn branch_result(b: Seq<u8>, x: int, y: int, v: u8) -> Option<Seq<u8>> {
    let b2 = b.update(cell_index(x, y), v);
    if candidate_ok(b, x, y, v) && !board_deadlocked(b2) {
        spec_solve(b2)
    } else {
        None
    }
}

/// Soundness of the search plan: a board it returns is well formed, fully
/// assigned, keeps every given of the input, and is consistent whenever the
/// input was.
proof fn lemma_spec_solve_sound(b: Seq<u8>)
    requires
        board_wf(b),
    ensures
        match spec_solve(b) {
            Some(g) => board_wf(g) && solution_of(b, g),
            None => true,
        },
    decreases num_empties(b), 10int,
{
    lemma_empties_nonneg(b, 81);
    if !board_filled(b) {
        lemma_scan_best(b, 0, 81, 10);
        let ib = best_cell(b);
        if ib != 81 {
            lemma_index_decompose(ib);
            lemma_try_values_sound(b, ib % 9, ib / 9, 1);
        }
    }
}

/// Soundness of trying the candidates of one cell from `v` on.
proof fn lemma_try_values_sound(b: Seq<u8>, x: int, y: int, v: int)
    requires
        board_wf(b),
        on_board(x, y),
        1 <= v,
    ensures
        match try_values(b, x, y, v) {
            Some(g) => board_wf(g) && solution_of(b, g),
            None => true,
        },
    decreases num_empties(b), 10 - v,
{
    lemma_empties_nonneg(b, 81);
    if v <= 9 {
        let idx = cell_index(x, y);
        let b2 = b.update(idx, v as u8);
        lemma_coords_index(x, y);
        if candidate_ok(b, x, y, v as u8) && !board_deadlocked(b2) {
            lemma_empties_update(b, idx, v as u8, 81);
            lemma_empties_nonneg(b2, 81);
            lemma_spec_solve_sound(b2);
            if board_consistent(b) {
                lemma_consistent_after_assign(b, x, y, v as u8);
            }
            match spec_solve(b2) {
                Some(g) => {},
                None => {
                    lemma_try_values_sound(b, x, y, v + 1);
                },
            }
        } else {
            lemma_try_values_sound(b, x, y, v + 1);
        }
    }
}

/// When every candidate from `v` on yields a dead branch, trying them
/// yields nothing.
proof fn lemma_try_values_skip(b: Seq<u8>, x: int, y: int, v: int)
    requires
        b.len() == 81,
        on_board(x, y),
        1 <= v <= 10,
        forall|w: u8| v <= w <= 9 ==> branch_result(b, x, y, w) is None,
    ensures
        try_values(b, x, y, v) is None,
    decreases 10 - v,
{
    if v <= 9 {
        assert(branch_result(b, x, y, v as u8) is None);
        lemma_try_values_skip(b, x, y, v + 1);
    }
}

/// When the branch of `wstar` solves and every earlier candidate's branch
/// is dead, trying the candidates from `v` on returns that solution.
proof fn lemma_try_values_first(b: Seq<u8>, x: int, y: int, v: int, wstar: u8, g: Seq<u8>)
    requires
        b.len() == 81,
        on_board(x, y),
        1 <= v <= wstar <= 9,
        branch_result(b, x, y, wstar) == Some(g),
        forall|w: u8| v <= w < wstar ==> branch_result(b, x, y, w) is None,
    ensures
        try_values(b, x, y, v) == Some(g),
    decreases 10 - v,
{
    if v < wstar {
        assert(branch_result(b, x, y, v as u8) is None);
        lemma_try_values_first(b, x, y, v + 1, wstar, g);
    }
}

/// In a board on the way to the solution `s`, the solution's value for any
/// still-empty cell is a legal candidate of that cell.
proof fn lemma_solution_candidate(b: Seq<u8>, s: Seq<u8>, x: int, y: int)
    requires
        b.len() == 81,
        is_solution(b, s),
        on_board(x, y),
        b[cell_index(x, y)] == 0,
    ensures
        candidate_ok(b, x, y, s[cell_index(x, y)]),
{
    let idx = cell_index(x, y);
    let v = s[idx];
    lemma_coords_index(x, y);
    assert(1 <= v <= 9);
    if unit_has(b, x, y, v) {
        let (x2, y2) = choose|x2: int, y2: int|
            on_board(x2, y2) && crate::board::same_unit(x, y, x2, y2) && b[cell_index(x2, y2)]
                == v;
        lemma_coords_index(x2, y2);
        // That cell is assigned in `b`, so `s` keeps its value; two cells of
        // one unit then hold the same digit in `s`, refuting consistency.
        assert(s[cell_index(x2, y2)] == v);
        assert((x, y) != (x2, y2));
        assert(crate::board::has_conflict(s, x2, y2));
    }
}

/// A cell with a legal candidate counts at least one, from any digit at or
/// below that candidate.
proof fn lemma_count_positive(b: Seq<u8>, x: int, y: int, v: u8, lo: int)
    requires
        candidate_ok(b, x, y, v),
        1 <= lo <= v,
    ensures
        rule_count_from(b, x, y, lo) > 0,
    decreases 10 - lo,
{
    lemma_rule_count_bounds(b, x, y, lo + 1);
    if lo < v {
        lemma_count_positive(b, x, y, v, lo + 1);
    }
}

/// A positive candidate count names a legal candidate, so the cell is
/// empty.
proof fn lemma_count_pos_empty(b: Seq<u8>, x: int, y: int, lo: int)
    requires
        rule_count_from(b, x, y, lo) > 0,
    ensures
        exists|v: u8| candidate_ok(b, x, y, v),
        b[cell_index(x, y)] == 0,
    decreases 10 - lo,
{
    if lo <= 9 {
        if candidate_ok(b, x, y, lo as u8) {
        } else {
            lemma_count_pos_empty(b, x, y, lo + 1);
        }
    }
}

/// A board on the way to a solution is never deadlocked: every empty cell
/// still admits the solution's value.
proof fn lemma_solution_not_deadlocked(b: Seq<u8>, s: Seq<u8>)
    requires
        b.len() == 81,
        is_solution(b, s),
    ensures
        !board_deadlocked(b),
{
    if board_deadlocked(b) {
        let (x, y) = choose|x: int, y: int|
            on_board(x, y) && b[cell_index(x, y)] == 0 && (forall|v: u8|
                !candidate_ok(b, x, y, v));
        lemma_solution_candidate(b, s, x, y);
    }
}

/// Completeness of the search plan: whenever a solution of the board
/// exists, the plan returns one — trying the branch cell's candidates in
/// order must succeed, because the solution's own value for that cell is
/// among them.
proof fn lemma_spec_solve_complete(b: Seq<u8>, s: Seq<u8>)
    requires
        board_wf(b),
        is_solution(b, s),
    ensures
        spec_solve(b) is Some,
    decreases num_empties(b), 10int,
{
    lemma_empties_nonneg(b, 81);
    if !board_filled(b) {
        let i0 = choose|i: int| 0 <= i < 81 && b[i] == 0;
        lemma_index_decompose(i0);
        lemma_solution_candidate(b, s, i0 % 9, i0 / 9);
        lemma_count_positive(b, i0 % 9, i0 / 9, s[i0], 1);
        assert(cell_count(b, i0) > 0);
        lemma_scan_best(b, 0, 81, 10);
        let ib = best_cell(b);
        assert(ib != 81);
        lemma_index_decompose(ib);
        lemma_count_pos_empty(b, ib % 9, ib / 9, 1);
        lemma_try_values_complete(b, ib % 9, ib / 9, 1, s);
    }
}

/// Trying the candidates of an empty cell from `v` on succeeds whenever a
/// solution gives that cell a value of at least `v`.
proof fn lemma_try_values_complete(b: Seq<u8>, x: int, y: int, v: int, s: Seq<u8>)
    requires
        board_wf(b),
        is_solution(b, s),
        on_board(x, y),
        b[cell_index(x, y)] == 0,
        1 <= v <= s[cell_index(x, y)],
    ensures
        try_values(b, x, y, v) is Some,
    decreases num_empties(b), 10 - v,
{
    lemma_empties_nonneg(b, 81);
    let idx = cell_index(x, y);
    let vstar = s[idx];
    lemma_coords_index(x, y);
    assert(1 <= vstar <= 9);
    let b2 = b.update(idx, v as u8);
    if candidate_ok(b, x, y, v as u8) && !board_deadlocked(b2) {
        if spec_solve(b2) is Some {
        } else {
            if v == vstar {
                // The solution still extends the updated board, so the
                // subtree must solve: contradiction.
                assert(is_solution(b2, s));
                lemma_empties_update(b, idx, v as u8, 81);
                lemma_empties_nonneg(b2, 81);
                lemma_spec_solve_complete(b2, s);
                assert(false);
            } else {
                lemma_try_values_complete(b, x, y, v + 1, s);
            }
        }
    } else {
        // The guard cannot fail at the solution's own value.
        if v == vstar {
            lemma_solution_candidate(b, s, x, y);
            let bstar = b.update(idx, vstar);
            assert(is_solution(bstar, s));
            lemma_solution_not_deadlocked(bstar, s);
            assert(false);
        }
        lemma_try_values_complete(b, x, y, v + 1, s);
    }
}

/// Exhaustion is honest: the search plan answers `None` only for boards
/// that no well-formed, fully assigned, consistent board can extend — so a
/// `None` from either solver means the puzzle has no solution.
pub proof fn lemma_solver_complete(b: Seq<u8>, s: Seq<u8>)
    requires
        board_wf(b),
        is_solution(b, s),
    ensures
        spec_solve(b) is Some,
{
    lemma_spec_solve_complete(b, s);
}

fn solve_recursive_internal(solve_state: SolveState) -> (r: Option<SolveState>)
    requires
        solve_state.wf(),
    ensures
        r matches Some(s) ==> s.wf() && solution_of(solve_state.grid@, s.grid@),
        board_filled(solve_state.grid@) ==> r == Some(solve_state),
        match r {
            Some(s) => spec_solve(solve_state.grid@) == Some(s.grid@),
            None => spec_solve(solve_state.grid@) is None,
        },
    decreases num_empties(solve_state.grid@),
{
    let ghost b = solve_state.grid@;
    if solve_state.is_solved() {
        return Some(solve_state);
    }
    match solve_state.candidate_fewest_choices() {
        Some((cands, x, y)) => {
            proof {
                // The chosen cell is exactly the one the search plan picks.
                assert forall|j: int| 0 <= j < 81 implies solve_state.candidates@[j].spec_count()
                    == cell_count(b, j) by {
                    lemma_index_decompose(j);
                    lemma_counts_match(solve_state.candidates@[j], b, j % 9, j / 9, 1);
                }
                lemma_coords_index(x as int, y as int);
                lemma_best_unique(b, cell_index(x as int, y as int));
            }
            let mut v: u8 = 1;
            while v <= 9
                invariant
                    solve_state.wf(),
                    b == solve_state.grid@,
                    x < 9,
                    y < 9,
                    1 <= v <= 10,
                    cands == solve_state.candidates@[cell_index(x as int, y as int)],
                    !board_filled(b),
                    best_cell(b) == cell_index(x as int, y as int),
                    try_values(b, x as int, y as int, v as int) == try_values(
                        b,
                        x as int,
                        y as int,
                        1,
                    ),
                decreases 10 - v,
            {
                let ghost xi: int = x as int;
                let ghost yi: int = y as int;
                if cands.contains(v) {
                    match solve_state.assign(v, x, y) {
                        Some(branch) => {
                            proof {
                                let idx = cell_index(xi, yi);
                                // The assigned cell was empty and the value a
                                // digit, so the branch has one empty cell less.
                                assert(candidate_ok(b, xi, yi, v));
                                assert(b[idx] == 0 && 1 <= v <= 9);
                                lemma_empties_update(b, idx, v, 81);
                                lemma_empties_nonneg(branch.grid@, 81);
                                if board_consistent(b) {
                                    lemma_consistent_after_assign(b, xi, yi, v);
                                }
                            }
                            match solve_recursive_internal(branch) {
                                Some(solution) => {
                                    proof {
                                        lemma_coords_index(xi, yi);
                                        assert(try_values(b, xi, yi, v as int) == Some(
                                            solution.grid@,
                                        ));
                                        assert(spec_solve(b) == Some(solution.grid@));
                                    }
                                    return Some(solution);
                                },
                                None => {
                                    proof {
                                        assert(try_values(b, xi, yi, v as int) == try_values(
                                            b,
                                            xi,
                                            yi,
                                            v as int + 1,
                                        ));
                                    }
                                },
                            }
                        },
                        None => {
                            proof {
                                assert(board_deadlocked(b.update(cell_index(xi, yi), v)));
                                assert(try_values(b, xi, yi, v as int) == try_values(
                                    b,
                                    xi,
                                    yi,
                                    v as int + 1,
                                ));
                            }
                        },
                    }
                } else {
                    proof {
                        assert(!candidate_ok(b, xi, yi, v));
                        assert(try_values(b, xi, yi, v as int) == try_values(
                            b,
                            xi,
                            yi,
                            v as int + 1,
                        ));
                    }
                }
                v = v + 1;
            }
            proof {
                assert(try_values(b, x as int, y as int, 10) is None);
                lemma_coords_index(x as int, y as int);
                assert(spec_solve(b) is None);
            }
            None
        },
        None => {
            proof {
                assert forall|j: int| 0 <= j < 81 implies cell_count(b, j) == 0 by {
                    lemma_index_decompose(j);
                    lemma_counts_match(solve_state.candidates@[j], b, j % 9, j / 9, 1);
                }
                lemma_scan_best(b, 0, 81, 10);
                if best_cell(b) != 81 {
                    assert(is_best_choice(b, best_cell(b)));
                }
                assert(spec_solve(b) is None);
            }
            None
        },
    }
}

/// Depth-first search from `grid`. A returned grid is fully assigned,
/// keeps every given of the input, and is consistent whenever the input
/// was; an already filled input comes back unchanged at once. The result
/// equals [`spec_solve`] of the input board — a function of the board
/// alone — so two calls on equal grids return bit-for-bit equal answers;
/// and `None` comes back only when the puzzle has no solution at all.
pub fn solve_recursive(grid: Grid) -> (r: Option<Grid>)
    requires
        grid.wf(),
    ensures
        r matches Some(g) ==> g.wf() && solution_of(grid@, g@),
        board_filled(grid@) ==> (r matches Some(g) && g@ == grid@),
        match r {
            Some(g) => spec_solve(grid@) == Some(g@),
            None => spec_solve(grid@) is None,
        },
        (r is None) ==> forall|s: Seq<u8>| !is_solution(grid@, s),
{
    let solve_state = SolveState::new(grid);
    match solve_recursive_internal(solve_state) {
        Some(s) => Some(s.grid),
        None => {
            proof {
                assert forall|s: Seq<u8>| !is_solution(grid@, s) by {
                    if is_solution(grid@, s) {
                        lemma_solver_complete(grid@, s);
                    }
                }
            }
            None
        },
    }
}

/// One parallel branch: assign the candidate on a copy of the state and
/// keep searching; a deadlocked assignment abandons the branch. The result
/// is exactly what the search plan gives that branch.
fn explore_branch_par(solve_state: &SolveState, val: u8, x: usize, y: usize) -> (r: Option<
    SolveState,
>)
    requires
        solve_state.wf(),
        x < 9,
        y < 9,
        solve_state.candidates@[cell_index(x as int, y as int)].spec_has(val),
    ensures
        match r {
            Some(s) => s.wf() && branch_result(solve_state.grid@, x as int, y as int, val)
                == Some(s.grid@),
            None => branch_result(solve_state.grid@, x as int, y as int, val) is None,
        },
{
    proof {
        assert(candidate_ok(solve_state.grid@, x as int, y as int, val));
    }
    match solve_state.assign(val, x, y) {
        Some(branch) => solve_par_internal(branch),
        None => None,
    }
}

/// Relies on rayon's `par_iter` over a `Vec` (whose order is the vector's)
/// and `find_map_first`: the closure, which only calls the verified branch
/// explorer, runs on worker threads over the candidate list, and the
/// sequentially first `Some` of the map — first in list order, not in
/// completion order — is returned. The returned value is one the closure
/// produced, so the verified explorer's contract pins it to the search
/// plan's result for its candidate; `None` comes back only when every
/// candidate's branch is dead.
#[verifier::external_body]
fn par_explore(solve_state: &SolveState, cands: &Vec<u8>, x: usize, y: usize) -> (r: Option<
    SolveState,
>)
    requires
        solve_state.wf(),
        x < 9,
        y < 9,
        forall|k: int|
            0 <= k < cands@.len() ==> solve_state.candidates@[cell_index(
                x as int,
                y as int,
            )].spec_has(cands@[k]),
    ensures
        match r {
            Some(s) => s.wf() && (exists|k: int|
                0 <= k < cands@.len() && #[trigger] branch_result(
                    solve_state.grid@,
                    x as int,
                    y as int,
                    cands@[k],
                ) == Some(s.grid@) && (forall|j: int|
                    0 <= j < k ==> branch_result(
                        solve_state.grid@,
                        x as int,
                        y as int,
                        cands@[j],
                    ) is None)),
            None => forall|k: int|
                0 <= k < cands@.len() ==> #[trigger] branch_result(
                    solve_state.grid@,
                    x as int,
                    y as int,
                    cands@[k],
                ) is None,
        },
{
    cands.par_iter().find_map_first(|c: &u8| explore_branch_par(solve_state, *c, x, y))
}

/// The parallel search tree: the structure of the sequential solver, with
/// the candidate loop of each decision point fanned out over workers. The
/// first branch in candidate order that solves wins, so the result is the
/// same as the sequential search plan's.
fn solve_par_internal(solve_state: SolveState) -> (r: Option<SolveState>)
    requires
        solve_state.wf(),
    ensures
        board_filled(solve_state.grid@) ==> r == Some(solve_state),
        match r {
            Some(s) => s.wf() && spec_solve(solve_state.grid@) == Some(s.grid@),
            None => spec_solve(solve_state.grid@) is None,
        },
{
    let ghost b = solve_state.grid@;
    if solve_state.is_solved() {
        return Some(solve_state);
    }
    match solve_state.candidate_fewest_choices() {
        Some((cands, x, y)) => {
            let ghost xi: int = x as int;
            let ghost yi: int = y as int;
            proof {
                // The chosen cell is exactly the one the search plan picks.
                assert forall|j: int| 0 <= j < 81 implies solve_state.candidates@[j].spec_count()
                    == cell_count(b, j) by {
                    lemma_index_decompose(j);
                    lemma_counts_match(solve_state.candidates@[j], b, j % 9, j / 9, 1);
                }
                lemma_coords_index(xi, yi);
                lemma_best_unique(b, cell_index(xi, yi));
            }
            let cand_list = cands.to_vec();
            proof {
                cands.lemma_members_has();
            }
            let r = par_explore(&solve_state, &cand_list, x, y);
            proof {
                let m = cand_list@;
                cands.lemma_members_sorted();
                // A digit whose branch the fan-out did not report dead or
                // winning is no candidate at all, so its branch is dead by
                // definition; candidates all stand in the ascending list.
                match &r {
                    Some(s) => {
                        let k = choose|k: int|
                            0 <= k < m.len() && #[trigger] branch_result(b, xi, yi, m[k]) == Some(
                                s.grid@,
                            ) && (forall|j: int|
                                0 <= j < k ==> branch_result(b, xi, yi, m[j]) is None);
                        let wstar = m[k];
                        assert(cands.spec_has(wstar));
                        assert(candidate_ok(b, xi, yi, wstar));
                        assert forall|w: u8| 1 <= w < wstar implies branch_result(
                            b,
                            xi,
                            yi,
                            w,
                        ) is None by {
                            if candidate_ok(b, xi, yi, w) {
                                assert(cands.spec_has(w));
                                cands.lemma_members_complete(w);
                                let j = choose|j: int| 0 <= j < m.len() && m[j] == w;
                                assert(j < k);
                                assert(branch_result(b, xi, yi, m[j]) is None);
                            }
                        }
                        lemma_try_values_first(b, xi, yi, 1, wstar, s.grid@);
                        assert(spec_solve(b) == Some(s.grid@));
                    },
                    None => {
                        assert forall|w: u8| 1 <= w <= 9 implies branch_result(
                            b,
                            xi,
                            yi,
                            w,
                        ) is None by {
                            if candidate_ok(b, xi, yi, w) {
                                assert(cands.spec_has(w));
                                cands.lemma_members_complete(w);
                                let j = choose|j: int| 0 <= j < m.len() && m[j] == w;
                                assert(branch_result(b, xi, yi, m[j]) is None);
                            }
                        }
                        lemma_try_values_skip(b, xi, yi, 1);
                        assert(spec_solve(b) is None);
                    },
                }
            }
            r
        },
        None => {
            proof {
                assert forall|j: int| 0 <= j < 81 implies cell_count(b, j) == 0 by {
                    lemma_index_decompose(j);
                    lemma_counts_match(solve_state.candidates@[j], b, j % 9, j / 9, 1);
                }
                lemma_scan_best(b, 0, 81, 10);
                if best_cell(b) != 81 {
                    assert(is_best_choice(b, best_cell(b)));
                }
                assert(spec_solve(b) is None);
            }
            None
        },
    }
}

/// Parallel depth-first search from `grid`: the result is the same
/// [`spec_solve`] answer as [`solve_recursive`]'s, found by exploring the
/// branches of every decision point concurrently and keeping the
/// sequentially first solution. A returned grid is fully assigned, keeps
/// every given of the input, and is consistent whenever the input was;
/// `None` comes back only when the puzzle has no solution at all. As
/// defense in depth, the answer from the worker pool is also re-checked
/// cell by cell — a check that is proved to pass.
pub fn solve_recursive_par(grid: Grid) -> (r: Option<Grid>)
    requires
        grid.wf(),
    ensures
        r matches Some(g) ==> g.wf() && solution_of(grid@, g@),
        board_filled(grid@) ==> (r matches Some(g) && g@ == grid@),
        match r {
            Some(g) => spec_solve(grid@) == Some(g@),
            None => spec_solve(grid@) is None,
        },
        (r is None) ==> forall|s: Seq<u8>| !is_solution(grid@, s),
{
    let input = grid.duplicate();
    let solve_state = SolveState::new(grid);
    if solve_state.is_solved() {
        return Some(input);
    }
    match solve_par_internal(solve_state) {
        Some(s) => {
            proof {
                lemma_spec_solve_sound(input@);
            }
            if s.grid.check_wf() && s.grid.filled_check() && input.extends_check(&s.grid) && (
            !grid_consistent_check(&input) || grid_consistent_check(&s.grid)) {
                Some(s.grid)
            } else {
                // Unreachable: the search plan's soundness shows every
                // check above holds of the returned state.
                None
            }
        },
        None => {
            proof {
                assert forall|s: Seq<u8>| !is_solution(grid@, s) by {
                    if is_solution(grid@, s) {
                        lemma_solver_complete(grid@, s);
                    }
                }
            }
            None
        },
    }
}

} // verus!
