//! The constraint rule: the set of digits an empty cell may still take,
//! given the values assigned in its row, column and 3x3 box; and the lemmas
//! that say how candidates and consistency change when a cell is assigned.

use vstd::prelude::*;
use vstd::arithmetic::div_mod::{lemma_fundamental_div_mod, lemma_mod_division_less_than_divisor};
use crate::board::{
    board_consistent,
    board_wf,
    candidate_ok,
    cell_index,
    has_conflict,
    on_board,
    same_unit,
    unit_has,
};
use crate::grid::Grid;
use crate::value_set::ValueSet;

verus! {

/// A linear cell index splits back into its column and row.
pub proof fn lemma_index_decompose(i: int)
    requires
        0 <= i < 81,
    ensures
        on_board(i % 9, i / 9),
        cell_index(i % 9, i / 9) == i,
{
    lemma_fundamental_div_mod(i, 9);
    lemma_mod_division_less_than_divisor(i, 9);
}

/// The linear index of an on-board coordinate pair lies in 0..81 and
/// yields the coordinates back under division and remainder by 9.
pub proof fn lemma_coords_index(x: int, y: int)
    requires
        on_board(x, y),
    ensures
        0 <= cell_index(x, y) < 81,
        cell_index(x, y) % 9 == x,
        cell_index(x, y) / 9 == y,
{
    let i = cell_index(x, y);
    lemma_fundamental_div_mod(i, 9);
    lemma_mod_division_less_than_divisor(i, 9);
}

/// A coordinate in 0..9 lies in the 3-wide band of its own `u / 3`.
pub proof fn lemma_band(u: int)
    requires
        0 <= u < 9,
    ensures
        3 * (u / 3) <= u < 3 * (u / 3) + 3,
        0 <= u / 3 < 3,
{
    lemma_fundamental_div_mod(u, 3);
    lemma_mod_division_less_than_divisor(u, 3);
}

/// Two coordinates share a band exactly when one lies in the 3-wide band
/// that starts at three times the other's `u / 3`.
pub proof fn lemma_same_band(u: int, w: int)
    requires
        0 <= u < 9,
        0 <= w < 9,
    ensures
        (u / 3 == w / 3) <==> (3 * (u / 3) <= w < 3 * (u / 3) + 3),
{
    lemma_band(u);
    lemma_band(w);
}

/// `unit_has` splits into the row scan, the column scan and the box scan
/// that the executable rule performs.
pub proof fn lemma_unit_scan(b: Seq<u8>, x: int, y: int, v: u8)
    requires
        on_board(x, y),
    ensures
        unit_has(b, x, y, v) <==> ((exists|cx: int| 0 <= cx < 9 && b[cell_index(cx, y)] == v)
            || (exists|cy: int| 0 <= cy < 9 && b[cell_index(x, cy)] == v) || (exists|
            cx: int,
            cy: int,
        |
            3 * (x / 3) <= cx < 3 * (x / 3) + 3 && 3 * (y / 3) <= cy < 3 * (y / 3) + 3 && b[
                cell_index(cx, cy)
            ] == v)),
{
    lemma_band(x);
    lemma_band(y);
    if unit_has(b, x, y, v) {
        let (x2, y2) = choose|x2: int, y2: int|
            on_board(x2, y2) && same_unit(x, y, x2, y2) && b[cell_index(x2, y2)] == v;
        if y2 == y {
            assert(0 <= x2 < 9 && b[cell_index(x2, y)] == v);
        } else if x2 == x {
            assert(0 <= y2 < 9 && b[cell_index(x, y2)] == v);
        } else {
            lemma_same_band(x, x2);
            lemma_same_band(y, y2);
            assert(3 * (x / 3) <= x2 < 3 * (x / 3) + 3 && 3 * (y / 3) <= y2 < 3 * (y / 3) + 3 && b[
                cell_index(x2, y2)
            ] == v);
        }
    }
    if exists|cx: int| 0 <= cx < 9 && b[cell_index(cx, y)] == v {
        let cx = choose|cx: int| 0 <= cx < 9 && b[cell_index(cx, y)] == v;
        assert(on_board(cx, y) && same_unit(x, y, cx, y) && b[cell_index(cx, y)] == v);
    }
    if exists|cy: int| 0 <= cy < 9 && b[cell_index(x, cy)] == v {
        let cy = choose|cy: int| 0 <= cy < 9 && b[cell_index(x, cy)] == v;
        assert(on_board(x, cy) && same_unit(x, y, x, cy) && b[cell_index(x, cy)] == v);
    }
    if exists|cx: int, cy: int|
        3 * (x / 3) <= cx < 3 * (x / 3) + 3 && 3 * (y / 3) <= cy < 3 * (y / 3) + 3 && b[cell_index(
            cx,
            cy,
        )] == v {
        let (cx, cy) = choose|cx: int, cy: int|
            3 * (x / 3) <= cx < 3 * (x / 3) + 3 && 3 * (y / 3) <= cy < 3 * (y / 3) + 3 && b[
                cell_index(cx, cy)
            ] == v;
        lemma_same_band(x, cx);
        lemma_same_band(y, cy);
        assert(on_board(cx, cy) && same_unit(x, y, cx, cy) && b[cell_index(cx, cy)] == v);
    }
}

/// The set of digits that may legally fill the cell at `(x, y)`: empty for
/// an assigned cell, otherwise all of 1..=9 except the values already
/// assigned in the cell's row, column and box. A pure function of the
/// board's assigned cells alone.
pub fn get_candidates(grid: &Grid, x: usize, y: usize) -> (r: ValueSet)
    requires
        grid.wf(),
        x < 9,
        y < 9,
    ensures
        forall|v: u8| r.spec_has(v) == candidate_ok(grid@, x as int, y as int, v),
{
    let ghost xi: int = x as int;
    let ghost yi: int = y as int;
    if grid.get(x, y) != 0 {
        return ValueSet::empty();
    }
    let mut candidates = ValueSet::full();

    // Scan the row.
    let mut cx: usize = 0;
    while cx < 9
        invariant
            grid.wf(),
            x < 9,
            y < 9,
            cx <= 9,
            forall|v: u8|
                candidates.spec_has(v) <==> (1 <= v <= 9 && !(exists|c: int|
                    0 <= c < cx && grid@[cell_index(c, y as int)] == v)),
        decreases 9 - cx,
    {
        candidates.remove(grid.get(cx, y));
        cx = cx + 1;
    }

    // Scan the column.
    let mut cy: usize = 0;
    while cy < 9
        invariant
            grid.wf(),
            x < 9,
            y < 9,
            cy <= 9,
            forall|v: u8|
                candidates.spec_has(v) <==> (1 <= v <= 9 && !(exists|c: int|
                    0 <= c < 9 && grid@[cell_index(c, y as int)] == v) && !(exists|c: int|
                    0 <= c < cy && grid@[cell_index(x as int, c)] == v)),
        decreases 9 - cy,
    {
        candidates.remove(grid.get(x, cy));
        cy = cy + 1;
    }

    // Scan the box.
    let sx = (x / 3) * 3;
    let sy = (y / 3) * 3;
    let mut by = sy;
    while by < sy + 3
        invariant
            grid.wf(),
            x < 9,
            y < 9,
            sx == (x as int / 3) * 3,
            sy == (y as int / 3) * 3,
            sx + 3 <= 9,
            sy + 3 <= 9,
            sy <= by <= sy + 3,
            forall|v: u8|
                candidates.spec_has(v) <==> (1 <= v <= 9 && !(exists|c: int|
                    0 <= c < 9 && grid@[cell_index(c, y as int)] == v) && !(exists|c: int|
                    0 <= c < 9 && grid@[cell_index(x as int, c)] == v) && !(exists|c: int, d: int|
                    sx <= c < sx + 3 && sy <= d < by && grid@[cell_index(c, d)] == v)),
        decreases sy + 3 - by,
    {
        let mut bx = sx;
        while bx < sx + 3
            invariant
                grid.wf(),
                x < 9,
                y < 9,
                sx == (x as int / 3) * 3,
                sy == (y as int / 3) * 3,
                sx + 3 <= 9,
                sy + 3 <= 9,
                sy <= by < sy + 3,
                sx <= bx <= sx + 3,
                forall|v: u8|
                    candidates.spec_has(v) <==> (1 <= v <= 9 && !(exists|c: int|
                        0 <= c < 9 && grid@[cell_index(c, y as int)] == v) && !(exists|c: int|
                        0 <= c < 9 && grid@[cell_index(x as int, c)] == v) && !(exists|
                        c: int,
                        d: int,
                    |
                        sx <= c < sx + 3 && sy <= d < by && grid@[cell_index(c, d)] == v) && !(
                    exists|c: int|
                        sx <= c < bx && grid@[cell_index(c, by as int)] == v)),
            decreases sx + 3 - bx,
        {
            candidates.remove(grid.get(bx, by));
            bx = bx + 1;
        }
        by = by + 1;
    }

    proof {
        lemma_band(xi);
        lemma_band(yi);
        assert forall|v: u8| candidates.spec_has(v) == candidate_ok(grid@, xi, yi, v) by {
            lemma_unit_scan(grid@, xi, yi, v);
        }
    }
    candidates
}

/// The candidate rule in words: an assigned cell admits no candidate at
/// all, and a candidate of an empty cell is never a value already assigned
/// to any cell of the same row, column or box. (The converse — that an
/// empty cell always has some candidate — does not hold: an empty cell
/// whose peers exhaust all nine digits has none, which is exactly a
/// deadlock.)
pub proof fn lemma_candidate_rule(b: Seq<u8>, x: int, y: int, v: u8)
    requires
        board_wf(b),
        on_board(x, y),
    ensures
        b[cell_index(x, y)] != 0 ==> !candidate_ok(b, x, y, v),
        candidate_ok(b, x, y, v) ==> b[cell_index(x, y)] == 0 && forall|x2: int, y2: int|
            on_board(x2, y2) && same_unit(x, y, x2, y2) ==> b[cell_index(x2, y2)] != v,
{
    if candidate_ok(b, x, y, v) {
        assert forall|x2: int, y2: int|
            on_board(x2, y2) && same_unit(x, y, x2, y2) implies b[cell_index(x2, y2)] != v by {
            if b[cell_index(x2, y2)] == v {
                assert(unit_has(b, x, y, v));
            }
        }
    }
}

/// The constraint rule is idempotent and deterministic: computed twice on
/// the same unmodified board it admits exactly the same values, and this
/// function is proved to return `true` for every valid board and position.
pub fn check_rule_idempotent(grid: &Grid, x: usize, y: usize) -> (r: bool)
    requires
        grid.wf(),
        x < 9,
        y < 9,
    ensures
        r,
{
    let first = get_candidates(grid, x, y);
    let second = get_candidates(grid, x, y);
    let mut v: u8 = 1;
    while v <= 9
        invariant
            1 <= v <= 10,
            forall|w: u8| first.spec_has(w) == candidate_ok(grid@, x as int, y as int, w),
            forall|w: u8| second.spec_has(w) == candidate_ok(grid@, x as int, y as int, w),
        decreases 10 - v,
    {
        if first.contains(v) != second.contains(v) {
            return false;
        }
        v = v + 1;
    }
    true
}

/// `has_conflict` splits into the row scan, the column scan and the box
/// scan that the executable consistency check performs.
pub proof fn lemma_conflict_scan(b: Seq<u8>, x: int, y: int)
    requires
        on_board(x, y),
    ensures
        has_conflict(b, x, y) <==> (b[cell_index(x, y)] != 0 && ((exists|c: int|
            0 <= c < 9 && c != x && b[cell_index(c, y)] == b[cell_index(x, y)]) || (exists|c: int|
            0 <= c < 9 && c != y && b[cell_index(x, c)] == b[cell_index(x, y)]) || (exists|
            c: int,
            d: int,
        |
            3 * (x / 3) <= c < 3 * (x / 3) + 3 && 3 * (y / 3) <= d < 3 * (y / 3) + 3 && !(c == x
                && d == y) && b[cell_index(c, d)] == b[cell_index(x, y)]))),
{
    let v = b[cell_index(x, y)];
    lemma_band(x);
    lemma_band(y);
    if has_conflict(b, x, y) {
        let (x2, y2) = choose|x2: int, y2: int|
            on_board(x2, y2) && (x2, y2) != (x, y) && same_unit(x, y, x2, y2) && b[cell_index(
                x2,
                y2,
            )] == v;
        if y2 == y {
            assert(0 <= x2 < 9 && x2 != x && b[cell_index(x2, y)] == v);
        } else if x2 == x {
            assert(0 <= y2 < 9 && y2 != y && b[cell_index(x, y2)] == v);
        } else {
            lemma_same_band(x, x2);
            lemma_same_band(y, y2);
            assert(3 * (x / 3) <= x2 < 3 * (x / 3) + 3 && 3 * (y / 3) <= y2 < 3 * (y / 3) + 3 && !(
            x2 == x && y2 == y) && b[cell_index(x2, y2)] == v);
        }
    }
    if v != 0 {
        if exists|c: int| 0 <= c < 9 && c != x && b[cell_index(c, y)] == v {
            let c = choose|c: int| 0 <= c < 9 && c != x && b[cell_index(c, y)] == v;
            assert(on_board(c, y) && (c, y) != (x, y) && same_unit(x, y, c, y) && b[cell_index(
                c,
                y,
            )] == v);
        }
        if exists|c: int| 0 <= c < 9 && c != y && b[cell_index(x, c)] == v {
            let c = choose|c: int| 0 <= c < 9 && c != y && b[cell_index(x, c)] == v;
            assert(on_board(x, c) && (x, c) != (x, y) && same_unit(x, y, x, c) && b[cell_index(
                x,
                c,
            )] == v);
        }
        if exists|c: int, d: int|
            3 * (x / 3) <= c < 3 * (x / 3) + 3 && 3 * (y / 3) <= d < 3 * (y / 3) + 3 && !(c == x
                && d == y) && b[cell_index(c, d)] == v {
            let (c, d) = choose|c: int, d: int|
                3 * (x / 3) <= c < 3 * (x / 3) + 3 && 3 * (y / 3) <= d < 3 * (y / 3) + 3 && !(c == x
                    && d == y) && b[cell_index(c, d)] == v;
            lemma_same_band(x, c);
            lemma_same_band(y, d);
            assert(on_board(c, d) && (c, d) != (x, y) && same_unit(x, y, c, d) && b[cell_index(
                c,
                d,
            )] == v);
        }
    }
}

/// True iff the assigned cell at `(x, y)` clashes with another cell of its
/// row, column or box holding the same digit.
pub fn cell_has_conflict(grid: &Grid, x: usize, y: usize) -> (r: bool)
    requires
        grid.wf(),
        x < 9,
        y < 9,
    ensures
        r == has_conflict(grid@, x as int, y as int),
{
    let ghost xi: int = x as int;
    let ghost yi: int = y as int;
    proof {
        lemma_conflict_scan(grid@, xi, yi);
    }
    let v = grid.get(x, y);
    if v == 0 {
        return false;
    }
    // Scan the row.
    let mut cx: usize = 0;
    while cx < 9
        invariant
            grid.wf(),
            x < 9,
            y < 9,
            cx <= 9,
            v != 0,
            v == grid@[cell_index(x as int, y as int)],
            forall|c: int| 0 <= c < cx && c != x ==> grid@[cell_index(c, y as int)] != v,
        decreases 9 - cx,
    {
        if cx != x && grid.get(cx, y) == v {
            proof {
                lemma_conflict_scan(grid@, x as int, y as int);
                assert(0 <= cx && cx < 9 && cx as int != x as int && grid@[cell_index(
                    cx as int,
                    y as int,
                )] == v);
            }
            return true;
        }
        cx = cx + 1;
    }
    // Scan the column.
    let mut cy: usize = 0;
    while cy < 9
        invariant
            grid.wf(),
            x < 9,
            y < 9,
            cy <= 9,
            v != 0,
            v == grid@[cell_index(x as int, y as int)],
            forall|c: int| 0 <= c < cy && c != y ==> grid@[cell_index(x as int, c)] != v,
        decreases 9 - cy,
    {
        if cy != y && grid.get(x, cy) == v {
            proof {
                lemma_conflict_scan(grid@, x as int, y as int);
                assert(0 <= cy && cy < 9 && cy as int != y as int && grid@[cell_index(
                    x as int,
                    cy as int,
                )] == v);
            }
            return true;
        }
        cy = cy + 1;
    }
    // Scan the box.
    let sx = (x / 3) * 3;
    let sy = (y / 3) * 3;
    let mut by = sy;
    proof {
        lemma_band(xi);
        lemma_band(yi);
    }
    while by < sy + 3
        invariant
            grid.wf(),
            x < 9,
            y < 9,
            sx == (x as int / 3) * 3,
            sy == (y as int / 3) * 3,
            sx + 3 <= 9,
            sy + 3 <= 9,
            sy <= by <= sy + 3,
            v != 0,
            v == grid@[cell_index(x as int, y as int)],
            forall|c: int, d: int|
                sx <= c < sx + 3 && sy <= d < by && !(c == x && d == y) ==> grid@[cell_index(c, d)]
                    != v,
        decreases sy + 3 - by,
    {
        let mut bx = sx;
        while bx < sx + 3
            invariant
                grid.wf(),
                x < 9,
                y < 9,
                sx == (x as int / 3) * 3,
                sy == (y as int / 3) * 3,
                sx + 3 <= 9,
                sy + 3 <= 9,
                sy <= by < sy + 3,
                sx <= bx <= sx + 3,
                v != 0,
            v == grid@[cell_index(x as int, y as int)],
                forall|c: int, d: int|
                    sx <= c < sx + 3 && sy <= d < by && !(c == x && d == y) ==> grid@[cell_index(
                        c,
                        d,
                    )] != v,
                forall|c: int|
                    sx <= c < bx && !(c == x && by == y) ==> grid@[cell_index(c, by as int)] != v,
            decreases sx + 3 - bx,
        {
            if !(bx == x && by == y) && grid.get(bx, by) == v {
                proof {
                    lemma_conflict_scan(grid@, x as int, y as int);
                    assert(3 * (x as int / 3) <= bx as int && (bx as int) < 3 * (x as int / 3) + 3
                        && 3 * (y as int / 3) <= by as int && (by as int) < 3 * (y as int / 3) + 3
                        && !(bx as int == x as int && by as int == y as int) && grid@[cell_index(
                        bx as int,
                        by as int,
                    )] == v);
                }
                return true;
            }
            bx = bx + 1;
        }
        by = by + 1;
    }
    false
}

/// True iff no two distinct cells of a common row, column or box hold the
/// same digit.
pub fn grid_consistent_check(grid: &Grid) -> (r: bool)
    requires
        grid.wf(),
    ensures
        r == board_consistent(grid@),
{
    let mut y: usize = 0;
    while y < 9
        invariant
            grid.wf(),
            y <= 9,
            forall|x2: int, y2: int|
                on_board(x2, y2) && y2 < y ==> !has_conflict(grid@, x2, y2),
        decreases 9 - y,
    {
        let mut x: usize = 0;
        while x < 9
            invariant
                grid.wf(),
                y < 9,
                x <= 9,
                forall|x2: int, y2: int|
                    on_board(x2, y2) && y2 < y ==> !has_conflict(grid@, x2, y2),
                forall|x2: int| 0 <= x2 < x ==> !has_conflict(grid@, x2, y as int),
            decreases 9 - x,
        {
            if cell_has_conflict(grid, x, y) {
                proof {
                    assert(on_board(x as int, y as int) && has_conflict(grid@, x as int, y as int));
                    assert(!board_consistent(grid@));
                }
                return false;
            }
            x = x + 1;
        }
        y = y + 1;
    }
    true
}

/// Assigning a legal candidate to an empty cell leaves every other cell's
/// candidate set as it was, minus the assigned value wherever the cell
/// shares a unit with the assigned one; the assigned cell itself loses all
/// candidates.
pub proof fn lemma_candidates_after_assign(b: Seq<u8>, x: int, y: int, val: u8, x2: int, y2: int, w: u8)
    requires
        board_wf(b),
        on_board(x, y),
        on_board(x2, y2),
        b[cell_index(x, y)] == 0,
        1 <= val <= 9,
    ensures
        candidate_ok(b.update(cell_index(x, y), val), x2, y2, w) == if x2 == x && y2 == y {
            false
        } else {
            candidate_ok(b, x2, y2, w) && !(same_unit(x, y, x2, y2) && w == val)
        },
{
    let i = cell_index(x, y);
    let i2 = cell_index(x2, y2);
    let b2 = b.update(i, val);
    if x2 == x && y2 == y {
        assert(b2[i] == val && val != 0);
    } else {
        assert(i != i2);
        assert(b2[i2] == b[i2]);
        if 1 <= w <= 9 {
            // The updated cell held 0, never `w`; so the unit scan of the new
            // board finds `w` exactly where the old board did, or at the
            // newly assigned cell when `w` is the assigned value.
            if unit_has(b2, x2, y2, w) {
                let (x3, y3) = choose|x3: int, y3: int|
                    on_board(x3, y3) && same_unit(x2, y2, x3, y3) && b2[cell_index(x3, y3)] == w;
                if x3 == x && y3 == y {
                    assert(w == val && same_unit(x, y, x2, y2));
                } else {
                    assert(b[cell_index(x3, y3)] == w);
                    assert(unit_has(b, x2, y2, w));
                }
            }
            if unit_has(b, x2, y2, w) {
                let (x3, y3) = choose|x3: int, y3: int|
                    on_board(x3, y3) && same_unit(x2, y2, x3, y3) && b[cell_index(x3, y3)] == w;
                assert(!(x3 == x && y3 == y));
                assert(b2[cell_index(x3, y3)] == w);
                assert(unit_has(b2, x2, y2, w));
            }
            if same_unit(x, y, x2, y2) && w == val {
                assert(on_board(x, y) && same_unit(x2, y2, x, y) && b2[cell_index(x, y)] == w);
                assert(unit_has(b2, x2, y2, w));
            }
        }
    }
}

/// Assigning a legal candidate to an empty cell keeps the board consistent.
pub proof fn lemma_consistent_after_assign(b: Seq<u8>, x: int, y: int, val: u8)
    requires
        board_wf(b),
        on_board(x, y),
        candidate_ok(b, x, y, val),
        board_consistent(b),
    ensures
        board_consistent(b.update(cell_index(x, y), val)),
{
    let i = cell_index(x, y);
    let b2 = b.update(i, val);
    assert forall|x1: int, y1: int| on_board(x1, y1) implies !has_conflict(b2, x1, y1) by {
        let i1 = cell_index(x1, y1);
        if has_conflict(b2, x1, y1) {
            let (x2, y2) = choose|x2: int, y2: int|
                on_board(x2, y2) && (x2, y2) != (x1, y1) && same_unit(x1, y1, x2, y2) && b2[
                    cell_index(x2, y2)
                ] == b2[i1];
            let i2 = cell_index(x2, y2);
            if x1 == x && y1 == y {
                // The fresh value conflicts with a peer: that peer already
                // held `val` in the old board, refuting the candidate rule.
                assert(i2 != i && b[i2] == val);
                assert(unit_has(b, x, y, val));
            } else if x2 == x && y2 == y {
                // A peer conflicts with the fresh value: symmetric.
                assert(i1 != i && b[i1] == val);
                assert(on_board(x1, y1) && same_unit(x, y, x1, y1) && b[i1] == val);
                assert(unit_has(b, x, y, val));
            } else {
                // Both cells are old: the old board already had the conflict.
                assert(b[i1] == b2[i1] && b[i2] == b2[i2]);
                assert(has_conflict(b, x1, y1));
            }
        }
    }
}

} // verus!
