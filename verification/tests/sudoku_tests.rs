use sudoku::grid::Grid;
use sudoku::rules::{check_rule_idempotent, get_candidates, grid_consistent_check};
use sudoku::solver::{solve_recursive, solve_recursive_par};
use sudoku::state::SolveState;
use sudoku::text::{check_round_trip, parse_grid, render_grid};
use sudoku::value_set::{ValueSet, ValueSetIterator};

pub const TEST_GRID: &str = "
    4 . . |. . . |8 . 5
    . 3 . |. . . |. . .
    . . . |7 . . |. . .
    ------+------+------
    . 2 . |. . . |. 6 .
    . . . |. 8 . |4 . .
    . . . |. 1 . |. . .
    ------+------+------
    . . . |6 . 3 |. 7 .
    5 . . |2 . . |. . .
    1 . 4 |. . . |. . .
";

fn contains_same_unordered(a: Vec<u8>, b: Vec<u8>) -> bool {
    let mut a = a;
    let mut b = b;
    a.sort();
    b.sort();
    a == b
}

fn set_members(s: &ValueSet) -> Vec<u8> {
    s.to_vec()
}

#[test]
fn candidates() {
    let grid = parse_grid(TEST_GRID).unwrap();
    assert!(contains_same_unordered(
        set_members(&get_candidates(&grid, 3, 1)),
        vec![1, 4, 5, 8, 9]
    ));
    assert!(contains_same_unordered(
        set_members(&get_candidates(&grid, 0, 1)),
        vec![2, 6, 7, 8, 9]
    ));
    assert!(contains_same_unordered(
        set_members(&get_candidates(&grid, 5, 7)),
        vec![1, 4, 7, 8, 9]
    ));
}

#[test]
fn can_solve() {
    let grid = parse_grid(TEST_GRID).unwrap();
    assert!(solve_recursive(grid).is_some());
}

#[test]
fn value_set_empty_and_full() {
    let e = ValueSet::empty();
    assert_eq!(e.count(), 0);
    assert_eq!(e.get_first(), None);
    let f = ValueSet::full();
    assert_eq!(f.count(), 9);
    assert_eq!(f.get_first(), Some(1));
    for v in 1..=9u8 {
        assert!(!e.contains(v));
        assert!(f.contains(v));
    }
    assert!(!e.contains(0));
    assert!(!f.contains(0));
}

#[test]
fn value_set_add_remove_idempotent() {
    let mut s = ValueSet::empty();
    s.add(4);
    s.add(4);
    assert_eq!(s.count(), 1);
    assert!(s.contains(4));
    s.add(0);
    assert_eq!(s.count(), 1);
    s.remove(4);
    s.remove(4);
    assert_eq!(s.count(), 0);
    s.add(2);
    s.add(7);
    s.remove(0);
    assert_eq!(s.to_vec(), vec![2, 7]);
    s.clear();
    assert_eq!(s.count(), 0);
}

#[test]
fn from_values_collects_digits() {
    let s = ValueSet::from_values(&[0u8, 3, 7, 3, 0, 9]);
    assert_eq!(s.to_vec(), vec![3, 7, 9]);
    assert!(!s.contains(0));
    assert_eq!(s.count(), 3);
    let empty = ValueSet::from_values(&[]);
    assert_eq!(empty.count(), 0);
}

#[test]
fn value_set_iteration_ascending_and_restartable() {
    let mut s = ValueSet::empty();
    s.add(9);
    s.add(1);
    s.add(5);
    for _pass in 0..2 {
        let mut it = ValueSetIterator::new(s);
        assert_eq!(it.next(), Some(1));
        assert_eq!(it.next(), Some(5));
        assert_eq!(it.next(), Some(9));
        assert_eq!(it.next(), None);
    }
    assert_eq!(s.to_vec(), vec![1, 5, 9]);
}

#[test]
fn grid_get_set() {
    let values = vec![0u8; 81];
    let mut grid = Grid::new(values.as_slice());
    assert_eq!(grid.get(0, 0), 0);
    grid.set(7, 4, 6);
    assert_eq!(grid.get(4, 6), 7);
    assert_eq!(grid.get(6, 4), 0);
    grid.set(0, 4, 6);
    assert_eq!(grid.get(4, 6), 0);
}

#[test]
fn candidates_empty_for_assigned_cell() {
    let grid = parse_grid(TEST_GRID).unwrap();
    // (0, 0) holds 4: an assigned cell has no candidates.
    assert_eq!(grid.get(0, 0), 4);
    assert_eq!(get_candidates(&grid, 0, 0).count(), 0);
}

#[test]
fn candidates_avoid_peers() {
    let grid = parse_grid(TEST_GRID).unwrap();
    let cands = get_candidates(&grid, 1, 0);
    // Row 0 holds 4, 8 and 5; column 1 holds 3 and 2; the top-left box
    // holds 4 and 3: none of these may be a candidate of (1, 0).
    for v in [4u8, 8, 5, 3, 2] {
        assert!(!cands.contains(v));
    }
}

#[test]
fn rule_idempotent() {
    let grid = parse_grid(TEST_GRID).unwrap();
    for y in 0..9 {
        for x in 0..9 {
            assert!(check_rule_idempotent(&grid, x, y));
        }
    }
    let first = get_candidates(&grid, 3, 1).to_vec();
    let second = get_candidates(&grid, 3, 1).to_vec();
    assert_eq!(first, second);
}

#[test]
fn assign_keeps_invariant() {
    let grid = parse_grid(TEST_GRID).unwrap();
    let state = SolveState::new(grid);
    // 1 is a candidate of the empty cell (3, 1).
    let cands = get_candidates(&state.grid, 3, 1);
    assert!(cands.contains(1));
    let child = state.assign(1, 3, 1).expect("assignment should not deadlock");
    assert_eq!(child.grid.get(3, 1), 1);
    assert!(!child.deadlocked());
    // The receiver is unmodified.
    assert_eq!(state.grid.get(3, 1), 0);
    // Propagation removed 1 from the peers of (3, 1).
    assert!(!get_candidates(&child.grid, 3, 0).contains(1));
    // The candidate cache of the child equals what the rule computes fresh
    // on the child's grid, cell by cell.
    for y in 0..9usize {
        for x in 0..9usize {
            let cached = child.candidates[y * 9 + x].to_vec();
            let fresh = get_candidates(&child.grid, x, y).to_vec();
            assert_eq!(cached, fresh);
        }
    }
}

#[test]
fn round_trip() {
    let grid = parse_grid(TEST_GRID).unwrap();
    assert!(check_round_trip(&grid));
    let text = render_grid(&grid);
    let parsed = parse_grid(text.as_str()).unwrap();
    assert!(grid.eq_cells(&parsed));
}

#[test]
fn render_layout_exact() {
    let grid = parse_grid(TEST_GRID).unwrap();
    let expected = "\
+------+------+-----+
|4 . . |. . . |8 . 5|
|. 3 . |. . . |. . .|
|. . . |7 . . |. . .|
+------+------+-----+
|. 2 . |. . . |. 6 .|
|. . . |. 8 . |4 . .|
|. . . |. 1 . |. . .|
+------+------+-----+
|. . . |6 . 3 |. 7 .|
|5 . . |2 . . |. . .|
|1 . 4 |. . . |. . .|
+------+------+-----+
";
    assert_eq!(render_grid(&grid), expected);
}

#[test]
fn solver_deterministic() {
    let grid = parse_grid(TEST_GRID).unwrap();
    let first = solve_recursive(grid.duplicate()).unwrap();
    let second = solve_recursive(grid).unwrap();
    assert!(first.eq_cells(&second));
}

#[test]
fn sequential_and_parallel_agree() {
    let grid = parse_grid(TEST_GRID).unwrap();
    let sequential = solve_recursive(grid.duplicate()).unwrap();
    let parallel = solve_recursive_par(grid).unwrap();
    assert!(sequential.eq_cells(&parallel));
}

#[test]
fn solution_is_consistent_and_extends_input() {
    let grid = parse_grid(TEST_GRID).unwrap();
    let solved = solve_recursive(grid.duplicate()).unwrap();
    assert!(grid_consistent_check(&solved));
    assert!(grid.extends_check(&solved));
    for y in 0..9 {
        for x in 0..9 {
            assert!(solved.get(x, y) != 0);
        }
    }
}

#[test]
fn parse_scenario_first_cell() {
    let grid = parse_grid(TEST_GRID).unwrap();
    assert_eq!(grid.get(0, 0), 4);
}

#[test]
fn solved_board_returns_identical() {
    let grid = parse_grid(TEST_GRID).unwrap();
    let solved = solve_recursive(grid).unwrap();
    let again = solve_recursive(solved.duplicate()).unwrap();
    assert!(solved.eq_cells(&again));
    let again_par = solve_recursive_par(solved.duplicate()).unwrap();
    assert!(solved.eq_cells(&again_par));
}

#[test]
fn parser_rejects_wrong_symbol_count() {
    // 80 symbols: one short.
    let short: String = ".".repeat(80);
    assert!(parse_grid(&short).is_none());
    // 82 symbols: one over.
    let long: String = ".".repeat(82);
    assert!(parse_grid(&long).is_none());
    // Junk characters are ignored, not counted.
    let padded = format!("abc {} xyz", ".".repeat(81));
    assert!(parse_grid(&padded).is_some());
    assert!(parse_grid("").is_none());
}

#[test]
fn unsolvable_board_returns_none() {
    // Solve the puzzle, then blank one cell and write its digit into
    // another cell of the same row: the blanked cell is left with no
    // candidate, so the duplicated digit makes the board unsolvable.
    let grid = parse_grid(TEST_GRID).unwrap();
    let solved = solve_recursive(grid).unwrap();
    let duplicated = solved.get(1, 0);
    let mut broken = solved.duplicate();
    broken.set(0, 1, 0);
    broken.set(duplicated, 0, 0);
    assert!(solve_recursive(broken.duplicate()).is_none());
    assert!(solve_recursive_par(broken).is_none());
}

#[test]
fn fewest_choices_prefers_lowest_index() {
    let values = vec![0u8; 81];
    let grid = Grid::new(values.as_slice());
    let state = SolveState::new(grid);
    // On an empty board every cell has nine candidates; the tie must be
    // broken by the lowest row-major index.
    let (cands, x, y) = state.candidate_fewest_choices().unwrap();
    assert_eq!((x, y), (0, 0));
    assert_eq!(cands.count(), 9);
}

#[test]
fn deadlock_detected() {
    let grid = parse_grid(TEST_GRID).unwrap();
    let solved = solve_recursive(grid).unwrap();
    let duplicated = solved.get(1, 0);
    let mut broken = solved.duplicate();
    broken.set(0, 1, 0);
    broken.set(duplicated, 0, 0);
    let state = SolveState::new(broken);
    assert!(state.deadlocked());
    assert!(!state.is_solved());
}

#[test]
fn is_solved_detects_completion() {
    let grid = parse_grid(TEST_GRID).unwrap();
    assert!(!SolveState::new(grid.duplicate()).is_solved());
    let solved = solve_recursive(grid).unwrap();
    assert!(SolveState::new(solved).is_solved());
}
