use sudoku_solvers::backtracking::SolveOutcome;
use sudoku_solvers::backtracking::Sudoku;
use sudoku_solvers::propagation::Board;
use sudoku_solvers::propagation::BoardError;
use sudoku_solvers::propagation::Cell;
use sudoku_solvers::propagation::PropagationOutcome;
use sudoku_solvers::propagation::SolvedCell;

/// A complete valid grid built from cyclic shifts of 1..=9.
fn full_grid() -> Vec<Vec<u32>> {
    let shifts: [u32; 9] = [0, 3, 6, 1, 4, 7, 2, 5, 8];
    let mut rows: Vec<Vec<u32>> = Vec::new();
    for r in 0..9usize {
        let mut row: Vec<u32> = Vec::new();
        for c in 0..9usize {
            row.push((shifts[r] + c as u32) % 9 + 1);
        }
        rows.push(row);
    }
    rows
}

fn to_rows(grid: [[u32; 9]; 9]) -> Vec<Vec<u32>> {
    let mut rows: Vec<Vec<u32>> = Vec::new();
    for r in 0..9usize {
        let mut row: Vec<u32> = Vec::new();
        for c in 0..9usize {
            row.push(grid[r][c]);
        }
        rows.push(row);
    }
    rows
}

fn example_board_one() -> Vec<Vec<u32>> {
    to_rows([
        [7, 0, 6, 0, 4, 0, 9, 0, 0],
        [0, 0, 0, 1, 6, 2, 0, 7, 0],
        [5, 0, 3, 0, 0, 0, 1, 0, 4],
        [0, 5, 0, 6, 0, 4, 0, 1, 0],
        [4, 3, 0, 0, 0, 0, 0, 2, 6],
        [0, 6, 0, 3, 0, 9, 0, 4, 0],
        [3, 0, 4, 0, 0, 0, 6, 0, 8],
        [0, 7, 0, 8, 3, 6, 0, 0, 0],
        [0, 0, 1, 0, 9, 0, 2, 0, 7],
    ])
}

fn example_board_two() -> Vec<Vec<u32>> {
    to_rows([
        [5, 3, 0, 0, 7, 0, 0, 0, 0],
        [6, 0, 0, 1, 9, 5, 0, 0, 0],
        [0, 9, 8, 0, 0, 0, 0, 6, 0],
        [8, 0, 0, 0, 6, 0, 0, 0, 3],
        [4, 0, 0, 8, 0, 3, 0, 0, 1],
        [7, 0, 0, 0, 2, 0, 0, 0, 6],
        [0, 6, 0, 0, 0, 0, 2, 8, 0],
        [0, 0, 0, 4, 1, 9, 0, 0, 5],
        [0, 0, 0, 0, 8, 0, 0, 7, 9],
    ])
}

#[test]
fn cell_of_a_clue_is_solved() {
    let c = Cell::new(5);
    assert!(c.is_solved());
    assert_eq!(c.resolve(), 5);
    assert_eq!(c.count_candidates(), 1);
    assert!(c.has_candidate(5));
    assert!(!c.has_candidate(4));
}

#[test]
fn empty_cell_has_nine_candidates() {
    let c = Cell::new(0);
    assert!(!c.is_solved());
    assert_eq!(c.resolve(), 0);
    assert_eq!(c.count_candidates(), 9);
    for d in 1..10u32 {
        assert!(c.has_candidate(d));
    }
}

#[test]
fn removal_shrinks_and_never_returns() {
    let mut c = Cell::new(0);
    c.remove_possibility(3);
    assert_eq!(c.count_candidates(), 8);
    assert!(!c.has_candidate(3));
    c.remove_possibility(3);
    assert_eq!(c.count_candidates(), 8);
    assert!(!c.has_candidate(3));
    c.remove_possibility(7);
    assert_eq!(c.count_candidates(), 7);
}

#[test]
fn naked_singles_puzzle_is_fully_solved() {
    // blank the diagonal of a full grid: every empty cell keeps exactly one
    // legal candidate, so propagation alone finishes the puzzle
    let full = full_grid();
    let mut puzzle = full.clone();
    for d in 0..9usize {
        puzzle[d][d] = 0;
    }
    let mut b = Board::new(puzzle).unwrap();
    let outcome = b.solve();
    assert_eq!(outcome, PropagationOutcome::Complete);
    for r in 0..9usize {
        for c in 0..9usize {
            assert!(b.cell(r, c).is_solved());
            assert_eq!(b.cell(r, c).count_candidates(), 1);
            assert_eq!(b.cell(r, c).resolve(), full[r][c]);
        }
    }
}

#[test]
fn second_example_board_is_fully_solved() {
    let mut b = Board::new(example_board_two()).unwrap();
    let outcome = b.solve();
    assert_eq!(outcome, PropagationOutcome::Complete);
    for r in 0..9usize {
        let mut seen: Vec<bool> = vec![false; 10];
        for c in 0..9usize {
            let v: u32 = b.cell(r, c).resolve();
            assert!(1 <= v && v <= 9);
            assert!(!seen[v as usize]);
            seen[v as usize] = true;
        }
    }
}

#[test]
fn search_puzzle_stalls_propagation_but_backtracking_solves_it() {
    // blank every cell holding a 1 or a 2: each empty cell keeps exactly the
    // candidate pair {1, 2}, which singleton elimination can never decide
    let full = full_grid();
    let mut rows = full.clone();
    for r in 0..9usize {
        for c in 0..9usize {
            if rows[r][c] <= 2 {
                rows[r][c] = 0;
            }
        }
    }
    let mut b = Board::new(rows.clone()).unwrap();
    let outcome = b.solve();
    assert_eq!(outcome, PropagationOutcome::Stalled);
    let mut undetermined: u32 = 0;
    for r in 0..9usize {
        for c in 0..9usize {
            assert!(b.cell(r, c).count_candidates() >= 1);
            if b.cell(r, c).count_candidates() >= 2 {
                undetermined += 1;
            }
        }
    }
    assert!(undetermined >= 1);

    // the backtracking engine still finds a complete valid solution
    let mut pairs: Vec<(usize, u32)> = Vec::new();
    for r in 0..9usize {
        for c in 0..9usize {
            if rows[r][c] != 0 {
                pairs.push((r * 9 + c, rows[r][c]));
            }
        }
    }
    let mut s = Sudoku::from_pairs(&pairs).unwrap();
    assert_eq!(s.solve(), SolveOutcome::Solved);
    for r in 0..9usize {
        let mut seen: Vec<bool> = vec![false; 10];
        for c in 0..9usize {
            let v: u32 = s.get_cell(r, c);
            assert!(1 <= v && v <= 9);
            assert!(!seen[v as usize]);
            seen[v as usize] = true;
        }
    }
}

#[test]
fn first_example_board_propagates_without_contradiction() {
    let mut b = Board::new(example_board_one()).unwrap();
    let outcome = b.solve();
    assert!(outcome != PropagationOutcome::Contradiction);
    // domains never empty, and the given clues keep their digit
    let rows = example_board_one();
    for r in 0..9usize {
        for c in 0..9usize {
            assert!(b.cell(r, c).count_candidates() >= 1);
            if rows[r][c] != 0 {
                assert!(b.cell(r, c).is_solved());
                assert_eq!(b.cell(r, c).resolve(), rows[r][c]);
            }
        }
    }
}

#[test]
fn elimination_touches_exactly_the_peers() {
    let mut rows: Vec<Vec<u32>> = Vec::new();
    for _r in 0..9usize {
        let mut row: Vec<u32> = Vec::new();
        for _c in 0..9usize {
            row.push(0);
        }
        rows.push(row);
    }
    let mut b = Board::new(rows).unwrap();
    b.reduce_possibilities(SolvedCell { x: 0, y: 0, value: 5 });
    for r in 0..9usize {
        for c in 0..9usize {
            let peer = r == 0 || c == 0 || (r < 3 && c < 3);
            if peer {
                assert_eq!(b.cell(r, c).count_candidates(), 8);
                assert!(!b.cell(r, c).has_candidate(5));
            } else {
                assert_eq!(b.cell(r, c).count_candidates(), 9);
                assert!(b.cell(r, c).has_candidate(5));
            }
        }
    }
}

#[test]
fn conflicting_givens_are_rejected_at_construction() {
    let mut rows: Vec<Vec<u32>> = Vec::new();
    for _r in 0..9usize {
        let mut row: Vec<u32> = Vec::new();
        for _c in 0..9usize {
            row.push(0);
        }
        rows.push(row);
    }
    // two identical clues in one row
    rows[0][0] = 5;
    rows[0][3] = 5;
    assert!(matches!(Board::new(rows.clone()), Err(BoardError::ConflictingClues)));
    // two identical clues in one column
    rows[0][3] = 0;
    rows[4][0] = 5;
    assert!(matches!(Board::new(rows.clone()), Err(BoardError::ConflictingClues)));
    // two identical clues in one block
    rows[4][0] = 0;
    rows[1][1] = 5;
    assert!(matches!(Board::new(rows.clone()), Err(BoardError::ConflictingClues)));
    // the same digit in unrelated cells is fine
    rows[1][1] = 0;
    rows[4][4] = 5;
    assert!(Board::new(rows).is_ok());
}

#[test]
fn elimination_order_does_not_change_the_result() {
    // process the same set of solved cells forwards on one board and
    // backwards on another: every cell ends with the same candidates
    let full = full_grid();
    let mut rows = full.clone();
    for r in 0..9usize {
        for c in 0..9usize {
            if rows[r][c] <= 2 {
                rows[r][c] = 0;
            }
        }
    }
    let mut givens: Vec<SolvedCell> = Vec::new();
    for r in 0..9usize {
        for c in 0..9usize {
            if rows[r][c] != 0 {
                givens.push(SolvedCell { x: r as u32, y: c as u32, value: rows[r][c] });
            }
        }
    }
    let mut forward = Board::new(rows.clone()).unwrap();
    let mut backward = Board::new(rows.clone()).unwrap();
    for g in givens.iter() {
        forward.reduce_possibilities(*g);
    }
    for g in givens.iter().rev() {
        backward.reduce_possibilities(*g);
    }
    for r in 0..9usize {
        for c in 0..9usize {
            for d in 1..10u32 {
                assert_eq!(
                    forward.cell(r, c).has_candidate(d),
                    backward.cell(r, c).has_candidate(d)
                );
            }
        }
    }
}

#[test]
fn solved_cells_survive_propagation_unchanged() {
    let rows = example_board_two();
    let mut b = Board::new(rows.clone()).unwrap();
    b.solve();
    for r in 0..9usize {
        for c in 0..9usize {
            if rows[r][c] != 0 {
                assert!(b.cell(r, c).is_solved());
                assert_eq!(b.cell(r, c).resolve(), rows[r][c]);
            }
        }
    }
}
