use sudoku_solvers::backtracking::SolveOutcome;
use sudoku_solvers::backtracking::Sudoku;
use sudoku_solvers::backtracking::SudokuError;

/// A complete valid grid built from cyclic shifts of 1..=9.
fn full_grid() -> Vec<Vec<u32>> {
    let shifts: [u32; 9] = [0, 3, 6, 1, 4, 7, 2, 5, 8];
    let mut rows: Vec<Vec<u32>> = Vec::new();
    for r in 0..9usize {
        let mut row: Vec<u32> = Vec::new();
        for c in 0..9usize {
            row.push((shifts[r] + c as u32) % 9 + 1);
        }
        rows.push(row);
    }
    rows
}

fn grid_to_pairs(rows: &Vec<Vec<u32>>) -> Vec<(usize, u32)> {
    let mut pairs: Vec<(usize, u32)> = Vec::new();
    for r in 0..9usize {
        for c in 0..9usize {
            if rows[r][c] != 0 {
                pairs.push((r * 9 + c, rows[r][c]));
            }
        }
    }
    pairs
}

/// Every row, column and block of the solved grid holds each digit once.
fn check_solved(s: &Sudoku) {
    for r in 0..9usize {
        let mut seen: Vec<bool> = vec![false; 10];
        for c in 0..9usize {
            let v: u32 = s.get_cell(r, c);
            assert!(1 <= v && v <= 9);
            assert!(!seen[v as usize]);
            seen[v as usize] = true;
        }
    }
    for c in 0..9usize {
        let mut seen: Vec<bool> = vec![false; 10];
        for r in 0..9usize {
            let v: u32 = s.get_cell(r, c);
            assert!(!seen[v as usize]);
            seen[v as usize] = true;
        }
    }
    for b in 0..9usize {
        let mut seen: Vec<bool> = vec![false; 10];
        for t in 0..9usize {
            let r: usize = (b / 3) * 3 + t / 3;
            let c: usize = (b % 3) * 3 + t % 3;
            let v: u32 = s.get_cell(r, c);
            assert!(!seen[v as usize]);
            seen[v as usize] = true;
        }
    }
}

fn example_pairs_one() -> Vec<(usize, u32)> {
    vec![
        (2, 7),
        (6, 3),
        (7, 1),
        (9, 6),
        (13, 9),
        (15, 7),
        (19, 1),
        (23, 8),
        (27, 2),
        (29, 6),
        (30, 8),
        (32, 9),
        (37, 4),
        (39, 6),
        (41, 1),
        (43, 9),
        (48, 3),
        (50, 7),
        (51, 8),
        (53, 6),
        (57, 7),
        (61, 3),
        (65, 1),
        (67, 8),
        (71, 2),
        (73, 2),
        (74, 5),
        (78, 6),
    ]
}

fn example_pairs_two() -> Vec<(usize, u32)> {
    vec![
        (2, 4),
        (9, 9),
        (10, 5),
        (12, 4),
        (17, 8),
        (22, 1),
        (24, 5),
        (26, 6),
        (28, 3),
        (30, 6),
        (35, 5),
        (37, 1),
        (39, 3),
        (41, 8),
        (43, 6),
        (45, 4),
        (50, 5),
        (52, 7),
        (54, 8),
        (56, 9),
        (58, 4),
        (63, 3),
        (68, 2),
        (70, 5),
        (71, 4),
        (78, 2),
    ]
}

#[test]
fn solves_example_puzzle_one() {
    let pairs = example_pairs_one();
    let mut s = Sudoku::from_pairs(&pairs).unwrap();
    let outcome = s.solve();
    assert_eq!(outcome, SolveOutcome::Solved);
    check_solved(&s);
    for (i, v) in pairs {
        assert_eq!(s.get_cell(i / 9, i % 9), v);
    }
}

#[test]
fn solves_example_puzzle_two() {
    let pairs = example_pairs_two();
    let mut s = Sudoku::from_pairs(&pairs).unwrap();
    let outcome = s.solve();
    assert_eq!(outcome, SolveOutcome::Solved);
    check_solved(&s);
    for (i, v) in pairs {
        assert_eq!(s.get_cell(i / 9, i % 9), v);
    }
}

#[test]
fn solves_empty_grid() {
    let pairs: Vec<(usize, u32)> = Vec::new();
    let mut s = Sudoku::from_pairs(&pairs).unwrap();
    let outcome = s.solve();
    assert_eq!(outcome, SolveOutcome::Solved);
    check_solved(&s);
}

#[test]
fn matches_unique_solution() {
    // blank out the diagonal of a full grid: each blanked cell is forced by
    // its row, so the solution is unique and must be the original grid
    let full = full_grid();
    let mut puzzle = full.clone();
    for d in 0..9usize {
        puzzle[d][d] = 0;
    }
    let pairs = grid_to_pairs(&puzzle);
    let mut s = Sudoku::from_pairs(&pairs).unwrap();
    let outcome = s.solve();
    assert_eq!(outcome, SolveOutcome::Solved);
    for r in 0..9usize {
        for c in 0..9usize {
            assert_eq!(s.get_cell(r, c), full[r][c]);
        }
    }
}

#[test]
fn already_solved_grid_is_untouched() {
    let full = full_grid();
    let pairs = grid_to_pairs(&full);
    let mut s = Sudoku::from_pairs(&pairs).unwrap();
    let outcome = s.solve();
    assert_eq!(outcome, SolveOutcome::Solved);
    for r in 0..9usize {
        for c in 0..9usize {
            assert_eq!(s.get_cell(r, c), full[r][c]);
        }
    }
}

#[test]
fn reports_unsolvable_and_restores_grid() {
    // consistent clues that leave no candidate for the top-left cell:
    // its row peers hold 1..=5 and its column peers hold 6..=9
    let pairs: Vec<(usize, u32)> = vec![
        (1, 1),
        (2, 2),
        (3, 3),
        (4, 4),
        (5, 5),
        (27, 6),
        (36, 7),
        (45, 8),
        (54, 9),
    ];
    let mut s = Sudoku::from_pairs(&pairs).unwrap();
    let outcome = s.solve();
    assert_eq!(outcome, SolveOutcome::Unsolvable);
    for (i, v) in pairs {
        assert_eq!(s.get_cell(i / 9, i % 9), v);
    }
    assert_eq!(s.get_cell(0, 0), 0);
    assert_eq!(s.get_cell(8, 8), 0);
}

#[test]
fn rejects_conflicting_clues() {
    let r = Sudoku::from_pairs(&vec![(0, 5), (3, 5)]);
    assert!(matches!(r, Err(SudokuError::ConflictingClues)));
    let r = Sudoku::from_pairs(&vec![(0, 7), (36, 7)]);
    assert!(matches!(r, Err(SudokuError::ConflictingClues)));
    let r = Sudoku::from_pairs(&vec![(0, 2), (10, 2)]);
    assert!(matches!(r, Err(SudokuError::ConflictingClues)));
}

#[test]
fn rejects_out_of_range_clues() {
    let r = Sudoku::from_pairs(&vec![(81, 1)]);
    assert!(matches!(r, Err(SudokuError::InvalidClue)));
    let r = Sudoku::from_pairs(&vec![(0, 10)]);
    assert!(matches!(r, Err(SudokuError::InvalidClue)));
}

#[test]
fn zero_digit_clue_leaves_cell_empty() {
    let mut s = Sudoku::from_pairs(&vec![(0, 0), (1, 5)]).unwrap();
    assert_eq!(s.get_cell(0, 0), 0);
    assert_eq!(s.get_cell(0, 1), 5);
    let outcome = s.solve();
    assert_eq!(outcome, SolveOutcome::Solved);
    check_solved(&s);
    assert_eq!(s.get_cell(0, 1), 5);
}

#[test]
fn next_candidate_steps() {
    let s = Sudoku::from_pairs(&vec![(0, 1), (1, 2)]).unwrap();
    assert!(!s.is_valid_cell(0, 2, 1));
    assert!(!s.is_valid_cell(0, 2, 2));
    assert!(s.is_valid_cell(0, 2, 3));
    assert_eq!(s.find_solution(0, 2), Some(3));

    let empty = Sudoku::from_pairs(&Vec::new()).unwrap();
    assert_eq!(empty.find_solution(0, 0), Some(1));
    assert_eq!(empty.find_solution(8, 8), Some(1));
}

#[test]
fn find_solution_exhausted_returns_none() {
    // the top-left cell of a full grid admits no digit above its own value
    let full = full_grid();
    let pairs = grid_to_pairs(&full);
    let s = Sudoku::from_pairs(&pairs).unwrap();
    assert_eq!(s.find_solution(0, 0), None);
}

#[test]
fn set_and_get_cell_roundtrip() {
    let mut s = Sudoku::from_pairs(&Vec::new()).unwrap();
    assert_eq!(s.get_cell(4, 7), 0);
    s.set_cell(4, 7, 9);
    assert_eq!(s.get_cell(4, 7), 9);
    s.set_cell(4, 7, 0);
    assert_eq!(s.get_cell(4, 7), 0);
}
