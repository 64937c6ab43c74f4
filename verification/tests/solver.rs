//! End-to-end solves: propagation-only puzzles, hidden-single puzzles,
//! error reporting, and the round trip through a textual rendering.

use sudoku::CellIndex;
use sudoku::CellIndices;
use sudoku::FlatIndex;
use sudoku::Sudoku;
use sudoku::SudokuValue;
use sudoku::indices::Indices;
use sudoku::solve;
use sudoku::solver_base::GeneralSudokuSolver;
use sudoku::solver_full_loop::SolverFullLoop;
use sudoku::InvalidSudokuError;
use sudoku::SudokuSolveError;

/// The reference solution grid the test puzzles are drawn from, as the
/// 0-based digit of row `r`, column `c`.
fn sol(r: u8, c: u8) -> u8 {
    (r * 3 + r / 3 + c) % 9
}

fn fi(i: u8) -> FlatIndex {
    FlatIndex::new(i).unwrap()
}

fn sv0(v: u8) -> SudokuValue {
    SudokuValue::new_0based(v).unwrap()
}

fn cell(board: &Sudoku, r: u8, c: u8) -> Option<u8> {
    let idx = Indices { row: CellIndex::new(r).unwrap(), column: CellIndex::new(c).unwrap() };
    board.get_value(idx).map(|v| v.get_0based())
}

fn count_resolved(board: &Sudoku) -> usize {
    let mut n = 0;
    for r in 0..9 {
        for c in 0..9 {
            if cell(board, r, c).is_some() {
                n += 1;
            }
        }
    }
    n
}

fn assert_is_reference_solution(board: &Sudoku) {
    for r in 0..9 {
        for c in 0..9 {
            assert_eq!(cell(board, r, c), Some(sol(r, c)));
        }
    }
}

/// Givens of a puzzle that direct elimination alone completes.
fn propagation_only_givens() -> Vec<(FlatIndex, SudokuValue)> {
    let cells: [u8; 26] = [
        1, 4, 9, 10, 11, 13, 15, 22, 23, 24, 32, 33, 34, 37, 45, 47, 51, 52, 53, 55, 57, 62, 72,
        77, 79, 80,
    ];
    cells.iter().map(|&i| (fi(i), sv0(sol(i / 9, i % 9)))).collect()
}

/// Givens of a puzzle that stalls under direct elimination alone but
/// completes once the hidden-single quadrant search runs.
fn hidden_single_givens() -> Vec<(FlatIndex, SudokuValue)> {
    let cells: [u8; 23] = [
        4, 6, 17, 19, 20, 21, 22, 32, 33, 35, 39, 43, 46, 49, 51, 53, 57, 61, 62, 64, 65, 70, 72,
    ];
    cells.iter().map(|&i| (fi(i), sv0(sol(i / 9, i % 9)))).collect()
}

#[test]
fn propagation_only_puzzle_solves_without_search() {
    // drive the solver by hand: seeding plus queue draining only, so the
    // quadrant search can contribute nothing at all
    let mut solver = SolverFullLoop::new();
    for (i, v) in propagation_only_givens() {
        assert!(solver.give_val(i, v).is_ok());
    }
    assert!(solver.propagate());
    let board = solver.into_current_solved_state();
    assert_eq!(count_resolved(&board), 81);
    assert_is_reference_solution(&board);
    assert!(sudoku::check_sudoku(&board));

    // the full driver reaches the same board
    let solved = match solve(&propagation_only_givens()) {
        Ok(s) => s,
        Err(_) => panic!("propagation-only puzzle must solve"),
    };
    assert_is_reference_solution(&solved);
}

#[test]
fn hidden_single_puzzle_needs_the_quadrant_search() {
    // propagation alone stalls on this puzzle...
    let mut solver = SolverFullLoop::new();
    for (i, v) in hidden_single_givens() {
        assert!(solver.give_val(i, v).is_ok());
    }
    assert!(solver.propagate());
    let stalled = solver.into_current_solved_state();
    assert!(count_resolved(&stalled) < 81);

    // ...but the full driver, quadrant search included, completes it
    let solved = match solve(&hidden_single_givens()) {
        Ok(s) => s,
        Err(_) => panic!("hidden-single puzzle must solve"),
    };
    assert_is_reference_solution(&solved);
    assert!(sudoku::check_sudoku(&solved));
}

#[test]
fn done_board_has_every_digit_once_per_unit() {
    let solved = match solve(&propagation_only_givens()) {
        Ok(s) => s,
        Err(_) => panic!("puzzle must solve"),
    };
    for d in 0..9 {
        for r in 0..9 {
            let count = (0..9).filter(|&c| cell(&solved, r, c) == Some(d)).count();
            assert_eq!(count, 1);
        }
        for c in 0..9 {
            let count = (0..9).filter(|&r| cell(&solved, r, c) == Some(d)).count();
            assert_eq!(count, 1);
        }
        for q in 0..9 {
            let count = (0..9)
                .filter(|&k| {
                    let r = (q / 3) * 3 + k / 3;
                    let c = (q % 3) * 3 + k % 3;
                    cell(&solved, r, c) == Some(d)
                })
                .count();
            assert_eq!(count, 1);
        }
    }
}

fn render(board: &Sudoku) -> String {
    let mut text = String::new();
    for r in 0..9 {
        for c in 0..9 {
            match cell(board, r, c) {
                None => text.push('-'),
                Some(d) => text.push(char::from(b'1' + d)),
            }
        }
    }
    text
}

fn parse(text: &str) -> Vec<(FlatIndex, SudokuValue)> {
    let mut givens = Vec::new();
    for (i, ch) in text.chars().enumerate() {
        if ch != '-' {
            let d = ch.to_digit(10).unwrap() as u8;
            givens.push((fi(i as u8), SudokuValue::new_1based(d).unwrap()));
        }
    }
    givens
}

#[test]
fn solved_board_round_trips_through_text() {
    let solved = match solve(&hidden_single_givens()) {
        Ok(s) => s,
        Err(_) => panic!("puzzle must solve"),
    };
    let text = render(&solved);
    assert_eq!(text.len(), 81);
    let givens = parse(&text);
    assert_eq!(givens.len(), 81);

    // feeding the rendering back resolves the whole board at seeding time:
    // propagation has nothing left to do
    let mut solver = SolverFullLoop::new();
    for (i, v) in givens.clone() {
        assert!(solver.give_val(i, v).is_ok());
    }
    let reseeded = solver.into_current_solved_state();
    assert_eq!(count_resolved(&reseeded), 81);

    // and the full solve returns the same board
    let solved_again = match solve(&givens) {
        Ok(s) => s,
        Err(_) => panic!("round trip must solve"),
    };
    for r in 0..9 {
        for c in 0..9 {
            assert_eq!(cell(&solved_again, r, c), cell(&solved, r, c));
        }
    }
}

#[test]
fn empty_input_reports_no_solution() {
    match solve(&[]) {
        Err(SudokuSolveError::SudokuHasNotSolution(board)) => {
            assert_eq!(count_resolved(&board), 0);
        }
        _ => panic!("an empty puzzle must report NoSolutionFound"),
    }
}

#[test]
fn position_given_twice_is_rejected() {
    let givens = [(fi(0), sv0(4)), (fi(0), sv0(6))];
    match solve(&givens) {
        Err(SudokuSolveError::InvalidSudoku(InvalidSudokuError::PositionGivenTwice(i), board)) => {
            assert_eq!(i.get(), 0);
            // only the first given has touched the board
            assert_eq!(cell(&board, 0, 0), Some(4));
            assert_eq!(count_resolved(&board), 1);
        }
        _ => panic!("a doubled position must report PositionGivenTwice"),
    }
}

#[test]
fn conflicting_value_is_rejected() {
    // same row, same digit: the second given no longer fits
    let givens = [(fi(0), sv0(4)), (fi(5), sv0(4))];
    match solve(&givens) {
        Err(SudokuSolveError::InvalidSudoku(InvalidSudokuError::ValueCannotFit(i, v), board)) => {
            assert_eq!(i.get(), 5);
            assert_eq!(v.get_0based(), 4);
            assert_eq!(count_resolved(&board), 1);
        }
        _ => panic!("a conflicting digit must report ValueCannotFit"),
    }
}

#[test]
fn under_constrained_puzzle_reports_no_solution() {
    let givens = [(fi(0), sv0(0)), (fi(80), sv0(8))];
    match solve(&givens) {
        Err(SudokuSolveError::SudokuHasNotSolution(board)) => {
            // the partial board holds exactly the two givens, so it is
            // trivially consistent
            assert_eq!(count_resolved(&board), 2);
            assert_eq!(cell(&board, 0, 0), Some(0));
            assert_eq!(cell(&board, 8, 8), Some(8));
        }
        _ => panic!("two givens must report NoSolutionFound"),
    }
}

#[test]
fn incomplete_board_fails_check() {
    match solve(&[(fi(0), sv0(0)), (fi(80), sv0(8))]) {
        Err(SudokuSolveError::SudokuHasNotSolution(board)) => {
            assert!(!sudoku::check_sudoku(&board));
        }
        _ => panic!("two givens must report NoSolutionFound"),
    }
}

#[test]
fn solving_is_deterministic() {
    let first = match solve(&hidden_single_givens()) {
        Ok(s) => s,
        Err(_) => panic!("puzzle must solve"),
    };
    let second = match solve(&hidden_single_givens()) {
        Ok(s) => s,
        Err(_) => panic!("puzzle must solve"),
    };
    for r in 0..9 {
        for c in 0..9 {
            assert_eq!(cell(&first, r, c), cell(&second, r, c));
        }
    }
}
