use std::collections::HashMap;
use std::collections::HashSet;

use sudoku::PlayResult;
use sudoku::SolveResult;
use sudoku::Sudoku;

const TEST_VALUES: [u8; 81] = [
    0, 0, 0, 0, 0, 0, 0, 0, 7, // 0
    7, 6, 3, 0, 0, 0, 9, 0, 1, // 1
    1, 0, 5, 3, 6, 7, 2, 4, 8, // 2
    0, 0, 1, 8, 3, 0, 4, 7, 0, // 3
    9, 0, 0, 1, 7, 6, 0, 8, 3, // 4
    3, 0, 0, 0, 0, 4, 0, 0, 0, // 5
    0, 8, 9, 7, 0, 0, 0, 2, 5, // 6
    5, 3, 0, 0, 8, 0, 0, 1, 9, // 7
    0, 1, 7, 6, 0, 0, 8, 0, 0, // 8
];

const IMPOSSIBLE_VALUES: [u8; 81] = [
    2, 5, 6, 0, 4, 9, 8, 3, 7, // 0
    1, 8, 3, 5, 0, 7, 9, 6, 4, // 1
    9, 7, 4, 3, 8, 6, 2, 5, 1, // 2
    8, 4, 9, 1, 6, 2, 3, 7, 5, // 3
    5, 6, 2, 7, 9, 3, 4, 1, 8, // 4
    7, 3, 1, 4, 5, 8, 6, 2, 9, // 5
    6, 9, 7, 8, 3, 1, 5, 4, 2, // 6
    4, 2, 8, 6, 7, 5, 1, 9, 3, // 7
    3, 1, 5, 9, 2, 4, 7, 8, 6, // 8
];

fn create_sudoku(values: [u8; 81]) -> Sudoku {
    Sudoku::from_layout(9, 3, values.to_vec(), 42).unwrap()
}

fn entries(pairs: &[(usize, u8)]) -> HashMap<usize, u8> {
    pairs.iter().copied().collect()
}

fn digits(values: &[u8]) -> HashSet<u8> {
    values.iter().copied().collect()
}

#[test]
fn test_get_row_entries() {
    let sudoku = create_sudoku(TEST_VALUES);

    assert_eq!(sudoku.get_row_entries(0), entries(&[(8, 7)]));
    assert_eq!(
        sudoku.get_row_entries(40),
        entries(&[(36, 9), (39, 1), (40, 7), (41, 6), (43, 8), (44, 3)])
    );
    assert_eq!(
        sudoku.get_row_entries(80),
        entries(&[(73, 1), (74, 7), (75, 6), (78, 8)])
    );
}

#[test]
fn test_get_column_entries() {
    let sudoku = create_sudoku(TEST_VALUES);

    assert_eq!(
        sudoku.get_column_entries(0),
        entries(&[(9, 7), (18, 1), (36, 9), (45, 3), (63, 5)])
    );
    assert_eq!(
        sudoku.get_column_entries(40),
        entries(&[(22, 6), (31, 3), (40, 7), (67, 8)])
    );
    assert_eq!(
        sudoku.get_column_entries(80),
        entries(&[(8, 7), (17, 1), (26, 8), (44, 3), (62, 5), (71, 9)])
    );
}

#[test]
fn test_get_block_entries() {
    let sudoku = create_sudoku(TEST_VALUES);

    assert_eq!(
        sudoku.get_block_entries(40),
        entries(&[(30, 8), (31, 3), (39, 1), (40, 7), (41, 6), (50, 4)])
    );
}

#[test]
fn test_get_intersecting_values() {
    let sudoku = create_sudoku(TEST_VALUES);

    assert_eq!(
        sudoku.get_intersecting_values(0),
        digits(&[1, 3, 5, 6, 7, 9])
    );
    assert_eq!(
        sudoku.get_intersecting_values(40),
        digits(&[1, 3, 4, 6, 7, 8, 9])
    );
    assert_eq!(
        sudoku.get_intersecting_values(80),
        digits(&[1, 2, 3, 5, 6, 7, 8, 9])
    );
}

#[test]
fn test_get_possible_values() {
    let sudoku = create_sudoku(TEST_VALUES);
    assert_eq!(sudoku.get_possible_values(0), vec![2, 4, 8]);
    assert_eq!(sudoku.get_possible_values(40), vec![2, 5]);
    assert_eq!(sudoku.get_possible_values(80), vec![4]);
}

#[test]
fn test_solve() {
    let mut sudoku = create_sudoku(TEST_VALUES);
    assert_eq!(sudoku.solve(), SolveResult::Solved);

    let mut impossible = create_sudoku(IMPOSSIBLE_VALUES);
    assert_eq!(impossible.solve(), SolveResult::Unsolvable);
}

#[test]
fn test_is_valid_move() {
    let sudoku = create_sudoku(TEST_VALUES);

    assert!(sudoku.is_valid_move(0, 0));
    assert!(!sudoku.is_valid_move(9, 0));
    assert!(!sudoku.is_valid_move(40, 4));
    assert!(!sudoku.is_valid_move(80, 6));
    assert!(!sudoku.is_valid_move(80, 3));
}

#[test]
fn test_play() {
    let mut sudoku = create_sudoku(TEST_VALUES);

    assert_eq!(sudoku.play(0, 10), PlayResult::InvalidInput);
    assert_eq!(sudoku.play(100, 0), PlayResult::InvalidInput);
    assert_eq!(sudoku.play(0, 7), PlayResult::InvalidMove);
    assert_eq!(sudoku.play(0, 4), PlayResult::Accepted);
    assert_eq!(sudoku.cell_at(0, 0).unwrap(), 4);
    assert_eq!(sudoku.play(0, 0), PlayResult::Accepted);
    assert_eq!(sudoku.cell_at(0, 0), None);
}

#[test]
fn test_reset() {
    let mut sudoku = create_sudoku(TEST_VALUES);
    assert_eq!(sudoku.play(0, 4), PlayResult::Accepted);
    assert_eq!(sudoku.play(80, 4), PlayResult::Accepted);
    sudoku.reset();

    assert_eq!(sudoku.cell_at(0, 0), None);
    assert_eq!(sudoku.cell_at(8, 8), None);
}

#[test]
fn test_random() {
    let mut sudoku0 = Sudoku::random(42, 10);
    let sudoku1 = Sudoku::random(42, 10);
    let sudoku2 = Sudoku::random(100, 10);

    assert_eq!(sudoku0.get_grid(), sudoku1.get_grid());
    assert_ne!(sudoku0.get_grid(), sudoku2.get_grid());
    assert_eq!(sudoku0.solve(), SolveResult::Solved);
    assert_eq!((0..81).filter(|&i| sudoku0.is_given(i)).count(), 10);
}

#[test]
#[should_panic]
fn test_random_clues() {
    Sudoku::random(42, 100);
}

#[test]
fn test_is_mutable_cell() {
    let sudoku = create_sudoku(TEST_VALUES);
    assert!(sudoku.is_mutable_cell(0));
    assert!(!sudoku.is_mutable_cell(40));
}

#[test]
fn test_is_solved() {
    let mut sudoku = create_sudoku(TEST_VALUES);
    assert!(!sudoku.is_solved());
    sudoku.solve();
    assert!(sudoku.is_solved());
}
