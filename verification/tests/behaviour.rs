use sudoku::PlayResult;
use sudoku::SolveResult;
use sudoku::SolveStrategy;
use sudoku::Sudoku;

const PUZZLE: [u8; 81] = [
    0, 0, 0, 0, 0, 0, 0, 0, 7, //
    7, 6, 3, 0, 0, 0, 9, 0, 1, //
    1, 0, 5, 3, 6, 7, 2, 4, 8, //
    0, 0, 1, 8, 3, 0, 4, 7, 0, //
    9, 0, 0, 1, 7, 6, 0, 8, 3, //
    3, 0, 0, 0, 0, 4, 0, 0, 0, //
    0, 8, 9, 7, 0, 0, 0, 2, 5, //
    5, 3, 0, 0, 8, 0, 0, 1, 9, //
    0, 1, 7, 6, 0, 0, 8, 0, 0, //
];

const DEAD_END: [u8; 81] = [
    2, 5, 6, 0, 4, 9, 8, 3, 7, //
    1, 8, 3, 5, 0, 7, 9, 6, 4, //
    9, 7, 4, 3, 8, 6, 2, 5, 1, //
    8, 4, 9, 1, 6, 2, 3, 7, 5, //
    5, 6, 2, 7, 9, 3, 4, 1, 8, //
    7, 3, 1, 4, 5, 8, 6, 2, 9, //
    6, 9, 7, 8, 3, 1, 5, 4, 2, //
    4, 2, 8, 6, 7, 5, 1, 9, 3, //
    3, 1, 5, 9, 2, 4, 7, 8, 6, //
];

const FIRST_SOLUTION: [u8; 81] = [
    1, 2, 3, 4, 5, 6, 7, 8, 9, //
    4, 5, 6, 7, 8, 9, 1, 2, 3, //
    7, 8, 9, 1, 2, 3, 4, 5, 6, //
    2, 1, 4, 3, 6, 5, 8, 9, 7, //
    3, 6, 5, 8, 9, 7, 2, 1, 4, //
    8, 9, 7, 2, 1, 4, 3, 6, 5, //
    5, 3, 1, 6, 4, 2, 9, 7, 8, //
    6, 4, 2, 9, 7, 8, 5, 3, 1, //
    9, 7, 8, 5, 3, 1, 6, 4, 2, //
];

fn standard(values: &[u8]) -> Sudoku {
    Sudoku::from_layout(9, 3, values.to_vec(), 7).unwrap()
}

/// Whether `cells` is a full grid of span `n` in blocks of span `b` without
/// a repeated digit in any row, column or block.
fn is_solution(cells: &[u8], n: usize, b: usize) -> bool {
    if cells.len() != n * n {
        return false;
    }
    for i in 0..n * n {
        if cells[i] == 0 || cells[i] as usize > n {
            return false;
        }
        for j in 0..n * n {
            let same_row = i / n == j / n;
            let same_column = i % n == j % n;
            let same_block = i / n / b == j / n / b && i % n / b == j % n / b;
            if i != j && (same_row || same_column || same_block) && cells[i] == cells[j] {
                return false;
            }
        }
    }
    true
}

fn given_cells(sudoku: &Sudoku) -> Vec<usize> {
    let area = sudoku.grid_span() * sudoku.grid_span();
    (0..area).filter(|&i| sudoku.is_given(i)).collect()
}

#[test]
fn generated_puzzle_has_the_clues_asked_for() {
    for clues in [0usize, 1, 10, 40, 80, 81] {
        let sudoku = Sudoku::random(3, clues);
        assert_eq!(sudoku.grid_span(), 9);
        assert_eq!(sudoku.block_span(), 3);
        assert_eq!(sudoku.get_grid().len(), 81);
        assert_eq!(given_cells(&sudoku).len(), clues);
        for i in 0..81 {
            assert_eq!(sudoku.get_grid()[i] != 0, sudoku.is_given(i));
            assert_eq!(sudoku.is_mutable_cell(i), !sudoku.is_given(i));
        }
    }
}

#[test]
fn generated_puzzle_comes_from_a_solution() {
    for seed in 0..8u64 {
        let full = Sudoku::random(seed, 81);
        assert!(full.is_solved());
        assert!(is_solution(full.get_grid(), 9, 3));

        let mut puzzle = Sudoku::random(seed, 30);
        for i in 0..81 {
            if puzzle.is_given(i) {
                assert_eq!(puzzle.get_grid()[i], full.get_grid()[i]);
            }
        }
        assert_eq!(puzzle.solve(), SolveResult::Solved);
        assert!(is_solution(puzzle.get_grid(), 9, 3));
    }
}

#[test]
fn generation_repeats_for_a_seed() {
    for seed in [0u64, 1, 42, u64::MAX] {
        let first = Sudoku::random(seed, 25);
        let second = Sudoku::random(seed, 25);
        assert_eq!(first.get_grid(), second.get_grid());
        assert_eq!(given_cells(&first), given_cells(&second));
    }
}

#[test]
fn generation_depends_on_the_seed() {
    let solutions: Vec<Vec<u8>> =
        (0..6u64).map(|seed| Sudoku::random(seed, 81).get_grid().clone()).collect();
    assert!(solutions.iter().any(|cells| cells[..] != FIRST_SOLUTION[..]));
    assert!(solutions.iter().any(|cells| cells != &solutions[0]));
    let clues: Vec<Vec<usize>> =
        (0..6u64).map(|seed| given_cells(&Sudoku::random(seed, 10))).collect();
    assert!(clues.iter().any(|cells| cells[..] != [0, 1, 2, 3, 4, 5, 6, 7, 8, 9]));
}

#[test]
fn solve_fills_every_cell_and_keeps_the_filled_ones() {
    let mut sudoku = standard(&PUZZLE);
    assert_eq!(sudoku.solve(), SolveResult::Solved);
    assert!(sudoku.is_solved());
    assert!(is_solution(sudoku.get_grid(), 9, 3));
    for i in 0..81 {
        if PUZZLE[i] != 0 {
            assert_eq!(sudoku.get_grid()[i], PUZZLE[i]);
        }
    }
    assert_eq!(given_cells(&sudoku), given_cells(&standard(&PUZZLE)));
}

#[test]
fn solve_leaves_an_unsolvable_grid_unchanged() {
    let mut sudoku = standard(&DEAD_END);
    assert_eq!(sudoku.solve(), SolveResult::Unsolvable);
    assert_eq!(sudoku.get_grid()[..], DEAD_END[..]);
    assert!(!sudoku.is_solved());
}

#[test]
fn solve_finds_the_first_solution_of_the_empty_grid() {
    let mut sudoku = standard(&[0; 81]);
    assert_eq!(sudoku.solve(), SolveResult::Solved);
    assert_eq!(sudoku.get_grid()[..], FIRST_SOLUTION[..]);
}

#[test]
fn solve_keeps_a_solved_grid() {
    let mut sudoku = standard(&FIRST_SOLUTION);
    assert!(sudoku.is_solved());
    assert_eq!(sudoku.solve(), SolveResult::Solved);
    assert_eq!(sudoku.get_grid()[..], FIRST_SOLUTION[..]);
}

#[test]
fn play_never_writes_a_given_cell() {
    let mut sudoku = standard(&PUZZLE);
    for value in 0..=9u8 {
        assert_eq!(sudoku.play(8, value), PlayResult::InvalidMove);
        assert_eq!(sudoku.play(40, value), PlayResult::InvalidMove);
        assert_eq!(sudoku.get_grid()[..], PUZZLE[..]);
    }
    assert_eq!(sudoku.play(8, 10), PlayResult::InvalidInput);
    assert_eq!(sudoku.get_grid()[..], PUZZLE[..]);
}

#[test]
fn play_with_zero_clears_a_mutable_cell() {
    let mut sudoku = standard(&PUZZLE);
    assert_eq!(sudoku.play(0, 2), PlayResult::Accepted);
    assert_eq!(sudoku.get_grid()[0], 2);
    assert_eq!(sudoku.play(0, 0), PlayResult::Accepted);
    assert_eq!(sudoku.get_grid()[..], PUZZLE[..]);
    assert_eq!(sudoku.play(0, 0), PlayResult::Accepted);
    assert_eq!(sudoku.get_grid()[..], PUZZLE[..]);
}

#[test]
fn play_rejects_input_outside_the_grid() {
    let mut sudoku = standard(&PUZZLE);
    assert_eq!(sudoku.play(81, 1), PlayResult::InvalidInput);
    assert_eq!(sudoku.play(usize::MAX, 0), PlayResult::InvalidInput);
    assert_eq!(sudoku.play(0, 10), PlayResult::InvalidInput);
    assert_eq!(sudoku.play(0, 255), PlayResult::InvalidInput);
    assert_eq!(sudoku.play(80, 9), PlayResult::InvalidMove);
    assert_eq!(sudoku.play(80, 4), PlayResult::Accepted);
    assert_eq!(sudoku.play(80, 4), PlayResult::InvalidMove);
    assert_eq!(sudoku.get_grid()[80], 4);
}

#[test]
fn play_changes_one_cell() {
    let mut sudoku = standard(&PUZZLE);
    assert_eq!(sudoku.play(1, 4), PlayResult::Accepted);
    let mut expected = PUZZLE;
    expected[1] = 4;
    assert_eq!(sudoku.get_grid()[..], expected[..]);
    assert_eq!(sudoku.play(0, 4), PlayResult::InvalidMove);
    assert_eq!(sudoku.get_grid()[..], expected[..]);
}

#[test]
fn reset_undoes_every_move() {
    let mut sudoku = standard(&PUZZLE);
    let moves = [(0usize, 4u8), (1, 2), (0, 0), (80, 4), (8, 1), (3, 9), (200, 1), (4, 10)];
    for (i, value) in moves {
        sudoku.play(i, value);
    }
    assert_ne!(sudoku.get_grid()[..], PUZZLE[..]);
    sudoku.reset();
    assert_eq!(sudoku.get_grid()[..], PUZZLE[..]);
    assert_eq!(given_cells(&sudoku), given_cells(&standard(&PUZZLE)));
}

#[test]
fn reset_undoes_solve() {
    let mut sudoku = standard(&PUZZLE);
    assert_eq!(sudoku.solve(), SolveResult::Solved);
    sudoku.reset();
    assert_eq!(sudoku.get_grid()[..], PUZZLE[..]);
}

#[test]
fn candidates_are_the_digits_not_in_row_column_or_block() {
    let sudoku = standard(&PUZZLE);
    let used = sudoku.get_intersecting_values(0);
    let free = sudoku.get_possible_values(0);
    assert_eq!(free, vec![2, 4, 8]);
    for digit in 1..=9u8 {
        assert_eq!(used.contains(&digit), !free.contains(&digit));
    }
    let empty = standard(&[0; 81]);
    assert!(empty.get_intersecting_values(40).is_empty());
    assert_eq!(empty.get_possible_values(40), vec![1, 2, 3, 4, 5, 6, 7, 8, 9]);
    let full = standard(&FIRST_SOLUTION);
    assert_eq!(full.get_possible_values(40), Vec::<u8>::new());
}

#[test]
fn lookups_of_a_corner_block() {
    let sudoku = standard(&PUZZLE);
    let mut cells: Vec<(usize, u8)> = sudoku.get_block_entries(80).into_iter().collect();
    cells.sort();
    assert_eq!(cells, vec![(61, 2), (62, 5), (70, 1), (71, 9), (78, 8)]);
    let mut cells: Vec<(usize, u8)> = sudoku.get_block_entries(0).into_iter().collect();
    cells.sort();
    assert_eq!(cells, vec![(9, 7), (10, 6), (11, 3), (18, 1), (20, 5)]);
}

#[test]
fn cell_at_reads_by_row_and_column() {
    let sudoku = standard(&PUZZLE);
    assert_eq!(sudoku.cell_at(0, 8), Some(7));
    assert_eq!(sudoku.cell_at(1, 0), Some(7));
    assert_eq!(sudoku.cell_at(8, 1), Some(1));
    assert_eq!(sudoku.cell_at(0, 0), None);
    assert_eq!(sudoku.cell_at(8, 8), None);
    for row in 0..9 {
        for col in 0..9 {
            let value = PUZZLE[row * 9 + col];
            assert_eq!(sudoku.cell_at(row, col), if value == 0 { None } else { Some(value) });
        }
    }
}

#[test]
fn layout_gives_its_filled_cells() {
    let sudoku = standard(&PUZZLE);
    for i in 0..81 {
        assert_eq!(sudoku.is_given(i), PUZZLE[i] != 0);
    }
    assert!(!sudoku.is_given(81));
    assert!(sudoku.is_mutable_cell(81));
}

#[test]
fn layout_is_refused_when_it_is_no_grid() {
    assert!(Sudoku::from_layout(0, 0, vec![], 1).is_none());
    assert!(Sudoku::from_layout(9, 0, vec![0; 81], 1).is_none());
    assert!(Sudoku::from_layout(9, 2, vec![0; 81], 1).is_none());
    assert!(Sudoku::from_layout(3, 9, vec![0; 9], 1).is_none());
    assert!(Sudoku::from_layout(256, 16, vec![0; 65536], 1).is_none());
    assert!(Sudoku::from_layout(9, 3, vec![0; 80], 1).is_none());
    assert!(Sudoku::from_layout(9, 3, vec![0; 82], 1).is_none());
    assert!(Sudoku::from_layout(9, 3, vec![0; 81], 1).is_some());
    assert!(Sudoku::from_layout(9, 9, vec![0; 81], 1).is_some());
    assert!(Sudoku::from_layout(1, 1, vec![1], 1).is_some());
}

#[test]
fn layout_is_refused_when_it_breaks_the_rules() {
    let mut too_large = [0u8; 81];
    too_large[5] = 10;
    assert!(Sudoku::from_layout(9, 3, too_large.to_vec(), 1).is_none());

    let mut row = [0u8; 81];
    row[0] = 5;
    row[8] = 5;
    assert!(Sudoku::from_layout(9, 3, row.to_vec(), 1).is_none());

    let mut column = [0u8; 81];
    column[4] = 5;
    column[76] = 5;
    assert!(Sudoku::from_layout(9, 3, column.to_vec(), 1).is_none());

    let mut block = [0u8; 81];
    block[30] = 5;
    block[50] = 5;
    assert!(Sudoku::from_layout(9, 3, block.to_vec(), 1).is_none());

    let mut apart = [0u8; 81];
    apart[0] = 5;
    apart[40] = 5;
    assert!(Sudoku::from_layout(9, 3, apart.to_vec(), 1).is_some());
}

#[test]
fn small_grid_is_solved_in_its_own_digits() {
    let layout = vec![
        1, 0, 0, 0, //
        0, 0, 3, 0, //
        0, 4, 0, 0, //
        0, 0, 0, 2, //
    ];
    let mut sudoku = Sudoku::from_layout(4, 2, layout.clone(), 0).unwrap();
    assert_eq!(sudoku.grid_span(), 4);
    assert_eq!(sudoku.block_span(), 2);
    assert_eq!(sudoku.get_possible_values(1), vec![2, 3]);
    assert_eq!(sudoku.get_possible_values(5), vec![2]);
    assert_eq!(sudoku.play(1, 5), PlayResult::InvalidInput);
    assert_eq!(sudoku.play(16, 1), PlayResult::InvalidInput);
    assert_eq!(sudoku.play(1, 4), PlayResult::InvalidMove);
    assert_eq!(sudoku.solve(), SolveResult::Solved);
    assert!(is_solution(sudoku.get_grid(), 4, 2));
    for i in 0..16 {
        if layout[i] != 0 {
            assert_eq!(sudoku.get_grid()[i], layout[i]);
        }
    }
}

#[test]
fn small_grid_without_a_solution() {
    let layout = vec![
        1, 2, 3, 0, //
        0, 0, 0, 4, //
        0, 0, 0, 0, //
        0, 0, 0, 0, //
    ];
    let mut sudoku = Sudoku::from_layout(4, 2, layout.clone(), 0).unwrap();
    assert_eq!(sudoku.get_possible_values(3), Vec::<u8>::new());
    assert_eq!(sudoku.solve(), SolveResult::Unsolvable);
    assert_eq!(sudoku.get_grid(), &layout);
}

#[test]
fn try_candidates_takes_the_first_digit_that_fits() {
    let mut solved = standard(&PUZZLE);
    assert_eq!(solved.solve(), SolveResult::Solved);
    let digit = solved.get_grid()[0];
    assert!([2u8, 4, 8].contains(&digit));

    let mut sudoku = standard(&PUZZLE);
    assert_eq!(
        sudoku.try_candidates(0, vec![8, 4, 2], SolveStrategy::Ordered),
        SolveResult::Solved
    );
    assert!(is_solution(sudoku.get_grid(), 9, 3));
    let found = sudoku.get_grid()[0];

    let mut other = standard(&PUZZLE);
    assert_eq!(other.try_candidates(0, vec![found], SolveStrategy::Ordered), SolveResult::Solved);
    assert_eq!(other.get_grid(), sudoku.get_grid());

    let mut none = standard(&PUZZLE);
    assert_eq!(none.try_candidates(0, vec![], SolveStrategy::Ordered), SolveResult::Unsolvable);
    assert_eq!(none.get_grid()[..], PUZZLE[..]);
}

#[test]
fn try_candidates_follows_the_order_it_is_given() {
    let mut ascending = standard(&[0; 81]);
    assert_eq!(
        ascending.try_candidates(0, vec![9, 1], SolveStrategy::Ordered),
        SolveResult::Solved
    );
    assert_eq!(ascending.get_grid()[0], 9);
    assert_eq!(ascending.get_grid()[1..4], [1, 2, 3]);
    assert!(is_solution(ascending.get_grid(), 9, 3));
}

#[test]
fn fill_starts_at_the_cell_it_is_given() {
    let mut sudoku = standard(&PUZZLE);
    assert_eq!(sudoku.fill(81, SolveStrategy::Ordered), SolveResult::Solved);
    assert_eq!(sudoku.get_grid()[..], PUZZLE[..]);

    let mut full = standard(&PUZZLE);
    assert_eq!(full.fill(0, SolveStrategy::Ordered), SolveResult::Solved);
    let mut same = standard(&PUZZLE);
    assert_eq!(same.solve(), SolveResult::Solved);
    assert_eq!(full.get_grid(), same.get_grid());
}

#[test]
fn shuffled_fill_finds_some_solution() {
    let mut sudoku = standard(&PUZZLE);
    assert_eq!(sudoku.fill(0, SolveStrategy::Random), SolveResult::Solved);
    assert!(is_solution(sudoku.get_grid(), 9, 3));
    for i in 0..81 {
        if PUZZLE[i] != 0 {
            assert_eq!(sudoku.get_grid()[i], PUZZLE[i]);
        }
    }
    let mut dead_end = standard(&DEAD_END);
    assert_eq!(dead_end.fill(0, SolveStrategy::Random), SolveResult::Unsolvable);
    assert_eq!(dead_end.get_grid()[..], DEAD_END[..]);
}

#[test]
fn give_cells_keeps_the_listed_cells_only() {
    let mut sudoku = standard(&[0; 81]);
    assert_eq!(sudoku.solve(), SolveResult::Solved);
    sudoku.give_cells(&vec![0, 40, 80, 40]);
    assert_eq!(given_cells(&sudoku), vec![0, 40, 80]);
    for i in 0..81 {
        let kept = i == 0 || i == 40 || i == 80;
        assert_eq!(sudoku.get_grid()[i], if kept { FIRST_SOLUTION[i] } else { 0 });
    }
    assert_eq!(sudoku.play(40, 0), PlayResult::InvalidMove);

    let mut puzzle = standard(&PUZZLE);
    puzzle.give_cells(&vec![]);
    assert_eq!(puzzle.get_grid()[..], PUZZLE[..]);
}
