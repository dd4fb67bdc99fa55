//! Making a puzzle: from a layout that is handed in, or by generation.

use crate::board::Board;
use crate::generator::seed_generator;
use crate::generator::seeded;
use crate::generator::shuffle;
use crate::generator::shuffle_outcome;
use crate::geometry::lemma_area_fits;
use crate::geometry::valid_spans;
use crate::puzzle::PlayResult;
use crate::puzzle::SolveStrategy;
use crate::puzzle::Sudoku;
use crate::search::search;
use crate::standard::lemma_standard_solvable;
use crate::standard::STD_BLOCK_SPAN;
use crate::standard::STD_GRID_AREA;
use crate::standard::STD_GRID_SPAN;
use rand::rngs::StdRng;
use std::collections::HashSet;
use vstd::prelude::*;

verus! {

broadcast use vstd::std_specs::hash::group_hash_axioms;

impl Board {
    /// The board that holds `cells` and gives every filled cell.
    pub open spec fn laid_out(grid_span: usize, block_span: usize, cells: Seq<u8>) -> Board {
        Board {
            grid_span,
            block_span,
            cells,
            givens: Set::new(|g: usize| g < cells.len() && cells[g as int] != 0),
        }
    }

    /// The cells of the standard grid in row-major order, as bytes.
    pub open spec fn standard_indices() -> Seq<u8> {
        Seq::new(STD_GRID_AREA as nat, |i: int| i as u8)
    }

    /// The generator that generation from `seed` leaves in the puzzle.
    pub open spec fn generator_left(seed: u64) -> StdRng {
        let filled = search(Board::standard_empty(), seeded(seed), 0, true);
        shuffle_outcome(filled.rng, Board::standard_indices()).0
    }

    /// The puzzle that generation makes from `seed` with `clues` given cells:
    /// a shuffled search fills the empty standard grid, the generator then
    /// shuffles the cell indices, the first `clues` of them are given, and
    /// the other cells are emptied.
    pub open spec fn generated(seed: u64, clues: int) -> Board {
        let filled = search(Board::standard_empty(), seeded(seed), 0, true);
        let drawn = shuffle_outcome(filled.rng, Board::standard_indices()).1;
        Board {
            grid_span: STD_GRID_SPAN,
            block_span: STD_BLOCK_SPAN,
            cells: filled.cells,
            givens: Set::new(|g: usize| exists|k: int| 0 <= k < clues && #[trigger] drawn[k] == g),
        }.cleared()
    }
}

impl Sudoku {
    /// A puzzle that holds `values` row by row, 0 for an empty cell, and
    /// gives every filled cell. There is none when the spans do not describe
    /// a grid, when `values` has another length than the grid, holds a value
    /// above the span, or repeats a digit in a row, a column or a block.
    pub fn from_layout(grid_span: usize, block_span: usize, values: Vec<u8>, seed: u64) -> (made:
        Option<Sudoku>)
        ensures
            made is Some <==> Board::laid_out(grid_span, block_span, values@).well_formed(),
            made matches Some(sudoku) ==> sudoku@ == Board::laid_out(
                grid_span,
                block_span,
                values@,
            ) && sudoku.generator() == seeded(seed),
    {
        let ghost target = Board::laid_out(grid_span, block_span, values@);
        if block_span == 0 || block_span > grid_span || grid_span > 255 || grid_span % block_span
            != 0 {
            return None;
        }
        proof {
            lemma_area_fits(grid_span as int);
        }
        let area = grid_span * grid_span;
        if values.len() != area {
            return None;
        }
        let mut sudoku = Sudoku {
            grid_span,
            block_span,
            grid: vec![0u8; area],
            initial_cells: HashSet::new(),
            rng: seed_generator(seed),
        };
        let mut i: usize = 0;
        while i < area
            invariant
                target == Board::laid_out(grid_span, block_span, values@),
                valid_spans(grid_span as int, block_span as int),
                area == grid_span * grid_span,
                values@.len() == area,
                sudoku@.well_formed(),
                sudoku@.grid_span == grid_span,
                sudoku@.block_span == block_span,
                sudoku.rng == seeded(seed),
                i <= area,
                forall|j: int| 0 <= j < i ==> #[trigger] sudoku@.cells[j] == values@[j],
                forall|j: int| i <= j < area ==> #[trigger] sudoku@.cells[j] == 0,
                forall|g: usize|
                    #[trigger] sudoku@.givens.contains(g) <==> g < i && values@[g as int] != 0,
            decreases area - i,
        {
            let value = values[i];
            if value != 0 {
                let ghost partial = sudoku@;
                match sudoku.play(i, value) {
                    PlayResult::Accepted => {},
                    PlayResult::InvalidMove => {
                        proof {
                            let j = choose|j: int| #[trigger]
                                partial.intersects(i as int, j) && partial.cells[j] == value;
                            assert(target.intersects(i as int, j));
                            assert(target.cells[j] == target.cells[i as int]);
                        }
                        return None;
                    },
                    PlayResult::InvalidInput => {
                        proof {
                            assert(target.cells[i as int] > target.grid_span);
                        }
                        return None;
                    },
                }
                let ghost played = sudoku@;
                sudoku.initial_cells.insert(i);
                proof {
                    played.lemma_with_givens(played.givens.insert(i));
                    assert(sudoku@ == played.with_givens(played.givens.insert(i)));
                }
            }
            i += 1;
        }
        proof {
            assert(sudoku@.cells =~= values@);
            assert(sudoku@.givens =~= target.givens);
        }
        Some(sudoku)
    }

    /// Gives the cells listed in `cells`, besides those that are given
    /// already, and empties every other cell.
    pub fn give_cells(&mut self, cells: &Vec<usize>)
        requires
            old(self)@.well_formed(),
            forall|k: int| 0 <= k < cells@.len() ==> #[trigger] cells@[k] < old(self)@.area(),
        ensures
            final(self)@.well_formed(),
            final(self).generator() == old(self).generator(),
            final(self)@ == old(self)@.with_givens(
                old(self)@.givens.union(cells@.to_set()),
            ).cleared(),
    {
        proof {
            assert(old(self)@.givens.union(cells@.take(0).to_set()) =~= old(self)@.givens);
        }
        let mut k: usize = 0;
        while k < cells.len()
            invariant
                k <= cells@.len(),
                forall|m: int| 0 <= m < cells@.len() ==> #[trigger] cells@[m] < old(self)@.area(),
                self@.well_formed(),
                self.rng == old(self).rng,
                self@ == old(self)@.with_givens(
                    old(self)@.givens.union(cells@.take(k as int).to_set()),
                ),
            decreases cells.len() - k,
        {
            let ghost before = self@;
            self.initial_cells.insert(cells[k]);
            proof {
                let added = before.givens.insert(cells@[k as int]);
                assert(cells@.take(k + 1) =~= cells@.take(k as int).push(cells@[k as int]));
                assert(added =~= old(self)@.givens.union(cells@.take(k + 1).to_set())) by {
                    assert forall|g: usize|
                        cells@.take(k + 1).to_set().contains(g) <==> cells@.take(
                            k as int,
                        ).to_set().contains(g) || g == cells@[k as int] by {
                        if cells@.take(k as int).contains(g) {
                            let m = choose|m: int|
                                0 <= m < k && cells@.take(k as int)[m] == g;
                            assert(cells@.take(k + 1)[m] == g);
                        }
                        if g == cells@[k as int] {
                            assert(cells@.take(k + 1)[k as int] == g);
                        }
                    }
                }
                before.lemma_with_givens(added);
                assert(self@ == before.with_givens(added));
            }
            k += 1;
        }
        proof {
            assert(cells@.take(cells@.len() as int) =~= cells@);
        }
        self.reset();
    }

    /// A standard puzzle with `clues` given cells, made from `seed` alone:
    /// the given cells hold the digits of a solution and the other cells are
    /// empty.
    pub fn random(seed: u64, clues: usize) -> (made: Sudoku)
        requires
            clues <= STD_GRID_AREA,
        ensures
            made@ == Board::generated(seed, clues as int),
            made.generator() == Board::generator_left(seed),
            made@.well_formed(),
            made@.grid_span == STD_GRID_SPAN,
            made@.block_span == STD_BLOCK_SPAN,
            made@.givens.len() == clues,
            exists|full: Seq<u8>| #[trigger] made@.shows_givens_of(full),
    {
        let mut sudoku = Sudoku {
            grid_span: STD_GRID_SPAN,
            block_span: STD_BLOCK_SPAN,
            grid: vec![0u8; STD_GRID_AREA],
            initial_cells: HashSet::with_capacity(clues),
            rng: seed_generator(seed),
        };
        proof {
            lemma_standard_solvable();
            assert(sudoku@.cells =~= Board::standard_empty().cells);
            assert(sudoku@ == Board::standard_empty());
            let full = choose|full: Seq<u8>| Board::standard_empty().solved_by(full);
            assert(sudoku@.completed_by(full, 0));
        }
        sudoku.fill(0, SolveStrategy::Random);
        let ghost solution = sudoku@.cells;
        let mut order: Vec<u8> = Vec::new();
        let mut cell: u8 = 0;
        while (cell as usize) < STD_GRID_AREA
            invariant
                cell <= STD_GRID_AREA,
                order@.len() == cell,
                forall|j: int| 0 <= j < cell ==> #[trigger] order@[j] == j,
            decreases STD_GRID_AREA - cell,
        {
            order.push(cell);
            cell += 1;
        }
        let ghost indices = order@;
        shuffle(&mut sudoku.rng, &mut order);
        proof {
            assert(indices =~= Board::standard_indices());
            indices.to_multiset_ensures();
            order@.to_multiset_ensures();
            assert(indices.no_duplicates());
            indices.lemma_multiset_has_no_duplicates();
            order@.lemma_multiset_has_no_duplicates_conv();
            assert forall|k: int| 0 <= k < order@.len() implies #[trigger] order@[k] < 81 by {
                assert(order@.contains(order@[k]));
                assert(indices.to_multiset().count(order@[k]) > 0);
                assert(indices.contains(order@[k]));
            }
        }
        let mut drawn: Vec<usize> = Vec::with_capacity(clues);
        let mut k: usize = 0;
        while k < clues
            invariant
                k <= clues <= STD_GRID_AREA,
                order@.len() == STD_GRID_AREA,
                forall|m: int| 0 <= m < order@.len() ==> #[trigger] order@[m] < 81,
                drawn@.len() == k,
                forall|m: int| 0 <= m < k ==> #[trigger] drawn@[m] == order@[m],
            decreases clues - k,
        {
            drawn.push(order[k] as usize);
            k += 1;
        }
        let ghost filled = sudoku@;
        proof {
            assert(filled.area() == 81) by (nonlinear_arith)
                requires
                    filled.area() == filled.grid_span * filled.grid_span,
                    filled.grid_span == 9,
            ;
            assert forall|m: int, n: int| 0 <= m < n < drawn@.len() implies drawn@[m]
                != drawn@[n] by {
                assert(order@[m] != order@[n]);
            }
            drawn@.unique_seq_to_set();
        }
        sudoku.give_cells(&drawn);
        proof {
            let givens = Set::new(
                |g: usize| exists|m: int| 0 <= m < clues && #[trigger] order@[m] == g,
            );
            assert forall|g: usize| drawn@.to_set().contains(g) implies givens.contains(g) by {
                let m = choose|m: int| 0 <= m < drawn@.len() && drawn@[m] == g;
                assert(order@[m] == g);
            }
            assert forall|g: usize| givens.contains(g) implies drawn@.to_set().contains(g) by {
                let m = choose|m: int| 0 <= m < clues && #[trigger] order@[m] == g;
                assert(drawn@[m] == g);
            }
            assert(sudoku@.givens =~= drawn@.to_set());
            assert(sudoku@.givens =~= givens);
            assert(sudoku@.with_cells(solution) == filled.with_givens(givens));
            filled.lemma_with_givens(givens);
            assert(sudoku@.shows_givens_of(solution));
        }
        sudoku
    }
}

} // verus!
