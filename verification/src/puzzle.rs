//! The puzzle itself: the grid store and its read access.

use crate::board::Board;
use crate::geometry::lemma_area_fits;
use crate::geometry::lemma_index;
use rand::rngs::StdRng;
use std::collections::HashSet;
use vstd::prelude::*;

verus! {

broadcast use vstd::std_specs::hash::group_hash_axioms;

/// How a search for a solution ended.
#[derive(Clone, Copy, PartialEq, Eq, Debug, Structural)]
pub enum SolveResult {
    Solved,
    Unsolvable,
}

/// How a move was received.
#[derive(Clone, Copy, PartialEq, Eq, Debug, Structural)]
pub enum PlayResult {
    Accepted,
    InvalidMove,
    InvalidInput,
}

/// The order in which a search tries the digits of a cell: as the puzzle's
/// generator shuffles them, or ascending.
#[derive(Clone, Copy, PartialEq, Eq, Debug, Structural)]
pub enum SolveStrategy {
    Random,
    Ordered,
}

/// A grid of `grid_span` by `grid_span` cells in blocks of `block_span` by
/// `block_span`, the cells that are given, and the generator that the grid
/// draws from.
pub struct Sudoku {
    pub(crate) grid_span: usize,
    pub(crate) block_span: usize,
    pub(crate) grid: Vec<u8>,
    pub(crate) initial_cells: HashSet<usize>,
    pub(crate) rng: StdRng,
}

impl View for Sudoku {
    type V = Board;

    open(crate) spec fn view(&self) -> Board {
        Board {
            grid_span: self.grid_span,
            block_span: self.block_span,
            cells: self.grid@,
            givens: self.initial_cells@,
        }
    }
}

impl Sudoku {
    /// The state of the generator that this puzzle owns.
    pub open(crate) spec fn generator(&self) -> StdRng {
        self.rng
    }

    /// The number of cells in a row.
    pub fn grid_span(&self) -> (n: usize)
        ensures
            n == self@.grid_span,
    {
        self.grid_span
    }

    /// The number of cells in a row of a block.
    pub fn block_span(&self) -> (b: usize)
        ensures
            b == self@.block_span,
    {
        self.block_span
    }

    /// The cells, row by row, 0 for an empty one.
    pub fn get_grid(&self) -> (cells: &Vec<u8>)
        ensures
            cells@ == self@.cells,
    {
        &self.grid
    }

    /// The digit at `row` and `col`, if the cell holds one.
    pub fn cell_at(&self, row: usize, col: usize) -> (digit: Option<u8>)
        requires
            self@.well_formed(),
            row < self@.grid_span,
            col < self@.grid_span,
        ensures
            digit == if self@.cells[row * self@.grid_span + col] == 0 {
                None
            } else {
                Some(self@.cells[row * self@.grid_span + col])
            },
    {
        proof {
            lemma_area_fits(self@.span());
            lemma_index(self@.span(), row as int, col as int);
        }
        let value = self.grid[row * self.grid_span + col];
        if value == 0 {
            None
        } else {
            Some(value)
        }
    }

    /// Whether cell `i` was fixed when the puzzle was made.
    pub fn is_given(&self, i: usize) -> (given: bool)
        ensures
            given == self@.givens.contains(i),
    {
        self.initial_cells.contains(&i)
    }

    /// Whether play may write cell `i`.
    pub fn is_mutable_cell(&self, i: usize) -> (mutable: bool)
        ensures
            mutable == !self@.givens.contains(i),
    {
        !self.initial_cells.contains(&i)
    }

    /// Whether no cell is empty.
    pub fn is_solved(&self) -> (solved: bool)
        requires
            self@.well_formed(),
        ensures
            solved == self@.is_full(),
    {
        let mut i: usize = 0;
        while i < self.grid.len()
            invariant
                0 <= i <= self.grid@.len(),
                self.grid@.len() == self@.area(),
                forall|j: int| 0 <= j < i ==> #[trigger] self.grid@[j] != 0,
            decreases self.grid@.len() - i,
        {
            if self.grid[i] == 0 {
                assert(self@.in_grid(i as int) && self@.cells[i as int] == 0);
                return false;
            }
            i += 1;
        }
        true
    }
}

} // verus!
