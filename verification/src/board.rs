//! The mathematical model of a puzzle: what a grid holds, which digits
//! constrain a cell, and what it means to solve a grid.

use crate::geometry::intersecting;
use crate::geometry::same_block;
use crate::geometry::same_column;
use crate::geometry::same_row;
use crate::geometry::valid_spans;
use crate::puzzle::PlayResult;
use vstd::prelude::*;

verus! {

/// A grid as its users see it. Cell `row * grid_span + column` holds a digit
/// from 1 to `grid_span`, or 0 when it is empty. `givens` are the cells that
/// play may not overwrite.
pub struct Board {
    pub grid_span: usize,
    pub block_span: usize,
    pub cells: Seq<u8>,
    pub givens: Set<usize>,
}

impl Board {
    /// The cells in a row.
    pub open spec fn span(self) -> int {
        self.grid_span as int
    }

    /// The cells in the grid.
    pub open spec fn area(self) -> int {
        self.grid_span * self.grid_span
    }

    /// `i` is the index of a cell.
    pub open spec fn in_grid(self, i: int) -> bool {
        0 <= i < self.area()
    }

    /// Cell `j` lies in the grid and shares a row, a column or a block with
    /// cell `i`.
    pub open spec fn intersects(self, i: int, j: int) -> bool {
        self.in_grid(j) && intersecting(self.span(), self.block_span as int, i, j)
    }

    /// No digit occurs twice in a row, a column or a block.
    pub open spec fn consistent(self) -> bool {
        forall|i: int, j: int|
            self.in_grid(i) && #[trigger] self.intersects(i, j) && i != j && self.cells[i] != 0
                ==> self.cells[i] != self.cells[j]
    }

    /// The invariant of every puzzle.
    pub open spec fn well_formed(self) -> bool {
        &&& valid_spans(self.span(), self.block_span as int)
        &&& self.cells.len() == self.area()
        &&& forall|i: int| self.in_grid(i) ==> #[trigger] self.cells[i] <= self.grid_span
        &&& self.givens.finite()
        &&& forall|g: usize| #[trigger] self.givens.contains(g) ==> self.in_grid(g as int)
        &&& self.consistent()
    }

    /// The filled cells of the row of cell `i`, by index.
    pub open spec fn row_entries(self, i: int) -> Map<usize, u8> {
        Map::new(
            |j: usize|
                self.in_grid(j as int) && same_row(self.span(), i, j as int) && self.cells[j as int]
                    != 0,
            |j: usize| self.cells[j as int],
        )
    }

    /// The filled cells of the column of cell `i`, by index.
    pub open spec fn column_entries(self, i: int) -> Map<usize, u8> {
        Map::new(
            |j: usize|
                self.in_grid(j as int) && same_column(self.span(), i, j as int)
                    && self.cells[j as int] != 0,
            |j: usize| self.cells[j as int],
        )
    }

    /// The filled cells of the block of cell `i`, by index.
    pub open spec fn block_entries(self, i: int) -> Map<usize, u8> {
        Map::new(
            |j: usize|
                self.in_grid(j as int) && same_block(
                    self.span(),
                    self.block_span as int,
                    i,
                    j as int,
                ) && self.cells[j as int] != 0,
            |j: usize| self.cells[j as int],
        )
    }

    /// The digits that the row, the column and the block of cell `i` hold,
    /// the digit of cell `i` itself among them.
    pub open spec fn used_values(self, i: int) -> Set<u8> {
        Set::new(
            |v: u8| v != 0 && exists|j: int| #[trigger] self.intersects(i, j) && self.cells[j] == v,
        )
    }

    /// The digits from 1 to `d` that no cell intersecting `i` holds, ascending.
    pub open spec fn candidates_upto(self, i: int, d: int) -> Seq<u8>
        decreases d,
    {
        if d <= 0 {
            Seq::empty()
        } else if self.used_values(i).contains(d as u8) {
            self.candidates_upto(i, d - 1)
        } else {
            self.candidates_upto(i, d - 1).push(d as u8)
        }
    }

    /// The digits that cell `i` may still take, ascending.
    pub open spec fn candidates(self, i: int) -> Seq<u8> {
        self.candidates_upto(i, self.span())
    }

    /// No cell is empty.
    pub open spec fn is_full(self) -> bool {
        forall|i: int| self.in_grid(i) ==> #[trigger] self.cells[i] != 0
    }

    /// This board with `value` in cell `i`.
    pub open spec fn with_cell(self, i: int, value: u8) -> Board {
        Board { cells: self.cells.update(i, value), ..self }
    }

    /// This board with other cells.
    pub open spec fn with_cells(self, cells: Seq<u8>) -> Board {
        Board { cells, ..self }
    }

    /// This board with other given cells.
    pub open spec fn with_givens(self, givens: Set<usize>) -> Board {
        Board { givens, ..self }
    }

    /// This board with every cell that is not given emptied.
    pub open spec fn cleared(self) -> Board {
        Board {
            cells: Seq::new(
                self.cells.len(),
                |i: int|
                    if self.givens.contains(i as usize) {
                        self.cells[i]
                    } else {
                        0u8
                    },
            ),
            ..self
        }
    }

    /// `full` fills every cell from `from` on, keeps the cells before it and
    /// every filled cell, and repeats no digit in a row, a column or a block.
    pub open spec fn completed_by(self, full: Seq<u8>, from: int) -> bool {
        &&& self.with_cells(full).well_formed()
        &&& forall|i: int| self.in_grid(i) && i < from ==> #[trigger] full[i] == self.cells[i]
        &&& forall|i: int| self.in_grid(i) && self.cells[i] != 0 ==> #[trigger] full[i] == self.cells[i]
        &&& forall|i: int| self.in_grid(i) && from <= i ==> #[trigger] full[i] != 0
    }

    /// `full` is a solution of this board: a full grid without a repeated
    /// digit in any row, column or block, which keeps every filled cell.
    pub open spec fn solved_by(self, full: Seq<u8>) -> bool {
        self.completed_by(full, 0)
    }

    /// This board shows the given cells of its solution `full` and nothing
    /// else.
    pub open spec fn shows_givens_of(self, full: Seq<u8>) -> bool {
        self.solved_by(full) && self == self.with_cells(full).cleared()
    }

    /// Some solution exists.
    pub open spec fn solvable(self) -> bool {
        exists|full: Seq<u8>| self.solved_by(full)
    }

    /// What `play` answers to `value` for cell `i`.
    pub open spec fn verdict(self, i: int, value: u8) -> PlayResult {
        if !self.in_grid(i) || value > self.grid_span {
            PlayResult::InvalidInput
        } else if self.givens.contains(i as usize) || (value != 0 && self.used_values(i).contains(
            value,
        )) {
            PlayResult::InvalidMove
        } else {
            PlayResult::Accepted
        }
    }

    /// The board that `play` leaves.
    pub open spec fn after_play(self, i: int, value: u8) -> Board {
        if self.verdict(i, value) == PlayResult::Accepted {
            self.with_cell(i, value)
        } else {
            self
        }
    }
}

/// `a` comes before `b`, or is `b`, when both are read cell by cell.
pub open spec fn lex_le(a: Seq<u8>, b: Seq<u8>) -> bool {
    a == b || exists|p: int|
        0 <= p < a.len() && p < b.len() && a[p] < b[p] && a.subrange(0, p) == b.subrange(0, p)
}

} // verus!
