//! The standard grid: nine rows of nine cells in blocks of three by three.

use crate::board::Board;
use crate::geometry::intersecting;
use vstd::prelude::*;

verus! {

/// The cells in a row of the standard grid.
pub const STD_GRID_SPAN: usize = 9;

/// The cells in a row of a block of the standard grid.
pub const STD_BLOCK_SPAN: usize = 3;

/// The cells of the standard grid.
pub const STD_GRID_AREA: usize = 81;

impl Board {
    /// The standard grid with every cell empty and none given.
    pub open spec fn standard_empty() -> Board {
        Board {
            grid_span: STD_GRID_SPAN,
            block_span: STD_BLOCK_SPAN,
            cells: Seq::new(STD_GRID_AREA as nat, |i: int| 0u8),
            givens: Set::empty(),
        }
    }
}

/// The digit of cell `i` in a grid whose rows are shifts of the first: by
/// three from one row to the next in a band, by one from band to band.
pub open spec fn shifted_digit(i: int) -> u8 {
    ((((i / 9) % 3) * 3 + (i / 9) / 3 + i % 9) % 9 + 1) as u8
}

/// Two cells of the shifted grid that share a row, a column or a block hold
/// different digits.
proof fn lemma_shifted_digits_differ(i: int, j: int)
    requires
        0 <= i < 81,
        0 <= j < 81,
        i != j,
        intersecting(9, 3, i, j),
    ensures
        shifted_digit(i) != shifted_digit(j),
{
}

/// The empty standard grid is well formed and has a solution.
pub proof fn lemma_standard_solvable()
    ensures
        Board::standard_empty().well_formed(),
        Board::standard_empty().solvable(),
{
    let empty = Board::standard_empty();
    let full = Seq::new(81, |i: int| shifted_digit(i));
    let done = empty.with_cells(full);
    assert forall|i: int, j: int|
        done.in_grid(i) && #[trigger] done.intersects(i, j) && i != j && done.cells[i]
            != 0 implies done.cells[i] != done.cells[j] by {
        lemma_shifted_digits_differ(i, j);
    }
    assert(empty.solved_by(full));
}

} // verus!
