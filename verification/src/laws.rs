//! Laws that relate the operations of a puzzle to one another.

use crate::board::Board;
use crate::geometry::lemma_area_fits;
use vstd::prelude::*;

verus! {

impl Board {
    /// The board after `play` has been called with each of `moves` in turn,
    /// a move being a cell index and a value.
    pub open spec fn after_moves(self, moves: Seq<(usize, u8)>) -> Board
        decreases moves.len(),
    {
        if moves.len() == 0 {
            self
        } else {
            self.after_moves(moves.drop_last()).after_play(
                moves.last().0 as int,
                moves.last().1,
            )
        }
    }
}

/// Resetting a puzzle after any moves empties every cell that is not given
/// and leaves every given cell as it was before the moves: the moves leave
/// no trace.
pub proof fn lemma_reset_after_moves(board: Board, moves: Seq<(usize, u8)>)
    requires
        board.well_formed(),
    ensures
        board.after_moves(moves).well_formed(),
        board.after_moves(moves).givens == board.givens,
        board.after_moves(moves).cleared() == board.cleared(),
        forall|i: int|
            board.in_grid(i) ==> #[trigger] board.after_moves(moves).cleared().cells[i]
                == if board.givens.contains(i as usize) {
                board.cells[i]
            } else {
                0u8
            },
    decreases moves.len(),
{
    if moves.len() > 0 {
        let before = board.after_moves(moves.drop_last());
        let after = board.after_moves(moves);
        let i = moves.last().0 as int;
        let value = moves.last().1;
        lemma_reset_after_moves(board, moves.drop_last());
        if after != before {
            before.lemma_with_cell(i, value);
            lemma_area_fits(before.span());
            assert(after.cleared().cells =~= before.cleared().cells);
        }
    }
}

/// Generation is a function of its arguments: two puzzles generated from
/// the same seed with the same number of clues are the same.
pub proof fn lemma_generation_repeats(first: Board, second: Board, seed: u64, clues: usize)
    requires
        first == Board::generated(seed, clues as int),
        second == Board::generated(seed, clues as int),
    ensures
        first == second,
{
}

} // verus!
