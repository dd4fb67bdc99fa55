//! Interactive play: checking a move, making it, and going back to the
//! puzzle as it was given.

use crate::geometry::lemma_area_fits;
use crate::puzzle::PlayResult;
use crate::puzzle::Sudoku;
use vstd::prelude::*;

verus! {

broadcast use vstd::std_specs::hash::group_hash_axioms;

impl Sudoku {
    /// Whether `value` may be written to cell `i`: the cell is not given, and
    /// the value is 0 or a digit that no intersecting cell holds.
    pub fn is_valid_move(&self, i: usize, value: u8) -> (valid: bool)
        requires
            self@.well_formed(),
            value != 0 ==> i < self@.area(),
        ensures
            valid == (!self@.givens.contains(i) && (value == 0 || !self@.used_values(
                i as int,
            ).contains(value))),
    {
        if self.initial_cells.contains(&i) {
            return false;
        }
        if value == 0 {
            return true;
        }
        !self.get_intersecting_values(i).contains(&value)
    }

    /// Writes `value` to cell `i`, or empties the cell when `value` is 0. An
    /// index outside the grid or a value above the span is invalid input; a
    /// given cell, or a digit that an intersecting cell holds, is an invalid
    /// move. Only an accepted move changes the grid, and it changes one cell.
    pub fn play(&mut self, i: usize, value: u8) -> (result: PlayResult)
        requires
            old(self)@.well_formed(),
        ensures
            final(self)@.well_formed(),
            final(self).generator() == old(self).generator(),
            result == old(self)@.verdict(i as int, value),
            final(self)@ == old(self)@.after_play(i as int, value),
            old(self)@.in_grid(i as int) && value <= old(self)@.grid_span && old(
                self,
            )@.givens.contains(i) ==> result == PlayResult::InvalidMove && final(self)@ == old(
                self,
            )@,
            old(self)@.in_grid(i as int) && value == 0 && !old(self)@.givens.contains(i) ==> result
                == PlayResult::Accepted && final(self)@ == old(self)@.with_cell(i as int, 0),
    {
        proof {
            lemma_area_fits(self@.span());
        }
        if i >= self.grid_span * self.grid_span || value as usize > self.grid_span {
            return PlayResult::InvalidInput;
        }
        if !self.is_valid_move(i, value) {
            return PlayResult::InvalidMove;
        }
        proof {
            self@.lemma_with_cell(i as int, value);
        }
        self.grid.set(i, value);
        PlayResult::Accepted
    }

    /// Empties every cell that is not given.
    pub fn reset(&mut self)
        requires
            old(self)@.well_formed(),
        ensures
            final(self)@.well_formed(),
            final(self).generator() == old(self).generator(),
            final(self)@ == old(self)@.cleared(),
    {
        let mut i: usize = 0;
        while i < self.grid.len()
            invariant
                self@.well_formed(),
                self.rng == old(self).rng,
                self@ == old(self)@.with_cells(self@.cells),
                i <= self.grid@.len() == old(self)@.cells.len(),
                forall|j: int|
                    0 <= j < i ==> #[trigger] self@.cells[j] == old(self)@.cleared().cells[j],
                forall|j: int|
                    i <= j < self.grid@.len() ==> #[trigger] self@.cells[j] == old(self)@.cells[j],
            decreases self.grid@.len() - i,
        {
            if !self.initial_cells.contains(&i) {
                proof {
                    self@.lemma_with_cell(i as int, 0);
                }
                self.grid.set(i, 0);
            }
            assert(self@.cells[i as int] == old(self)@.cleared().cells[i as int]);
            i += 1;
        }
        assert(self@.cells =~= old(self)@.cleared().cells);
    }
}

} // verus!
