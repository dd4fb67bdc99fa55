//! The backtracking search on a puzzle.

use crate::board::lex_le;
use crate::board::Board;
use crate::generator::shuffle;
use crate::geometry::lemma_area_fits;
use crate::puzzle::SolveResult;
use crate::puzzle::SolveStrategy;
use crate::puzzle::Sudoku;
use crate::search::attempt;
use crate::search::search;
use crate::search::Outcome;
use vstd::prelude::*;

verus! {

/// A grid that agrees with `full` before cell `p` and holds a smaller digit
/// there comes before `full`.
proof fn lemma_lex_le_at(cells: Seq<u8>, full: Seq<u8>, p: int)
    requires
        0 <= p < cells.len(),
        p < full.len(),
        cells[p] < full[p],
        forall|j: int| 0 <= j < p ==> cells[j] == full[j],
    ensures
        lex_le(cells, full),
{
    assert(cells.subrange(0, p) =~= full.subrange(0, p));
}

impl Board {
    /// `digit` is the first of `order` with which the board can be completed
    /// past the empty cell `i`.
    pub open spec fn first_fit(self, i: int, order: Seq<u8>, digit: u8) -> bool {
        exists|k: int|
            0 <= k < order.len() && #[trigger] order[k] == digit && self.with_cell(
                i,
                digit,
            ).completable(i + 1) && forall|m: int|
                0 <= m < k ==> !self.with_cell(i, #[trigger] order[m]).completable(i + 1)
    }
}

impl Sudoku {
    /// Fills the empty cells from cell `i` on, if the grid can be completed
    /// from there, and else leaves the grid as it was. A filled cell is
    /// passed over; an empty cell takes the first of its candidates, in the
    /// order of `strategy`, that lets the cells after it be filled.
    pub fn fill(&mut self, i: usize, strategy: SolveStrategy) -> (result: SolveResult)
        requires
            old(self)@.well_formed(),
            i <= old(self)@.area(),
        ensures
            final(self)@.well_formed(),
            final(self)@ == old(self)@.with_cells(final(self)@.cells),
            (Outcome {
                solved: result == SolveResult::Solved,
                cells: final(self)@.cells,
                rng: final(self).generator(),
            }) == search(
                old(self)@,
                old(self).generator(),
                i as int,
                strategy == SolveStrategy::Random,
            ),
            result == SolveResult::Solved <==> old(self)@.completable(i as int),
            result == SolveResult::Solved ==> old(self)@.completed_by(final(self)@.cells, i as int),
            result == SolveResult::Unsolvable ==> final(self)@.cells == old(self)@.cells,
            strategy == SolveStrategy::Ordered ==> final(self).generator() == old(self).generator(),
            strategy == SolveStrategy::Ordered && result == SolveResult::Solved ==> old(
                self,
            )@.least_completion(final(self)@.cells, i as int),
        decreases old(self)@.area() - i, 1int,
    {
        let ghost start = self@;
        let ghost at = i as int;
        proof {
            lemma_area_fits(start.span());
        }
        if i >= self.grid.len() {
            proof {
                assert forall|full: Seq<u8>| #[trigger]
                    start.completed_by(full, at) implies lex_le(start.cells, full) by {
                    start.lemma_completed_at_end(full, at);
                }
                start.lemma_completed_at_end(start.cells, at);
            }
            return SolveResult::Solved;
        }
        if self.grid[i] != 0 {
            let result = self.fill(i + 1, strategy);
            proof {
                start.lemma_skip_filled(self@.cells, at);
                if start.completable(at) {
                    let full = choose|full: Seq<u8>| start.completed_by(full, at);
                    start.lemma_skip_filled(full, at);
                }
                assert forall|full: Seq<u8>| #[trigger]
                    start.completed_by(full, at) implies start.completed_by(full, at + 1) by {
                    start.lemma_skip_filled(full, at);
                }
            }
            return result;
        }
        let mut order = self.get_possible_values(i);
        proof {
            start.lemma_candidates(at);
        }
        match strategy {
            SolveStrategy::Random => {
                let ghost ascending = order@;
                shuffle(&mut self.rng, &mut order);
                proof {
                    ascending.to_multiset_ensures();
                    order@.to_multiset_ensures();
                    assert forall|v: u8| #[trigger] order@.contains(v) <==> ascending.contains(
                        v,
                    ) by {
                        assert(order@.to_multiset().count(v) == ascending.to_multiset().count(v));
                    }
                }
            },
            SolveStrategy::Ordered => {},
        }
        let ghost tried = order@;
        assert forall|v: u8| #[trigger] tried.contains(v) <==> start.candidates(at).contains(v) by {}
        let result = self.try_candidates(i, order, strategy);
        proof {
            let cells = self@.cells;
            if start.completable(at) {
                let full = choose|full: Seq<u8>| start.completed_by(full, at);
                start.lemma_completion_digit(full, at);
                assert(tried.contains(full[at]));
                let m = choose|m: int| 0 <= m < tried.len() && tried[m] == full[at];
                assert(start.with_cell(at, tried[m]).completable(at + 1));
            }
            if result == SolveResult::Solved && strategy == SolveStrategy::Ordered {
                let k = choose|k: int|
                    0 <= k < tried.len() && #[trigger] tried[k] == cells[at] && start.with_cell(
                        at,
                        cells[at],
                    ).completable(at + 1) && forall|m: int|
                        0 <= m < k ==> !start.with_cell(at, #[trigger] tried[m]).completable(
                            at + 1,
                        );
                assert forall|full: Seq<u8>| #[trigger]
                    start.completed_by(full, at) implies lex_le(cells, full) by {
                    start.lemma_completion_digit(full, at);
                    assert(tried.contains(full[at]));
                    let m = choose|m: int| 0 <= m < tried.len() && tried[m] == full[at];
                    if m < k {
                        assert(start.with_cell(at, tried[m]).completable(at + 1));
                    } else if m > k {
                        lemma_lex_le_at(cells, full, at);
                    }
                }
            }
        }
        result
    }

    /// Writes the digits of `order` to the empty cell `i` in turn until the
    /// cells after it can be filled; leaves the grid as it was when none
    /// fits.
    pub fn try_candidates(&mut self, i: usize, order: Vec<u8>, strategy: SolveStrategy) -> (result:
        SolveResult)
        requires
            old(self)@.well_formed(),
            i < old(self)@.area(),
            old(self)@.cells[i as int] == 0,
            forall|v: u8| #[trigger]
                order@.contains(v) ==> old(self)@.candidates(i as int).contains(v),
        ensures
            final(self)@.well_formed(),
            final(self)@ == old(self)@.with_cells(final(self)@.cells),
            (Outcome {
                solved: result == SolveResult::Solved,
                cells: final(self)@.cells,
                rng: final(self).generator(),
            }) == attempt(
                old(self)@,
                old(self).generator(),
                i as int,
                order@,
                0,
                strategy == SolveStrategy::Random,
            ),
            result == SolveResult::Solved <==> exists|k: int|
                0 <= k < order@.len() && old(self)@.with_cell(
                    i as int,
                    #[trigger] order@[k],
                ).completable(i + 1),
            result == SolveResult::Solved ==> old(self)@.completed_by(final(self)@.cells, i as int)
                && old(self)@.first_fit(i as int, order@, final(self)@.cells[i as int]),
            result == SolveResult::Unsolvable ==> final(self)@.cells == old(self)@.cells,
            strategy == SolveStrategy::Ordered ==> final(self).generator() == old(self).generator(),
            strategy == SolveStrategy::Ordered && result == SolveResult::Solved ==> old(
                self,
            )@.with_cell(i as int, final(self)@.cells[i as int]).least_completion(
                final(self)@.cells,
                i + 1,
            ),
        decreases old(self)@.area() - i, 0int,
    {
        let ghost start = self@;
        let ghost start_rng = self.rng;
        let ghost shuffled = strategy == SolveStrategy::Random;
        let ghost at = i as int;
        proof {
            lemma_area_fits(start.span());
            start.lemma_candidates(at);
            assert(self@.cells.update(at, 0) =~= start.cells);
        }
        let mut k: usize = 0;
        while k < order.len()
            invariant
                start == old(self)@,
                start_rng == old(self).generator(),
                shuffled == (strategy == SolveStrategy::Random),
                at == i,
                start.well_formed(),
                start.in_grid(at),
                start.cells[at] == 0,
                self@.with_cell(at, 0) == start,
                self.grid@.len() == start.area() <= 65025,
                k <= order.len(),
                forall|v: u8| #[trigger] order@.contains(v) ==> start.candidates(at).contains(v),
                !shuffled ==> self.rng == start_rng,
                attempt(start, start_rng, at, order@, 0, shuffled) == attempt(
                    start,
                    self.rng,
                    at,
                    order@,
                    k as int,
                    shuffled,
                ),
                forall|m: int|
                    0 <= m < k ==> !start.with_cell(at, #[trigger] order@[m]).completable(at + 1),
            decreases order.len() - k,
        {
            let digit = order[k];
            proof {
                assert(order@.contains(digit));
                start.lemma_candidates(at);
                start.lemma_with_cell(at, digit);
            }
            let ghost before = self@.cells;
            self.grid.set(i, digit);
            let ghost next = start.with_cell(at, digit);
            assert(self@ == next) by {
                assert(before.update(at, 0) == start.cells);
                assert(before.update(at, digit) =~= before.update(at, 0).update(at, digit));
            }
            let result = self.fill(i + 1, strategy);
            match result {
                SolveResult::Solved => {
                    proof {
                        start.lemma_completion_kept(self@.cells, at, digit);
                        assert(order@[k as int] == digit);
                    }
                    return SolveResult::Solved;
                },
                SolveResult::Unsolvable => {},
            }
            proof {
                assert(self@.cells.update(at, 0) =~= start.cells);
            }
            k += 1;
        }
        self.grid.set(i, 0);
        proof {
            assert(self@.cells =~= start.cells);
        }
        SolveResult::Unsolvable
    }

    /// Fills every empty cell, trying the digits of each cell in ascending
    /// order, when the grid has a solution; leaves the puzzle as it was when
    /// it has none. Of several solutions it finds the first, cell by cell.
    pub fn solve(&mut self) -> (result: SolveResult)
        requires
            old(self)@.well_formed(),
        ensures
            final(self)@.well_formed(),
            final(self)@ == old(self)@.with_cells(final(self)@.cells),
            final(self).generator() == old(self).generator(),
            result == SolveResult::Solved <==> old(self)@.solvable(),
            result == SolveResult::Solved ==> final(self)@.is_full() && old(self)@.solved_by(
                final(self)@.cells,
            ),
            result == SolveResult::Solved ==> forall|full: Seq<u8>| #[trigger]
                old(self)@.solved_by(full) ==> lex_le(final(self)@.cells, full),
            result == SolveResult::Unsolvable ==> final(self)@ == old(self)@,
    {
        let result = self.fill(0, SolveStrategy::Ordered);
        proof {
            if old(self)@.solvable() {
                let full = choose|full: Seq<u8>| old(self)@.solved_by(full);
                assert(old(self)@.completed_by(full, 0));
            }
            if result == SolveResult::Solved {
                assert(old(self)@.solved_by(self@.cells));
                assert forall|j: int| self@.in_grid(j) implies #[trigger] self@.cells[j] != 0 by {}
                assert forall|full: Seq<u8>| #[trigger]
                    old(self)@.solved_by(full) implies lex_le(self@.cells, full) by {
                    assert(old(self)@.completed_by(full, 0));
                }
            }
        }
        result
    }
}

} // verus!
