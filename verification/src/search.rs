//! The backtracking search as a function of the board and the generator,
//! and what the completions of a board have in common.

use crate::board::lex_le;
use crate::board::Board;
use crate::generator::shuffle_outcome;
use rand::rngs::StdRng;
use vstd::prelude::*;

verus! {

/// How a search ends: whether it filled the grid, the cells it leaves, and
/// the generator it leaves.
pub struct Outcome {
    pub solved: bool,
    pub cells: Seq<u8>,
    pub rng: StdRng,
}

/// The search from cell `i` on. A filled cell is passed over. An empty cell
/// takes its candidates in turn, ascending or, when `shuffled`, in the order
/// that the generator gives them; the first that lets the rest of the grid
/// be filled stays.
pub open spec fn search(board: Board, rng: StdRng, i: int, shuffled: bool) -> Outcome
    decreases board.area() - i, 1int, 0int,
{
    if i < 0 || i >= board.area() {
        Outcome { solved: true, cells: board.cells, rng }
    } else if board.cells[i] != 0 {
        search(board, rng, i + 1, shuffled)
    } else if shuffled {
        let drawn = shuffle_outcome(rng, board.candidates(i));
        attempt(board, drawn.0, i, drawn.1, 0, shuffled)
    } else {
        attempt(board, rng, i, board.candidates(i), 0, shuffled)
    }
}

/// The search at the empty cell `i` once the digits before `order[k]` have
/// failed.
pub open spec fn attempt(
    board: Board,
    rng: StdRng,
    i: int,
    order: Seq<u8>,
    k: int,
    shuffled: bool,
) -> Outcome
    decreases board.area() - i, 0int, order.len() - k,
{
    if i < 0 || i >= board.area() || k < 0 || k >= order.len() {
        Outcome { solved: false, cells: board.cells, rng }
    } else {
        let rest = search(board.with_cell(i, order[k]), rng, i + 1, shuffled);
        if rest.solved {
            rest
        } else {
            attempt(board, rest.rng, i, order, k + 1, shuffled)
        }
    }
}

impl Board {
    /// Some grid completes this board from cell `from` on.
    pub open spec fn completable(self, from: int) -> bool {
        exists|full: Seq<u8>| self.completed_by(full, from)
    }

    /// `cells` is the first, cell by cell, of the grids that complete this
    /// board from `from` on.
    pub open spec fn least_completion(self, cells: Seq<u8>, from: int) -> bool {
        &&& self.completed_by(cells, from)
        &&& forall|full: Seq<u8>| #[trigger]
            self.completed_by(full, from) ==> lex_le(cells, full)
    }

    /// The candidates of a cell up to `d` are the unused digits from 1 to
    /// `d`, each once and ascending.
    pub proof fn lemma_candidates_upto(self, i: int, d: int)
        requires
            0 <= d <= 255,
        ensures
            forall|v: u8| #[trigger]
                self.candidates_upto(i, d).contains(v) <==> 1 <= v <= d && !self.used_values(
                    i,
                ).contains(v),
            forall|a: int, b: int|
                0 <= a < b < self.candidates_upto(i, d).len() ==> self.candidates_upto(i, d)[a]
                    < self.candidates_upto(i, d)[b],
        decreases d,
    {
        if d > 0 {
            self.lemma_candidates_upto(i, d - 1);
            let prev = self.candidates_upto(i, d - 1);
            let all = self.candidates_upto(i, d);
            if !self.used_values(i).contains(d as u8) {
                assert forall|v: u8| #[trigger]
                    all.contains(v) <==> 1 <= v <= d && !self.used_values(i).contains(v) by {
                    if all.contains(v) {
                        let k = choose|k: int| 0 <= k < all.len() && all[k] == v;
                        if k < prev.len() {
                            assert(prev[k] == v);
                            assert(prev.contains(v));
                        }
                    }
                    if 1 <= v <= d && !self.used_values(i).contains(v) {
                        if v == d {
                            assert(all[prev.len() as int] == v);
                        } else {
                            assert(prev.contains(v));
                            let k = choose|k: int| 0 <= k < prev.len() && prev[k] == v;
                            assert(all[k] == v);
                        }
                    }
                }
                assert forall|a: int, b: int| 0 <= a < b < all.len() implies all[a] < all[b] by {
                    if b == prev.len() {
                        assert(prev[a] == all[a]);
                        assert(prev.contains(all[a]));
                    } else {
                        assert(prev[a] == all[a] && prev[b] == all[b]);
                    }
                }
            }
        }
    }

    /// The candidates of a cell are the unused digits of the grid, each once
    /// and ascending.
    pub proof fn lemma_candidates(self, i: int)
        requires
            self.well_formed(),
        ensures
            forall|v: u8| #[trigger]
                self.candidates(i).contains(v) <==> 1 <= v <= self.grid_span && !self.used_values(
                    i,
                ).contains(v),
            forall|a: int, b: int|
                0 <= a < b < self.candidates(i).len() ==> self.candidates(i)[a] < self.candidates(
                    i,
                )[b],
    {
        self.lemma_candidates_upto(i, self.span());
    }

    /// Writing a digit that no intersecting cell holds, or emptying a cell,
    /// keeps the board well formed.
    pub proof fn lemma_with_cell(self, i: int, value: u8)
        requires
            self.well_formed(),
            self.in_grid(i),
            value <= self.grid_span,
            value == 0 || !self.used_values(i).contains(value),
        ensures
            self.with_cell(i, value).well_formed(),
    {
        let next = self.with_cell(i, value);
        assert forall|a: int, b: int|
            next.in_grid(a) && #[trigger] next.intersects(a, b) && a != b && next.cells[a]
                != 0 implies next.cells[a] != next.cells[b] by {
            assert(self.intersects(a, b));
            if a == i {
                assert(self.intersects(i, b));
            } else if b == i {
                assert(self.intersects(i, a));
            }
        }
    }

    /// Giving other cells of the grid keeps the board well formed.
    pub proof fn lemma_with_givens(self, givens: Set<usize>)
        requires
            self.well_formed(),
            givens.finite(),
            forall|g: usize| #[trigger] givens.contains(g) ==> self.in_grid(g as int),
        ensures
            self.with_givens(givens).well_formed(),
    {
        let next = self.with_givens(givens);
        assert forall|a: int, b: int|
            next.in_grid(a) && #[trigger] next.intersects(a, b) && a != b && next.cells[a]
                != 0 implies next.cells[a] != next.cells[b] by {
            assert(self.intersects(a, b));
        }
    }

    /// A board completed from past its last cell is its own completion.
    pub proof fn lemma_completed_at_end(self, full: Seq<u8>, from: int)
        requires
            self.well_formed(),
            from >= self.area(),
        ensures
            self.completed_by(full, from) <==> full == self.cells,
    {
        if self.completed_by(full, from) {
            assert(full =~= self.cells);
        }
        if full == self.cells {
            assert(self.with_cells(full) == self);
        }
    }

    /// A filled cell is kept by every completion, so the search may pass it
    /// over.
    pub proof fn lemma_skip_filled(self, full: Seq<u8>, i: int)
        requires
            self.well_formed(),
            self.in_grid(i),
            self.cells[i] != 0,
        ensures
            self.completed_by(full, i) <==> self.completed_by(full, i + 1),
    {
        if self.completed_by(full, i) {
            assert(full[i] == self.cells[i]);
        }
        if self.completed_by(full, i + 1) {
            assert(full[i] == self.cells[i]);
        }
    }

    /// The digit that a completion puts in the empty cell `i` is a candidate
    /// of that cell, and the completion completes the board with that digit
    /// written.
    pub proof fn lemma_completion_digit(self, full: Seq<u8>, i: int)
        requires
            self.well_formed(),
            self.in_grid(i),
            self.cells[i] == 0,
            self.completed_by(full, i),
        ensures
            self.candidates(i).contains(full[i]),
            self.with_cell(i, full[i]).completed_by(full, i + 1),
    {
        let done = self.with_cells(full);
        let digit = full[i];
        assert(done.cells[i] <= done.grid_span);
        assert(full[i] != 0);
        if self.used_values(i).contains(digit) {
            let j = choose|j: int| #[trigger] self.intersects(i, j) && self.cells[j] == digit;
            assert(full[j] == self.cells[j]);
            assert(done.intersects(i, j));
        }
        self.lemma_candidates(i);
        let next = self.with_cell(i, digit);
        assert(next.with_cells(full) == done);
    }

    /// A completion of the board with a digit written in the empty cell `i`
    /// completes the board itself.
    pub proof fn lemma_completion_kept(self, full: Seq<u8>, i: int, digit: u8)
        requires
            self.well_formed(),
            self.in_grid(i),
            self.cells[i] == 0,
            digit != 0,
            self.with_cell(i, digit).completed_by(full, i + 1),
        ensures
            self.completed_by(full, i),
            full[i] == digit,
            forall|j: int| 0 <= j < i ==> full[j] == self.cells[j],
    {
        let next = self.with_cell(i, digit);
        assert(next.with_cells(full) == self.with_cells(full));
        assert(full[i] == next.cells[i]);
        assert forall|j: int| self.in_grid(j) && j < i implies #[trigger] full[j]
            == self.cells[j] by {
            assert(full[j] == next.cells[j]);
        }
        assert forall|j: int| self.in_grid(j) && self.cells[j] != 0 implies #[trigger] full[j]
            == self.cells[j] by {
            assert(full[j] == next.cells[j]);
        }
        assert forall|j: int| self.in_grid(j) && i <= j implies #[trigger] full[j] != 0 by {
            if j != i {
                assert(next.in_grid(j));
            }
        }
    }
}

} // verus!
