//! Constraint lookup: the digits that the row, the column and the block of a
//! cell already hold, and the digits that are left for it.

use crate::geometry::lemma_aligned_range;
use crate::geometry::lemma_area_fits;
use crate::geometry::lemma_block_fits;
use crate::geometry::lemma_coordinates;
use crate::geometry::lemma_index;
use crate::geometry::lemma_row_fits;
use crate::geometry::same_block;
use crate::puzzle::Sudoku;
use std::collections::HashMap;
use std::collections::HashSet;
use vstd::arithmetic::div_mod::lemma_fundamental_div_mod;
use vstd::prelude::*;

verus! {

broadcast use vstd::std_specs::hash::group_hash_axioms;

/// Adds the values of `entries` to `values`.
fn collect_values(entries: &HashMap<usize, u8>, values: &mut HashSet<u8>)
    ensures
        final(values)@ == old(values)@.union(entries@.values()),
{
    for v in it: entries.values()
        invariant
            it.seq().unref().to_set() == entries@.values(),
            forall|x: u8|
                values@.contains(x) <==> old(values)@.contains(x) || exists|k: int|
                    0 <= k < it.index() && #[trigger] it.seq().unref()[k] == x,
    {
        values.insert(*v);
        assert(it.seq().unref()[it.index() as int] == *v);
    }
    assert(forall|x: u8| entries@.values().contains(x) ==> values@.contains(x));
    assert(values@ =~= old(values)@.union(entries@.values()));
}

impl Sudoku {
    /// The filled cells of the row of cell `i`.
    pub fn get_row_entries(&self, i: usize) -> (entries: HashMap<usize, u8>)
        requires
            self@.well_formed(),
            i < self@.area(),
        ensures
            entries@ == self@.row_entries(i as int),
    {
        let n = self.grid_span;
        proof {
            lemma_area_fits(n as int);
            lemma_row_fits(n as int, i as int);
        }
        let start = i - i % n;
        let mut entries: HashMap<usize, u8> = HashMap::new();
        let mut k: usize = 0;
        while k < n
            invariant
                self@.well_formed(),
                n == self.grid_span,
                start + n <= self@.area() <= 65025,
                k <= n,
                forall|j: usize|
                    #[trigger] entries@.contains_key(j) <==> (start <= j < start + k && self.grid@[j as int]
                        != 0),
                forall|j: usize| #[trigger] entries@.contains_key(j) ==> entries@[j] == self.grid@[j as int],
            decreases n - k,
        {
            let value = self.grid[start + k];
            if value != 0 {
                entries.insert(start + k, value);
            }
            k += 1;
        }
        proof {
            assert forall|j: usize|
                entries@.contains_key(j) <==> self@.row_entries(i as int).contains_key(j) by {
                lemma_aligned_range(n as int, i as int, j as int);
            }
            assert(entries@ =~= self@.row_entries(i as int));
        }
        entries
    }

    /// The filled cells of the column of cell `i`.
    pub fn get_column_entries(&self, i: usize) -> (entries: HashMap<usize, u8>)
        requires
            self@.well_formed(),
            i < self@.area(),
        ensures
            entries@ == self@.column_entries(i as int),
    {
        let n = self.grid_span;
        proof {
            lemma_area_fits(n as int);
            lemma_coordinates(n as int, i as int);
        }
        let start = i % n;
        let mut entries: HashMap<usize, u8> = HashMap::new();
        let mut k: usize = 0;
        let mut at: usize = start;
        while k < n
            invariant
                self@.well_formed(),
                n == self.grid_span,
                self@.area() <= 65025,
                start < n,
                k <= n,
                at == k * n + start,
                forall|j: usize|
                    #[trigger] entries@.contains_key(j) <==> (self@.in_grid(j as int) && j % n == start && j
                        / n < k && self.grid@[j as int] != 0),
                forall|j: usize| #[trigger] entries@.contains_key(j) ==> entries@[j] == self.grid@[j as int],
            decreases n - k,
        {
            proof {
                lemma_index(n as int, k as int, start as int);
                assert((k + 1) * n + start == k * n + start + n) by (nonlinear_arith);
            }
            let value = self.grid[at];
            if value != 0 {
                entries.insert(at, value);
            }
            proof {
                assert forall|j: usize|
                    #[trigger] entries@.contains_key(j) <==> (self@.in_grid(j as int) && j % n
                        == start && j / n < k + 1 && self.grid@[j as int] != 0) by {
                    if self@.in_grid(j as int) && j % n == start && j / n == k {
                        lemma_fundamental_div_mod(j as int, n as int);
                        assert(n * (j as int / n as int) == (j as int / n as int) * n)
                            by (nonlinear_arith);
                        assert(j == at);
                    }
                }
            }
            k += 1;
            at += n;
        }
        proof {
            assert forall|j: usize|
                entries@.contains_key(j) <==> self@.column_entries(i as int).contains_key(j) by {
                if self@.in_grid(j as int) {
                    lemma_coordinates(n as int, j as int);
                }
            }
            assert(entries@ =~= self@.column_entries(i as int));
        }
        entries
    }

    /// The filled cells of the block of cell `i`.
    pub fn get_block_entries(&self, i: usize) -> (entries: HashMap<usize, u8>)
        requires
            self@.well_formed(),
            i < self@.area(),
        ensures
            entries@ == self@.block_entries(i as int),
    {
        let n = self.grid_span;
        let b = self.block_span;
        proof {
            lemma_area_fits(n as int);
            lemma_coordinates(n as int, i as int);
            lemma_block_fits(n as int, b as int, (i % n) as int);
            lemma_block_fits(n as int, b as int, (i / n) as int);
        }
        let x = i % n;
        let y = i / n;
        let x0 = x - x % b;
        let y0 = y - y % b;
        let mut entries: HashMap<usize, u8> = HashMap::new();
        let mut row: usize = 0;
        while row < b
            invariant
                self@.well_formed(),
                n == self.grid_span,
                b == self.block_span,
                self@.area() <= 65025,
                x0 + b <= n,
                y0 + b <= n,
                row <= b,
                forall|j: usize|
                    #[trigger] entries@.contains_key(j) <==> (self@.in_grid(j as int) && y0 <= j / n < y0
                        + row && x0 <= j % n < x0 + b && self.grid@[j as int] != 0),
                forall|j: usize| #[trigger] entries@.contains_key(j) ==> entries@[j] == self.grid@[j as int],
            decreases b - row,
        {
            proof {
                lemma_index(n as int, (y0 + row) as int, x0 as int);
            }
            let first = (y0 + row) * n + x0;
            let mut col: usize = 0;
            while col < b
                invariant
                    self@.well_formed(),
                    n == self.grid_span,
                    b == self.block_span,
                    self@.area() <= 65025,
                    x0 + b <= n,
                    y0 + b <= n,
                    row < b,
                    col <= b,
                    first == (y0 + row) * n + x0,
                    forall|j: usize|
                        #[trigger] entries@.contains_key(j) <==> (self@.in_grid(j as int) && x0 <= j % n < x0
                            + b && (y0 <= j / n < y0 + row || (j / n == y0 + row && j % n < x0
                            + col)) && self.grid@[j as int] != 0),
                    forall|j: usize|
                        #[trigger] entries@.contains_key(j) ==> entries@[j] == self.grid@[j as int],
                decreases b - col,
            {
                proof {
                    lemma_index(n as int, (y0 + row) as int, (x0 + col) as int);
                }
                let value = self.grid[first + col];
                if value != 0 {
                    entries.insert(first + col, value);
                }
                proof {
                    assert forall|j: usize|
                        #[trigger] entries@.contains_key(j) <==> (self@.in_grid(j as int) && x0
                            <= j % n < x0 + b && (y0 <= j / n < y0 + row || (j / n == y0 + row
                            && j % n < x0 + col + 1)) && self.grid@[j as int] != 0) by {
                        if self@.in_grid(j as int) && j / n == y0 + row && j % n == x0 + col {
                            lemma_fundamental_div_mod(j as int, n as int);
                            assert(n * (j as int / n as int) == (j as int / n as int) * n)
                                by (nonlinear_arith);
                            assert(j == first + col);
                        }
                    }
                }
                col += 1;
            }
            row += 1;
        }
        proof {
            assert forall|j: usize|
                entries@.contains_key(j) <==> self@.block_entries(i as int).contains_key(j) by {
                if self@.in_grid(j as int) {
                    lemma_coordinates(n as int, j as int);
                    lemma_aligned_range(b as int, y as int, j as int / n as int);
                    lemma_aligned_range(b as int, x as int, j as int % n as int);
                }
            }
            assert(entries@ =~= self@.block_entries(i as int));
        }
        entries
    }

    /// The digits that the row, the column and the block of cell `i` hold.
    pub fn get_intersecting_values(&self, i: usize) -> (values: HashSet<u8>)
        requires
            self@.well_formed(),
            i < self@.area(),
        ensures
            values@ == self@.used_values(i as int),
    {
        let row = self.get_row_entries(i);
        let column = self.get_column_entries(i);
        let block = self.get_block_entries(i);
        let mut values: HashSet<u8> = HashSet::new();
        collect_values(&row, &mut values);
        collect_values(&column, &mut values);
        collect_values(&block, &mut values);
        proof {
            let used = self@.used_values(i as int);
            assert forall|v: u8| values@.contains(v) implies used.contains(v) by {
                if row@.values().contains(v) {
                    let j = choose|j: usize| row@.contains_key(j) && row@[j] == v;
                    assert(self@.intersects(i as int, j as int));
                } else if column@.values().contains(v) {
                    let j = choose|j: usize| column@.contains_key(j) && column@[j] == v;
                    assert(self@.intersects(i as int, j as int));
                } else {
                    let j = choose|j: usize| block@.contains_key(j) && block@[j] == v;
                    assert(self@.intersects(i as int, j as int));
                }
            }
            assert forall|v: u8| used.contains(v) implies values@.contains(v) by {
                let j = choose|j: int| #[trigger] self@.intersects(i as int, j) && self@.cells[j] == v;
                lemma_area_fits(self@.span());
                let at = j as usize;
                if row@.contains_key(at) {
                    assert(row@.values().contains(v));
                } else if column@.contains_key(at) {
                    assert(column@.values().contains(v));
                } else {
                    assert(block@.contains_key(at));
                    assert(block@.values().contains(v));
                }
            }
            assert(values@ =~= used);
        }
        values
    }

    /// The digits that cell `i` may still take, ascending.
    pub fn get_possible_values(&self, i: usize) -> (values: Vec<u8>)
        requires
            self@.well_formed(),
            i < self@.area(),
        ensures
            values@ == self@.candidates(i as int),
    {
        let used = self.get_intersecting_values(i);
        let mut values: Vec<u8> = Vec::new();
        let mut digit: u8 = 0;
        while (digit as usize) < self.grid_span
            invariant
                self.grid_span <= 255,
                digit <= self.grid_span,
                used@ == self@.used_values(i as int),
                values@ == self@.candidates_upto(i as int, digit as int),
            decreases self.grid_span - digit,
        {
            digit += 1;
            if !used.contains(&digit) {
                values.push(digit);
            }
        }
        values
    }
}

} // verus!
