//! Index arithmetic of a square grid stored row by row, and the three kinds
//! of region (row, column, block) that constrain a cell.

use vstd::arithmetic::div_mod::lemma_fundamental_div_mod;
use vstd::arithmetic::div_mod::lemma_fundamental_div_mod_converse;
use vstd::arithmetic::div_mod::lemma_mod_pos_bound;
use vstd::prelude::*;

verus! {

/// Spans that describe a grid: blocks tile the grid exactly and every digit
/// fits in a byte.
pub open spec fn valid_spans(n: int, b: int) -> bool {
    1 <= b <= n <= 255 && n % b == 0
}

/// The row of cell `i` in a grid of span `n`.
pub open spec fn row_of(n: int, i: int) -> int {
    i / n
}

/// The column of cell `i` in a grid of span `n`.
pub open spec fn column_of(n: int, i: int) -> int {
    i % n
}

/// Cells `i` and `j` lie in the same row.
pub open spec fn same_row(n: int, i: int, j: int) -> bool {
    row_of(n, i) == row_of(n, j)
}

/// Cells `i` and `j` lie in the same column.
pub open spec fn same_column(n: int, i: int, j: int) -> bool {
    column_of(n, i) == column_of(n, j)
}

/// Cells `i` and `j` lie in the same block of span `b`.
pub open spec fn same_block(n: int, b: int, i: int, j: int) -> bool {
    row_of(n, i) / b == row_of(n, j) / b && column_of(n, i) / b == column_of(n, j) / b
}

/// Cells `i` and `j` share a row, a column or a block. Every cell intersects
/// itself.
pub open spec fn intersecting(n: int, b: int, i: int, j: int) -> bool {
    same_row(n, i, j) || same_column(n, i, j) || same_block(n, b, i, j)
}

/// The cells of the largest grid can be counted in 16 bits.
pub proof fn lemma_area_fits(n: int)
    requires
        0 <= n <= 255,
    ensures
        0 <= n * n <= 65025,
{
    assert(0 <= n * n <= 65025) by (nonlinear_arith)
        requires
            0 <= n <= 255,
    ;
}

/// A cell of the grid has a row and a column below the span, and they give
/// the cell back.
pub proof fn lemma_coordinates(n: int, i: int)
    requires
        0 < n,
        0 <= i < n * n,
    ensures
        0 <= row_of(n, i) < n,
        0 <= column_of(n, i) < n,
        i == row_of(n, i) * n + column_of(n, i),
{
    lemma_fundamental_div_mod(i, n);
    lemma_mod_pos_bound(i, n);
    let q = i / n;
    let r = i % n;
    assert(n * q == q * n) by (nonlinear_arith);
    assert(0 <= q < n) by (nonlinear_arith)
        requires
            0 < n,
            0 <= i < n * n,
            i == q * n + r,
            0 <= r < n,
    ;
}

/// The cell at row `r` and column `c` lies in the grid, in that row and that
/// column.
pub proof fn lemma_index(n: int, r: int, c: int)
    requires
        0 < n,
        0 <= r < n,
        0 <= c < n,
    ensures
        0 <= r * n <= r * n + c < n * n,
        row_of(n, r * n + c) == r,
        column_of(n, r * n + c) == c,
{
    lemma_fundamental_div_mod_converse(r * n + c, n, r, c);
    assert(0 <= r * n <= r * n + c < n * n) by (nonlinear_arith)
        requires
            0 < n,
            0 <= r < n,
            0 <= c < n,
    ;
}

/// The row of a cell ends inside the grid.
pub proof fn lemma_row_fits(n: int, i: int)
    requires
        0 < n,
        0 <= i < n * n,
    ensures
        0 <= i - i % n,
        i - i % n + n <= n * n,
{
    lemma_coordinates(n, i);
    let q = i / n;
    assert(q * n + n <= n * n) by (nonlinear_arith)
        requires
            0 <= q < n,
    ;
}

/// The numbers that share the quotient of `x` by `d` are the `d` numbers
/// from `x - x % d` on.
pub proof fn lemma_aligned_range(d: int, x: int, z: int)
    requires
        0 < d,
        0 <= x,
    ensures
        0 <= x - x % d,
        x - x % d == (x / d) * d,
        (x - x % d <= z < x - x % d + d) <==> z / d == x / d,
{
    lemma_fundamental_div_mod(x, d);
    lemma_mod_pos_bound(x, d);
    let q = x / d;
    assert(d * q == q * d) by (nonlinear_arith);
    if q * d <= z < q * d + d {
        lemma_fundamental_div_mod_converse(z, d, q, z - q * d);
    }
    if z / d == q {
        lemma_fundamental_div_mod(z, d);
        assert(d * (z / d) == (z / d) * d) by (nonlinear_arith);
        if z >= 0 {
            lemma_mod_pos_bound(z, d);
        } else {
            assert(z / d < 0) by (nonlinear_arith)
                requires
                    z < 0,
                    0 < d,
            ;
            assert(q >= 0) by (nonlinear_arith)
                requires
                    q == x / d,
                    0 <= x,
                    0 < d,
            ;
        }
    }
}

/// A block that starts at the aligned coordinate below `y` ends inside the
/// grid.
pub proof fn lemma_block_fits(n: int, b: int, y: int)
    requires
        valid_spans(n, b),
        0 <= y < n,
    ensures
        0 <= y - y % b,
        y - y % b + b <= n,
{
    lemma_aligned_range(b, y, y);
    lemma_fundamental_div_mod(n, b);
    let q = y / b;
    let m = n / b;
    assert(q * b + b <= n) by (nonlinear_arith)
        requires
            0 < b,
            q * b <= y,
            y < n,
            n == b * m,
    ;
}

} // verus!
