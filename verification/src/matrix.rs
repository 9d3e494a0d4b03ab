//! Row-major indexing: entry `(row, col)` of a matrix with `cols` columns is
//! stored at position `row * cols + col`.

use vstd::prelude::*;
use vstd::arithmetic::div_mod::lemma_fundamental_div_mod_converse;
use vstd::arithmetic::mul::lemma_mul_inequality;
use vstd::arithmetic::mul::lemma_mul_is_distributive_add_other_way;
use vstd::arithmetic::mul::lemma_mul_nonnegative;

verus! {

/// The entry at `(row, col)` of the row-major matrix `m` with `cols` columns.
pub open spec fn entry(m: Seq<int>, cols: int, row: int, col: int) -> int {
    m[row * cols + col]
}

/// A position inside a `rows` by `cols` matrix has a flat index inside the
/// stored sequence, and the flat index gives the position back.
pub proof fn lemma_flat_index(row: int, col: int, rows: int, cols: int)
    requires
        0 <= row < rows,
        0 <= col < cols,
    ensures
        0 <= row * cols + col < rows * cols,
        (row * cols + col) / cols == row,
        (row * cols + col) % cols == col,
{
    lemma_mul_nonnegative(row, cols);
    lemma_mul_inequality(row + 1, rows, cols);
    lemma_mul_is_distributive_add_other_way(cols, row, 1);
    lemma_fundamental_div_mod_converse(row * cols + col, cols, row, col);
}

/// A flat index inside a `rows` by `cols` matrix splits into a row and a
/// column inside the matrix.
pub proof fn lemma_position(index: int, rows: int, cols: int)
    requires
        0 <= index < rows * cols,
        0 <= rows,
        0 <= cols,
    ensures
        0 < cols,
        0 <= index / cols < rows,
        0 <= index % cols < cols,
        (index / cols) * cols + index % cols == index,
{
    if cols == 0 {
        assert(rows * cols == 0) by (nonlinear_arith)
            requires
                cols == 0,
        ;
    }
    vstd::arithmetic::div_mod::lemma_fundamental_div_mod(index, cols);
    vstd::arithmetic::div_mod::lemma_div_pos_is_pos(index, cols);
    vstd::arithmetic::div_mod::lemma_mod_bound(index, cols);
    vstd::arithmetic::mul::lemma_mul_is_commutative(cols, index / cols);
    if index / cols >= rows {
        lemma_mul_inequality(rows, index / cols, cols);
    }
}

} // verus!
