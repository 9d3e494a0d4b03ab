//! What holds of the four stages for every input.

use vstd::prelude::*;
use vstd::seq_lib::{to_multiset_build, to_multiset_insert};
use crate::matrix::{entry, lemma_flat_index, lemma_position};
use crate::pca::{
    centered, column_product_sum, column_sum, covariance, decomposition, diagonal, projection,
    row_product_sum, Decomposition,
};
use crate::ranking::{
    is_stable_descending_order, lemma_stable_descending_order_exists, ranks_before, reordered,
    stable_descending_order,
};
use crate::scaled::{lemma_max_magnitude_bounds, lemma_max_magnitude_within, max_magnitude, Rationals};

verus! {

proof fn lemma_centered_column_sum(data: Rationals, n: int, d: int, col: int, rows: int)
    requires
        n >= 1,
        0 <= col < d,
        0 <= rows <= n,
        data.numerators.len() == n * d,
    ensures
        column_sum(centered(data, n, d).numerators, d, col, rows) == n * column_sum(
            data.numerators,
            d,
            col,
            rows,
        ) - rows * column_sum(data.numerators, d, col, n),
    decreases rows,
{
    let total = column_sum(data.numerators, d, col, n);
    if rows > 0 {
        lemma_centered_column_sum(data, n, d, col, rows - 1);
        lemma_flat_index(rows - 1, col, n, d);
        let partial = column_sum(data.numerators, d, col, rows - 1);
        let x = entry(data.numerators, d, rows - 1, col);
        assert(entry(centered(data, n, d).numerators, d, rows - 1, col) == n * x - total);
        assert(n * (partial + x) == n * partial + n * x) by (nonlinear_arith);
        assert(rows * total == (rows - 1) * total + total) by (nonlinear_arith);
    } else {
        assert(rows * total == 0) by (nonlinear_arith)
            requires
                rows == 0,
        ;
    }
}

/// Every column of a centered matrix sums to zero, so its mean is zero.
pub proof fn lemma_centered_columns_sum_to_zero(data: Rationals, n: int, d: int, col: int)
    requires
        n >= 1,
        0 <= col < d,
        data.numerators.len() == n * d,
    ensures
        column_sum(centered(data, n, d).numerators, d, col, n) == 0,
{
    lemma_centered_column_sum(data, n, d, col, n);
}

proof fn lemma_column_product_sum_commutes(m: Seq<int>, cols: int, a: int, b: int, rows: int)
    ensures
        column_product_sum(m, cols, a, b, rows) == column_product_sum(m, cols, b, a, rows),
    decreases rows,
{
    if rows > 0 {
        lemma_column_product_sum_commutes(m, cols, a, b, rows - 1);
        assert(entry(m, cols, rows - 1, a) * entry(m, cols, rows - 1, b) == entry(
            m,
            cols,
            rows - 1,
            b,
        ) * entry(m, cols, rows - 1, a)) by (nonlinear_arith);
    }
}

/// The covariance matrix is symmetric.
pub proof fn lemma_covariance_is_symmetric(centered: Rationals, n: int, d: int, i: int, j: int)
    requires
        0 <= i < d,
        0 <= j < d,
    ensures
        entry(covariance(centered, n, d).numerators, d, i, j) == entry(
            covariance(centered, n, d).numerators,
            d,
            j,
            i,
        ),
{
    lemma_flat_index(i, j, d, d);
    lemma_flat_index(j, i, d, d);
    lemma_column_product_sum_commutes(centered.numerators, d, i, j, n);
}

/// The component values come out in descending order.
pub proof fn lemma_decomposition_is_descending(cov: Rationals, d: int, i: int, j: int)
    requires
        0 <= i <= j < d,
    ensures
        decomposition(cov, d).eigenvalues.numerators[i] >= decomposition(
            cov,
            d,
        ).eigenvalues.numerators[j],
{
    let keys = diagonal(cov.numerators, d);
    let order = stable_descending_order(keys);
    lemma_stable_descending_order_exists(keys);
    if i < j {
        assert(ranks_before(keys, order[i], order[j]));
    }
}

/// Values and vectors are reordered together: component `i` holds the
/// diagonal entry and the row of one and the same row of the covariance
/// matrix, so its value is found in its own vector at that row's index.
pub proof fn lemma_decomposition_moves_rows_with_values(cov: Rationals, d: int, i: int)
    requires
        0 <= i < d,
    ensures
        ({
            let source = stable_descending_order(diagonal(cov.numerators, d))[i];
            let result = decomposition(cov, d);
            &&& 0 <= source < d
            &&& result.eigenvalues.numerators[i] == entry(cov.numerators, d, source, source)
            &&& forall|col: int|
                0 <= col < d ==> #[trigger] entry(result.eigenvectors.numerators, d, i, col)
                    == entry(cov.numerators, d, source, col)
            &&& entry(result.eigenvectors.numerators, d, i, source)
                == result.eigenvalues.numerators[i]
        }),
{
    let keys = diagonal(cov.numerators, d);
    let order = stable_descending_order(keys);
    lemma_stable_descending_order_exists(keys);
    let source = order[i];
    let result = decomposition(cov, d);
    assert forall|col: int| 0 <= col < d implies #[trigger] entry(
        result.eigenvectors.numerators,
        d,
        i,
        col,
    ) == entry(cov.numerators, d, source, col) by {
        lemma_flat_index(i, col, d, d);
    }
    assert(entry(result.eigenvectors.numerators, d, i, source) == entry(
        cov.numerators,
        d,
        source,
        source,
    ));
}

proof fn lemma_reordered_keeps_keys(keys: Seq<int>, order: Seq<int>)
    requires
        order.len() == keys.len(),
        forall|i: int| 0 <= i < order.len() ==> 0 <= #[trigger] order[i] < keys.len(),
        forall|x: int| 0 <= x < keys.len() ==> #[trigger] order.contains(x),
        forall|i: int, j: int|
            #![trigger order[i], order[j]]
            0 <= i < j < order.len() ==> order[i] != order[j],
    ensures
        reordered(keys, order).to_multiset() == keys.to_multiset(),
    decreases keys.len(),
{
    if keys.len() == 0 {
        assert(reordered(keys, order) =~= keys);
    } else {
        let last = keys.len() - 1;
        assert(order.contains(last));
        let at = choose|i: int| 0 <= i < order.len() && order[i] == last;
        let others = keys.drop_last();
        let rest = order.remove(at);
        assert forall|i: int| 0 <= i < rest.len() implies 0 <= #[trigger] rest[i]
            < others.len() by {
            if i < at {
                assert(order[i] != order[at]);
            } else {
                assert(order[at] != order[i + 1]);
            }
        }
        assert forall|x: int| 0 <= x < others.len() implies #[trigger] rest.contains(x) by {
            assert(order.contains(x));
            let i = choose|i: int| 0 <= i < order.len() && order[i] == x;
            if i < at {
                assert(rest[i] == x);
            } else {
                assert(rest[i - 1] == x);
            }
        }
        assert forall|i: int, j: int|
            #![trigger rest[i], rest[j]]
            0 <= i < j < rest.len() implies rest[i] != rest[j] by {
            let a = if i < at {
                i
            } else {
                i + 1
            };
            let b = if j < at {
                j
            } else {
                j + 1
            };
            assert(order[a] != order[b]);
        }
        lemma_reordered_keeps_keys(others, rest);
        assert(reordered(keys, order) =~= reordered(others, rest).insert(at, keys[last]));
        to_multiset_insert(reordered(others, rest), at, keys[last]);
        assert(keys =~= others.push(keys[last]));
        to_multiset_build(others, keys[last]);
    }
}

/// The component values are the diagonal entries of the covariance matrix,
/// each as often as it stands on the diagonal.
pub proof fn lemma_decomposition_keeps_diagonal(cov: Rationals, d: int)
    ensures
        decomposition(cov, d).eigenvalues.numerators.to_multiset() == diagonal(
            cov.numerators,
            d,
        ).to_multiset(),
{
    let keys = diagonal(cov.numerators, d);
    let order = stable_descending_order(keys);
    lemma_stable_descending_order_exists(keys);
    assert forall|i: int, j: int|
        #![trigger order[i], order[j]]
        0 <= i < j < order.len() implies order[i] != order[j] by {
        assert(ranks_before(keys, order[i], order[j]));
    }
    lemma_reordered_keeps_keys(keys, order);
}

proof fn lemma_row_product_sum_of_zero_row(
    a: Seq<int>,
    row_a: int,
    b: Seq<int>,
    row_b: int,
    cols: int,
    upto: int,
)
    requires
        forall|col: int| 0 <= col < upto ==> #[trigger] entry(a, cols, row_a, col) == 0,
    ensures
        row_product_sum(a, row_a, b, row_b, cols, upto) == 0,
    decreases upto,
{
    if upto > 0 {
        lemma_row_product_sum_of_zero_row(a, row_a, b, row_b, cols, upto - 1);
        assert(entry(a, cols, row_a, upto - 1) == 0);
        assert(0 * entry(b, cols, row_b, upto - 1) == 0);
    }
}

/// Projecting a matrix of zeros gives a matrix of zeros, one row per row of
/// the matrix and one column per component.
pub proof fn lemma_projection_of_zero_is_zero(
    centered: Rationals,
    n: int,
    d: int,
    components: Decomposition,
)
    requires
        0 <= n,
        0 <= d,
        0 <= components.num_components,
        centered.numerators.len() == n * d,
        forall|i: int| 0 <= i < centered.numerators.len() ==> centered.numerators[i] == 0,
    ensures
        projection(centered, n, d, components).numerators.len() == n * components.num_components,
        forall|i: int|
            0 <= i < n * components.num_components ==> projection(
                centered,
                n,
                d,
                components,
            ).numerators[i] == 0,
{
    let k = components.num_components;
    assert(0 <= n * k) by (nonlinear_arith)
        requires
            0 <= n,
            0 <= k,
    ;
    assert forall|i: int| 0 <= i < n * k implies projection(
        centered,
        n,
        d,
        components,
    ).numerators[i] == 0 by {
        lemma_position(i, n, k);
        let row = i / k;
        assert forall|col: int| 0 <= col < d implies #[trigger] entry(
            centered.numerators,
            d,
            row,
            col,
        ) == 0 by {
            lemma_flat_index(row, col, n, d);
        }
        lemma_row_product_sum_of_zero_row(
            centered.numerators,
            row,
            components.eigenvectors.numerators,
            i % k,
            d,
            d,
        );
    }
}

proof fn lemma_column_sum_within(m: Seq<int>, n: int, d: int, col: int, rows: int, bound: int)
    requires
        0 <= col < d,
        0 <= rows <= n,
        0 <= bound,
        m.len() == n * d,
        forall|i: int| 0 <= i < m.len() ==> -bound <= #[trigger] m[i] <= bound,
    ensures
        -(rows * bound) <= column_sum(m, d, col, rows) <= rows * bound,
    decreases rows,
{
    if rows > 0 {
        lemma_column_sum_within(m, n, d, col, rows - 1, bound);
        lemma_flat_index(rows - 1, col, n, d);
        assert(-bound <= m[(rows - 1) * d + col] <= bound);
        assert(rows * bound == (rows - 1) * bound + bound) by (nonlinear_arith);
    } else {
        assert(rows * bound == 0) by (nonlinear_arith)
            requires
                rows == 0,
        ;
    }
}

/// Centering at most doubles the largest magnitude, times the number of rows.
pub proof fn lemma_centered_magnitude(data: Rationals, n: int, d: int)
    requires
        n >= 1,
        0 <= d,
        data.numerators.len() == n * d,
    ensures
        max_magnitude(centered(data, n, d).numerators) <= 2 * n * max_magnitude(data.numerators),
{
    let source = data.numerators;
    let bound = max_magnitude(source);
    let result = centered(data, n, d).numerators;
    lemma_max_magnitude_bounds(source);
    assert(0 <= n * bound && 2 * n * bound == n * bound + n * bound) by (nonlinear_arith)
        requires
            n >= 1,
            bound >= 0,
    ;
    assert(0 <= n * d) by (nonlinear_arith)
        requires
            n >= 1,
            d >= 0,
    ;
    assert forall|i: int| 0 <= i < result.len() implies -(2 * n * bound) <= #[trigger] result[i]
        <= 2 * n * bound by {
        lemma_position(i, n, d);
        lemma_column_sum_within(source, n, d, i % d, n, bound);
        assert(-bound <= source[i] <= bound);
        assert(-(n * bound) <= n * source[i] <= n * bound) by (nonlinear_arith)
            requires
                n >= 1,
                -bound <= source[i] <= bound,
        ;
    }
    lemma_max_magnitude_within(result, 2 * n * bound);
}

proof fn lemma_column_product_sum_within(
    m: Seq<int>,
    n: int,
    d: int,
    a: int,
    b: int,
    rows: int,
    bound: int,
)
    requires
        0 <= a < d,
        0 <= b < d,
        0 <= rows <= n,
        0 <= bound,
        m.len() == n * d,
        forall|i: int| 0 <= i < m.len() ==> -bound <= #[trigger] m[i] <= bound,
    ensures
        -(rows * (bound * bound)) <= column_product_sum(m, d, a, b, rows) <= rows * (bound
            * bound),
    decreases rows,
{
    let square = bound * bound;
    if rows > 0 {
        lemma_column_product_sum_within(m, n, d, a, b, rows - 1, bound);
        lemma_flat_index(rows - 1, a, n, d);
        lemma_flat_index(rows - 1, b, n, d);
        let x = m[(rows - 1) * d + a];
        let y = m[(rows - 1) * d + b];
        assert(-bound <= x <= bound);
        assert(-bound <= y <= bound);
        assert(-square <= x * y <= square) by (nonlinear_arith)
            requires
                -bound <= x <= bound,
                -bound <= y <= bound,
                square == bound * bound,
        ;
        assert(rows * square == (rows - 1) * square + square) by (nonlinear_arith);
    } else {
        assert(rows * square == 0) by (nonlinear_arith)
            requires
                rows == 0,
        ;
    }
}

/// No entry of the covariance matrix exceeds the number of rows times the
/// square of the largest centered magnitude.
pub proof fn lemma_covariance_magnitude(centered: Rationals, n: int, d: int)
    requires
        0 <= n,
        0 <= d,
        centered.numerators.len() == n * d,
    ensures
        max_magnitude(covariance(centered, n, d).numerators) <= n * (max_magnitude(
            centered.numerators,
        ) * max_magnitude(centered.numerators)),
{
    let source = centered.numerators;
    let bound = max_magnitude(source);
    let result = covariance(centered, n, d).numerators;
    lemma_max_magnitude_bounds(source);
    assert(0 <= n * (bound * bound)) by (nonlinear_arith)
        requires
            n >= 0,
    ;
    assert(0 <= d * d) by (nonlinear_arith);
    assert forall|i: int| 0 <= i < result.len() implies -(n * (bound * bound))
        <= #[trigger] result[i] <= n * (bound * bound) by {
        lemma_position(i, d, d);
        lemma_column_product_sum_within(source, n, d, i / d, i % d, n, bound);
    }
    lemma_max_magnitude_within(result, n * (bound * bound));
}

/// Ranking moves rows about and changes no entry, so the component vectors
/// are no larger than the covariance matrix.
pub proof fn lemma_decomposition_magnitude(cov: Rationals, d: int)
    requires
        0 <= d,
        cov.numerators.len() == d * d,
    ensures
        max_magnitude(decomposition(cov, d).eigenvectors.numerators) <= max_magnitude(
            cov.numerators,
        ),
{
    let keys = diagonal(cov.numerators, d);
    let order = stable_descending_order(keys);
    lemma_stable_descending_order_exists(keys);
    let result = decomposition(cov, d).eigenvectors.numerators;
    let bound = max_magnitude(cov.numerators);
    lemma_max_magnitude_bounds(cov.numerators);
    assert forall|i: int| 0 <= i < result.len() implies -bound <= #[trigger] result[i]
        <= bound by {
        lemma_position(i, d, d);
        lemma_flat_index(order[i / d], i % d, d, d);
    }
    lemma_max_magnitude_within(result, bound);
}

} // verus!
