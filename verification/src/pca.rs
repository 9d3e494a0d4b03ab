//! The reduction of a marker matrix: centering, covariance, the ranking of
//! components by the covariance diagonal, and projection.

use vstd::prelude::*;
use crate::matrix::{entry, lemma_flat_index, lemma_position};
use crate::ranking::{
    is_stable_descending_order, lemma_stable_descending_order_unique, ranks_before, reordered,
    stable_descending_order,
};
use crate::scaled::{lemma_max_magnitude_bounds, max_magnitude, Rationals, Scaled};
use crate::theorems::lemma_decomposition_keeps_diagonal;

verus! {

/// The mathematical content of a [`PCAResult`].
pub struct Decomposition {
    pub eigenvalues: Rationals,
    pub eigenvectors: Rationals,
    pub num_components: int,
    pub dimension: int,
}

/// Component values and component vectors, ranked by descending value.
///
/// `eigenvectors` is a `num_components` by `dimension` matrix, stored row by
/// row; row `i` belongs to `eigenvalues` entry `i`.
#[derive(Debug, PartialEq, Eq)]
pub struct PCAResult {
    pub eigenvalues: Scaled,
    pub eigenvectors: Scaled,
    pub num_components: usize,
    pub dimension: usize,
}

impl View for PCAResult {
    type V = Decomposition;

    open spec fn view(&self) -> Decomposition {
        Decomposition {
            eigenvalues: self.eigenvalues@,
            eigenvectors: self.eigenvectors@,
            num_components: self.num_components as int,
            dimension: self.dimension as int,
        }
    }
}

impl PCAResult {
    /// Both parts are well formed, and their lengths fit the recorded shape.
    pub open spec fn wf(&self) -> bool {
        &&& self.eigenvalues.wf()
        &&& self.eigenvectors.wf()
        &&& self.eigenvalues.numerators.len() == self.num_components
        &&& self.eigenvectors.numerators.len() == self.num_components * self.dimension
    }
}

/// The sum of the first `rows` entries of column `col`.
pub open spec fn column_sum(m: Seq<int>, cols: int, col: int, rows: int) -> int
    decreases rows,
{
    if rows <= 0 {
        0
    } else {
        column_sum(m, cols, col, rows - 1) + entry(m, cols, rows - 1, col)
    }
}

/// The sum, over the first `rows` rows, of the product of the entries in
/// columns `a` and `b`.
pub open spec fn column_product_sum(m: Seq<int>, cols: int, a: int, b: int, rows: int) -> int
    decreases rows,
{
    if rows <= 0 {
        0
    } else {
        column_product_sum(m, cols, a, b, rows - 1) + entry(m, cols, rows - 1, a) * entry(
            m,
            cols,
            rows - 1,
            b,
        )
    }
}

/// The sum, over the first `upto` columns, of the product of the entries of
/// row `row_a` of `a` and row `row_b` of `b`; both matrices have `cols`
/// columns.
pub open spec fn row_product_sum(
    a: Seq<int>,
    row_a: int,
    b: Seq<int>,
    row_b: int,
    cols: int,
    upto: int,
) -> int
    decreases upto,
{
    if upto <= 0 {
        0
    } else {
        row_product_sum(a, row_a, b, row_b, cols, upto - 1) + entry(a, cols, row_a, upto - 1)
            * entry(b, cols, row_b, upto - 1)
    }
}

/// The `n` by `d` matrix `data` with the mean of its column taken from every
/// entry. With `x` the numerator of an entry over the denominator `q`, and
/// `s` the sum of the numerators of its column, the centered entry is
/// `x / q - (s / q) / n`, which is `(n * x - s) / (n * q)`.
pub open spec fn centered(data: Rationals, n: int, d: int) -> Rationals {
    Rationals {
        numerators: Seq::new(
            (n * d) as nat,
            |i: int| n * data.numerators[i] - column_sum(data.numerators, d, i % d, n),
        ),
        denominator: n * data.denominator,
    }
}

/// The `d` by `d` covariance matrix of the centered `n` by `d` matrix: entry
/// `(i, j)` is the sum over all rows of the product of the entries in columns
/// `i` and `j`, divided by `n - 1`.
pub open spec fn covariance(centered: Rationals, n: int, d: int) -> Rationals {
    Rationals {
        numerators: Seq::new(
            (d * d) as nat,
            |i: int| column_product_sum(centered.numerators, d, i / d, i % d, n),
        ),
        denominator: centered.denominator * centered.denominator * (n - 1),
    }
}

/// The scores of the `n` rows of the centered matrix: entry `(row, comp)` is
/// the dot product of row `row` of the centered matrix with row `comp` of the
/// component vectors.
pub open spec fn projection(centered: Rationals, n: int, d: int, components: Decomposition)
    -> Rationals {
    let k = components.num_components;
    Rationals {
        numerators: Seq::new(
            (n * k) as nat,
            |i: int|
                row_product_sum(
                    centered.numerators,
                    i / k,
                    components.eigenvectors.numerators,
                    i % k,
                    d,
                    d,
                ),
        ),
        denominator: centered.denominator * components.eigenvectors.denominator,
    }
}

proof fn lemma_product_within(x: int, y: int, x_bound: int, y_bound: int)
    by (nonlinear_arith)
    requires
        -x_bound <= x <= x_bound,
        -y_bound <= y <= y_bound,
    ensures
        -(x_bound * y_bound) <= x * y <= x_bound * y_bound,
{
}

proof fn lemma_count_steps(step: int, count: int, bound: int)
    by (nonlinear_arith)
    requires
        0 <= step < count,
        0 <= bound,
    ensures
        (step + 1) * bound == step * bound + bound,
        0 <= step * bound,
        (step + 1) * bound <= count * bound,
{
}

/// The diagonal of a `d` by `d` matrix.
pub open spec fn diagonal(m: Seq<int>, d: int) -> Seq<int> {
    Seq::new(d as nat, |i: int| entry(m, d, i, i))
}

/// The `d`-column matrix whose row `i` is row `order[i]` of `m`.
pub open spec fn rows_reordered(m: Seq<int>, d: int, order: Seq<int>) -> Seq<int> {
    Seq::new((order.len() * d) as nat, |i: int| entry(m, d, order[i / d], i % d))
}

/// What `eigen_decomposition` makes of a `d` by `d` covariance matrix: the
/// diagonal stands in for the component values, the rows for the component
/// vectors, and both are put in the stable descending order of the diagonal.
pub open spec fn decomposition(cov: Rationals, d: int) -> Decomposition {
    let keys = diagonal(cov.numerators, d);
    let order = stable_descending_order(keys);
    Decomposition {
        eigenvalues: Rationals {
            numerators: reordered(keys, order),
            denominator: cov.denominator,
        },
        eigenvectors: Rationals {
            numerators: rows_reordered(cov.numerators, d, order),
            denominator: cov.denominator,
        },
        num_components: d,
        dimension: d,
    }
}

/// Subtracts from every entry of the `n` by `d` matrix the mean of its
/// column. The mean is the column's sum divided by `n`.
#[verifier::loop_isolation(false)]
pub fn center_data(data: &Scaled, n: usize, d: usize) -> (centered_data: Scaled)
    requires
        data.wf(),
        n >= 1,
        data.numerators.len() == n * d,
        2 * n * max_magnitude(data@.numerators) <= i128::MAX,
        n * data.denominator <= i128::MAX,
    ensures
        centered_data.wf(),
        centered_data.numerators.len() == n * d,
        centered_data@ == centered(data@, n as int, d as int),
{
    let ghost source = data@.numerators;
    let ghost bound = max_magnitude(source);
    proof {
        lemma_max_magnitude_bounds(source);
        assert(2 * n * bound == 2 * (n * bound)) by (nonlinear_arith);
    }
    let mut sums: Vec<i128> = Vec::with_capacity(d);
    let mut col: usize = 0;
    while col < d
        invariant
            col <= d,
            sums.len() == col,
            forall|c: int|
                0 <= c < col ==> #[trigger] sums[c] as int == column_sum(
                    source,
                    d as int,
                    c,
                    n as int,
                ),
            forall|c: int| 0 <= c < col ==> -(n * bound) <= #[trigger] sums[c] <= n * bound,
        decreases d - col,
    {
        let mut sum: i128 = 0;
        let mut row: usize = 0;
        while row < n
            invariant
                row <= n,
                sum == column_sum(source, d as int, col as int, row as int),
                -(row * bound) <= sum <= row * bound,
                row * bound <= n * bound,
            decreases n - row,
        {
            proof {
                lemma_flat_index(row as int, col as int, n as int, d as int);
                lemma_count_steps(row as int, n as int, bound);
                assert(-bound <= source[row * d + col] <= bound);
            }
            sum = sum + data.numerators[row * d + col];
            row += 1;
        }
        sums.push(sum);
        col += 1;
    }
    let count: i128 = n as i128;
    let mut numerators: Vec<i128> = Vec::with_capacity(data.numerators.len());
    let mut row: usize = 0;
    while row < n
        invariant
            row <= n,
            numerators.len() == row * d,
            forall|i: int|
                0 <= i < row * d ==> #[trigger] numerators[i] as int == n * source[i] - column_sum(
                    source,
                    d as int,
                    i % (d as int),
                    n as int,
                ),
        decreases n - row,
    {
        let mut col: usize = 0;
        while col < d
            invariant
                col <= d,
                numerators.len() == row * d + col,
                forall|i: int|
                    0 <= i < row * d + col ==> #[trigger] numerators[i] as int == n * source[i]
                        - column_sum(source, d as int, i % (d as int), n as int),
            decreases d - col,
        {
            proof {
                lemma_flat_index(row as int, col as int, n as int, d as int);
                assert(-bound <= source[row * d + col] <= bound);
                lemma_product_within(n as int, source[row * d + col], n as int, bound);
            }
            let value: i128 = count * data.numerators[row * d + col] - sums[col];
            numerators.push(value);
            col += 1;
        }
        proof {
            assert((row + 1) * d == row * d + d) by (nonlinear_arith);
        }
        row += 1;
    }
    let centered_data = Scaled { numerators, denominator: count * data.denominator };
    proof {
        assert(centered_data@.numerators =~= centered(data@, n as int, d as int).numerators);
        assert(n * data.denominator >= 1) by (nonlinear_arith)
            requires
                n >= 1,
                data.denominator >= 1,
        ;
    }
    centered_data
}

/// Computes the `d` by `d` covariance matrix of a centered `n` by `d`
/// matrix: for every pair of columns, the sum over all rows of the product of
/// the two entries, divided by `n - 1`.
#[verifier::loop_isolation(false)]
pub fn compute_covariance_matrix(centered_data: &Scaled, n: usize, d: usize) -> (cov: Scaled)
    requires
        centered_data.wf(),
        n >= 2,
        centered_data.numerators.len() == n * d,
        n * (max_magnitude(centered_data@.numerators) * max_magnitude(centered_data@.numerators))
            <= i128::MAX,
        centered_data.denominator * centered_data.denominator * (n - 1) <= i128::MAX,
    ensures
        cov.wf(),
        cov.numerators.len() == d * d,
        cov@ == covariance(centered_data@, n as int, d as int),
{
    let ghost source = centered_data@.numerators;
    let ghost bound = max_magnitude(source);
    let ghost square = bound * bound;
    proof {
        lemma_max_magnitude_bounds(source);
        assert(0 <= bound * bound) by (nonlinear_arith);
    }
    let mut numerators: Vec<i128> = Vec::new();
    let mut i: usize = 0;
    while i < d
        invariant
            i <= d,
            numerators.len() == i * d,
            forall|t: int|
                0 <= t < i * d ==> #[trigger] numerators[t] as int == column_product_sum(
                    source,
                    d as int,
                    t / (d as int),
                    t % (d as int),
                    n as int,
                ),
        decreases d - i,
    {
        let mut j: usize = 0;
        while j < d
            invariant
                j <= d,
                numerators.len() == i * d + j,
                forall|t: int|
                    0 <= t < i * d + j ==> #[trigger] numerators[t] as int == column_product_sum(
                        source,
                        d as int,
                        t / (d as int),
                        t % (d as int),
                        n as int,
                    ),
            decreases d - j,
        {
            let mut sum: i128 = 0;
            let mut k: usize = 0;
            while k < n
                invariant
                    k <= n,
                    sum == column_product_sum(source, d as int, i as int, j as int, k as int),
                    -(k * square) <= sum <= k * square,
                    k * square <= n * square,
                decreases n - k,
            {
                proof {
                    lemma_flat_index(k as int, i as int, n as int, d as int);
                    lemma_flat_index(k as int, j as int, n as int, d as int);
                    lemma_count_steps(k as int, n as int, square);
                    assert(-bound <= source[k * d + i] <= bound);
                    assert(-bound <= source[k * d + j] <= bound);
                    lemma_product_within(source[k * d + i], source[k * d + j], bound, bound);
                }
                let product: i128 = centered_data.numerators[k * d + i]
                    * centered_data.numerators[k * d + j];
                sum = sum + product;
                k += 1;
            }
            proof {
                lemma_flat_index(i as int, j as int, d as int, d as int);
            }
            numerators.push(sum);
            j += 1;
        }
        proof {
            assert((i + 1) * d == i * d + d) by (nonlinear_arith);
        }
        i += 1;
    }
    proof {
        let q = centered_data.denominator as int;
        assert(1 <= q * q <= q * q * (n - 1)) by (nonlinear_arith)
            requires
                q >= 1,
                n >= 2,
        ;
    }
    let squared: i128 = centered_data.denominator * centered_data.denominator;
    let cov = Scaled { numerators, denominator: squared * ((n - 1) as i128) };
    proof {
        assert(cov@.numerators =~= covariance(centered_data@, n as int, d as int).numerators);
    }
    cov
}

/// While the components are being ranked: `order[i]` is the row of the
/// covariance matrix `source` whose value and vector stand at `i`, `place`
/// undoes `order`, and rows with equal values stand in the order of their
/// indices.
spec fn follows(
    eigenvalues: Seq<i128>,
    eigenvectors: Seq<i128>,
    source: Seq<int>,
    d: int,
    order: Seq<int>,
    place: Seq<int>,
) -> bool {
    let keys = diagonal(source, d);
    &&& eigenvalues.len() == d
    &&& eigenvectors.len() == d * d
    &&& order.len() == d
    &&& place.len() == d
    &&& forall|i: int| 0 <= i < d ==> 0 <= #[trigger] order[i] < d
    &&& forall|x: int| 0 <= x < d ==> 0 <= #[trigger] place[x] < d && order[place[x]] == x
    &&& forall|i: int| 0 <= i < d ==> #[trigger] eigenvalues[i] as int == keys[order[i]]
    &&& forall|i: int|
        0 <= i < d * d ==> #[trigger] eigenvectors[i] as int == entry(
            source,
            d,
            order[i / d],
            i % d,
        )
    &&& forall|a: int, b: int|
        #![trigger order[a], order[b]]
        0 <= a < b < d && keys[order[a]] == keys[order[b]] ==> order[a] < order[b]
}

/// Exchanges rows `a` and `a + 1` of a matrix with `d` columns.
#[verifier::loop_isolation(false)]
fn swap_adjacent_rows(m: &mut Vec<i128>, d: usize, a: usize)
    requires
        (a + 2) * d <= old(m).len(),
    ensures
        final(m).len() == old(m).len(),
        forall|i: int|
            0 <= i < old(m).len() ==> #[trigger] final(m)[i] == old(m)[if a * d <= i < (a + 1) * d {
                i + d
            } else if (a + 1) * d <= i < (a + 2) * d {
                i - d
            } else {
                i
            }],
{
    assert((a + 2) * d == a * d + d + d && (a + 1) * d == a * d + d) by (nonlinear_arith);
    let first: usize = a * d;
    let second: usize = first + d;
    let mut col: usize = 0;
    while col < d
        invariant
            col <= d,
            m.len() == old(m).len(),
            forall|i: int|
                0 <= i < m.len() ==> #[trigger] m[i] == old(m)[if first <= i < first + col {
                    i + d
                } else if second <= i < second + col {
                    i - d
                } else {
                    i
                }],
        decreases d - col,
    {
        let upper: i128 = m[first + col];
        let lower: i128 = m[second + col];
        m.set(first + col, lower);
        m.set(second + col, upper);
        col += 1;
    }
}

/// Ranks the components of a `d` by `d` covariance matrix.
///
/// The diagonal entries are taken as the component values and the rows as the
/// component vectors. The values are put in descending order by exchanging
/// neighbours, and whenever two values are exchanged the two rows are
/// exchanged with them. Equal values stay in the order of their rows. No
/// component is dropped.
#[verifier::loop_isolation(false)]
pub fn eigen_decomposition(cov_matrix: &Scaled, d: usize) -> (result: PCAResult)
    requires
        cov_matrix.wf(),
        cov_matrix.numerators.len() == d * d,
    ensures
        result.wf(),
        result@ == decomposition(cov_matrix@, d as int),
        forall|i: int, j: int|
            0 <= i <= j < d ==> result@.eigenvalues.numerators[i]
                >= result@.eigenvalues.numerators[j],
        result@.eigenvalues.numerators.to_multiset() == diagonal(
            cov_matrix@.numerators,
            d as int,
        ).to_multiset(),
{
    let ghost source = cov_matrix@.numerators;
    let ghost keys = diagonal(source, d as int);
    let mut eigenvectors: Vec<i128> = cov_matrix.numerators.clone();
    assert(eigenvectors@ =~= cov_matrix.numerators@);
    let mut eigenvalues: Vec<i128> = Vec::with_capacity(d);
    let mut k: usize = 0;
    while k < d
        invariant
            k <= d,
            eigenvalues.len() == k,
            forall|i: int| 0 <= i < k ==> #[trigger] eigenvalues[i] as int == keys[i],
        decreases d - k,
    {
        proof {
            lemma_flat_index(k as int, k as int, d as int, d as int);
        }
        eigenvalues.push(eigenvectors[k * d + k]);
        k += 1;
    }
    // `order[i]` is the row of the covariance matrix that now stands at `i`,
    // and `place[x]` is where row `x` now stands
    let ghost mut order: Seq<int> = Seq::new(d as nat, |i: int| i);
    let ghost mut place: Seq<int> = Seq::new(d as nat, |i: int| i);
    assert forall|i: int| 0 <= i < d * d implies #[trigger] eigenvectors[i] as int == entry(
        source,
        d as int,
        order[i / (d as int)],
        i % (d as int),
    ) by {
        lemma_position(i, d as int, d as int);
    }
    let passes: usize = if d == 0 {
        0
    } else {
        d - 1
    };
    let mut pass: usize = 0;
    while pass < passes
        invariant
            pass <= passes,
            follows(eigenvalues@, eigenvectors@, source, d as int, order, place),
            forall|a: int, b: int|
                #![trigger order[a], order[b]]
                0 <= a < b < d && b >= d - pass ==> keys[order[a]] >= keys[order[b]],
        decreases passes - pass,
    {
        let mut j: usize = 0;
        while j < d - pass - 1
            invariant
                j <= d - pass - 1,
                follows(eigenvalues@, eigenvectors@, source, d as int, order, place),
                forall|a: int, b: int|
                    #![trigger order[a], order[b]]
                    0 <= a < b < d && b >= d - pass ==> keys[order[a]] >= keys[order[b]],
                forall|a: int|
                    #![trigger order[a]]
                    0 <= a <= j ==> keys[order[a]] >= keys[order[j as int]],
            decreases d - pass - 1 - j,
        {
            if eigenvalues[j] < eigenvalues[j + 1] {
                let upper: i128 = eigenvalues[j];
                let lower: i128 = eigenvalues[j + 1];
                eigenvalues.set(j, lower);
                eigenvalues.set(j + 1, upper);
                let ghost before = eigenvectors@;
                let ghost old_order = order;
                proof {
                    lemma_flat_index(j as int + 1, d as int - 1, d as int, d as int);
                    assert((j + 2) * d == (j + 1) * d + d) by (nonlinear_arith);
                }
                swap_adjacent_rows(&mut eigenvectors, d, j);
                proof {
                    let first = order[j as int];
                    let second = order[j as int + 1];
                    order = order.update(j as int, second).update(j as int + 1, first);
                    place = place.update(first, j as int + 1).update(second, j as int);
                    assert forall|i: int| 0 <= i < d * d implies #[trigger] eigenvectors[i] as int
                        == entry(source, d as int, order[i / (d as int)], i % (d as int)) by {
                        lemma_position(i, d as int, d as int);
                        let row = i / (d as int);
                        let col = i % (d as int);
                        assert((j + 1) * d == j * d + d && (j + 2) * d == j * d + d + d)
                            by (nonlinear_arith);
                        if j * d <= i < (j + 1) * d {
                            lemma_flat_index(j as int, i - j * d, d as int, d as int);
                            lemma_flat_index(j as int + 1, i - j * d, d as int, d as int);
                            assert(row == j && col == i - j * d);
                            assert(before[i + d] as int == entry(
                                source,
                                d as int,
                                old_order[(i + d) / (d as int)],
                                (i + d) % (d as int),
                            ));
                        } else if (j + 1) * d <= i < (j + 2) * d {
                            lemma_flat_index(j as int + 1, i - (j + 1) * d, d as int, d as int);
                            lemma_flat_index(j as int, i - (j + 1) * d, d as int, d as int);
                            assert(row == j + 1 && col == i - (j + 1) * d);
                            assert(before[i - d] as int == entry(
                                source,
                                d as int,
                                old_order[(i - d) / (d as int)],
                                (i - d) % (d as int),
                            ));
                        } else {
                            assert(row != j && row != j + 1) by {
                                if row == j || row == j + 1 {
                                    lemma_flat_index(row, col, d as int, d as int);
                                    assert(row * d + col == i);
                                    assert(j * d <= row * d + col < (j + 2) * d) by (nonlinear_arith)
                                        requires
                                            row == j || row == j + 1,
                                            0 <= col < d,
                                    ;
                                }
                            }
                            assert(before[i] as int == entry(
                                source,
                                d as int,
                                old_order[i / (d as int)],
                                i % (d as int),
                            ));
                        }
                    }
                }
            }
            j += 1;
        }
        pass += 1;
    }
    proof {
        assert(is_stable_descending_order(order, keys)) by {
            assert forall|x: int| 0 <= x < keys.len() implies #[trigger] order.contains(x) by {
                assert(order[place[x]] == x);
            }
            assert forall|i: int, j: int|
                #![trigger order[i], order[j]]
                0 <= i < j < order.len() implies ranks_before(keys, order[i], order[j]) by {
                assert(j >= d - pass);
            }
        }
        lemma_stable_descending_order_unique(order, stable_descending_order(keys), keys);
    }
    let result = PCAResult {
        eigenvalues: Scaled { numerators: eigenvalues, denominator: cov_matrix.denominator },
        eigenvectors: Scaled { numerators: eigenvectors, denominator: cov_matrix.denominator },
        num_components: d,
        dimension: d,
    };
    proof {
        assert(result@.eigenvalues.numerators =~= reordered(keys, order));
        assert(result@.eigenvectors.numerators =~= rows_reordered(source, d as int, order));
        lemma_decomposition_keeps_diagonal(cov_matrix@, d as int);
    }
    result
}

/// Scores every row of the centered `n` by `d` matrix against every
/// component: the dot product of the row with the component's vector, which
/// is a row of `pca_result.eigenvectors`.
#[verifier::loop_isolation(false)]
pub fn project_data(centered_data: &Scaled, n: usize, d: usize, pca_result: &PCAResult) -> (scores:
    Scaled)
    requires
        centered_data.wf(),
        pca_result.wf(),
        pca_result.dimension == d,
        centered_data.numerators.len() == n * d,
        d * (max_magnitude(centered_data@.numerators) * max_magnitude(
            pca_result@.eigenvectors.numerators,
        )) <= i128::MAX,
        centered_data.denominator * pca_result.eigenvectors.denominator <= i128::MAX,
    ensures
        scores.wf(),
        scores.numerators.len() == n * pca_result.num_components,
        scores@ == projection(centered_data@, n as int, d as int, pca_result@),
{
    let dims_to_use = pca_result.num_components;
    let ghost rows = centered_data@.numerators;
    let ghost vectors = pca_result@.eigenvectors.numerators;
    let ghost row_bound = max_magnitude(rows);
    let ghost vector_bound = max_magnitude(vectors);
    let ghost product_bound = row_bound * vector_bound;
    proof {
        lemma_max_magnitude_bounds(rows);
        lemma_max_magnitude_bounds(vectors);
        assert(0 <= row_bound * vector_bound) by (nonlinear_arith)
            requires
                0 <= row_bound,
                0 <= vector_bound,
        ;
    }
    let mut numerators: Vec<i128> = Vec::new();
    let mut row: usize = 0;
    while row < n
        invariant
            row <= n,
            numerators.len() == row * dims_to_use,
            forall|t: int|
                0 <= t < row * dims_to_use ==> #[trigger] numerators[t] as int == row_product_sum(
                    rows,
                    t / (dims_to_use as int),
                    vectors,
                    t % (dims_to_use as int),
                    d as int,
                    d as int,
                ),
        decreases n - row,
    {
        let mut comp: usize = 0;
        while comp < dims_to_use
            invariant
                comp <= dims_to_use,
                numerators.len() == row * dims_to_use + comp,
                forall|t: int|
                    0 <= t < row * dims_to_use + comp ==> #[trigger] numerators[t] as int
                        == row_product_sum(
                        rows,
                        t / (dims_to_use as int),
                        vectors,
                        t % (dims_to_use as int),
                        d as int,
                        d as int,
                    ),
            decreases dims_to_use - comp,
        {
            let mut sum: i128 = 0;
            let mut col: usize = 0;
            while col < d
                invariant
                    col <= d,
                    sum == row_product_sum(
                        rows,
                        row as int,
                        vectors,
                        comp as int,
                        d as int,
                        col as int,
                    ),
                    -(col * product_bound) <= sum <= col * product_bound,
                    col * product_bound <= d * product_bound,
                decreases d - col,
            {
                proof {
                    lemma_flat_index(row as int, col as int, n as int, d as int);
                    lemma_flat_index(comp as int, col as int, dims_to_use as int, d as int);
                    lemma_count_steps(col as int, d as int, product_bound);
                    assert(-row_bound <= rows[row * d + col] <= row_bound);
                    assert(-vector_bound <= vectors[comp * d + col] <= vector_bound);
                    lemma_product_within(
                        rows[row * d + col],
                        vectors[comp * d + col],
                        row_bound,
                        vector_bound,
                    );
                }
                let product: i128 = centered_data.numerators[row * d + col]
                    * pca_result.eigenvectors.numerators[comp * d + col];
                sum = sum + product;
                col += 1;
            }
            proof {
                lemma_flat_index(row as int, comp as int, n as int, dims_to_use as int);
            }
            numerators.push(sum);
            comp += 1;
        }
        proof {
            assert((row + 1) * dims_to_use == row * dims_to_use + dims_to_use)
                by (nonlinear_arith);
        }
        row += 1;
    }
    proof {
        let p = centered_data.denominator as int;
        let q = pca_result.eigenvectors.denominator as int;
        assert(1 <= p * q) by (nonlinear_arith)
            requires
                p >= 1,
                q >= 1,
        ;
    }
    let scores = Scaled {
        numerators,
        denominator: centered_data.denominator * pca_result.eigenvectors.denominator,
    };
    proof {
        assert(scores@.numerators =~= projection(
            centered_data@,
            n as int,
            d as int,
            pca_result@,
        ).numerators);
    }
    scores
}

} // verus!
