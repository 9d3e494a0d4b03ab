use variant_pca::pca::{
    center_data, compute_covariance_matrix, eigen_decomposition, project_data, PCAResult,
};
use variant_pca::scaled::Scaled;

fn value(s: &Scaled, i: usize) -> f64 {
    s.numerators[i] as f64 / s.denominator as f64
}

fn example_matrix() -> Scaled {
    Scaled::from_integers(vec![0, 0, 0, 0, 0, 0, 1, 1])
}

#[test]
fn from_integers_has_denominator_one() {
    let s = Scaled::from_integers(vec![3, -4, 5]);
    assert_eq!(s.numerators, vec![3, -4, 5]);
    assert_eq!(s.denominator, 1);
}

#[test]
fn centering_the_example() {
    let centered = center_data(&example_matrix(), 2, 4);
    assert_eq!(centered.numerators, vec![0, 0, -1, -1, 0, 0, 1, 1]);
    assert_eq!(centered.denominator, 2);
    let expected = [0.0, 0.0, -0.5, -0.5, 0.0, 0.0, 0.5, 0.5];
    for i in 0..8 {
        assert_eq!(value(&centered, i), expected[i]);
    }
}

#[test]
fn centered_columns_sum_to_zero() {
    let data = Scaled::from_integers(vec![1, 0, 7, 0, 1, -2, 1, 1, 4, 0, 0, 9]);
    let centered = center_data(&data, 4, 3);
    assert_eq!(centered.denominator, 4);
    for col in 0..3 {
        let mut sum: i128 = 0;
        for row in 0..4 {
            sum += centered.numerators[row * 3 + col];
        }
        assert_eq!(sum, 0);
    }
    // column 0 holds 1, 0, 1, 0: its sum is 2, so 4 * 1 - 2 = 2 and 4 * 0 - 2 = -2
    assert_eq!(centered.numerators[0], 2);
    assert_eq!(centered.numerators[3], -2);
    // column 2 holds 7, -2, 4, 9: its sum is 18
    assert_eq!(centered.numerators[2], 4 * 7 - 18);
    assert_eq!(centered.numerators[5], 4 * -2 - 18);
}

#[test]
fn centering_keeps_an_earlier_denominator() {
    let data = Scaled { numerators: vec![1, 3, 5], denominator: 10 };
    let centered = center_data(&data, 3, 1);
    assert_eq!(centered.denominator, 30);
    assert_eq!(centered.numerators, vec![3 - 9, 9 - 9, 15 - 9]);
}

#[test]
fn centering_a_single_row_gives_zeros() {
    let data = Scaled::from_integers(vec![0, 0, 0, 1]);
    let centered = center_data(&data, 1, 4);
    assert_eq!(centered.numerators, vec![0, 0, 0, 0]);
    assert_eq!(centered.denominator, 1);
}

#[test]
fn covariance_of_the_example() {
    let centered = center_data(&example_matrix(), 2, 4);
    let cov = compute_covariance_matrix(&centered, 2, 4);
    assert_eq!(cov.denominator, 4);
    assert_eq!(
        cov.numerators,
        vec![0, 0, 0, 0, 0, 0, 0, 0, 0, 0, 2, 2, 0, 0, 2, 2]
    );
    assert_eq!(value(&cov, 10), 0.5);
    assert_eq!(value(&cov, 11), 0.5);
    assert_eq!(value(&cov, 14), 0.5);
    assert_eq!(value(&cov, 15), 0.5);
}

#[test]
fn covariance_is_symmetric() {
    let data = Scaled::from_integers(vec![1, 0, 7, 0, 1, -2, 1, 1, 4, 0, 0, 9]);
    let centered = center_data(&data, 4, 3);
    let cov = compute_covariance_matrix(&centered, 4, 3);
    assert_eq!(cov.numerators.len(), 9);
    assert_eq!(cov.denominator, 4 * 4 * 3);
    for i in 0..3 {
        for j in 0..3 {
            assert_eq!(cov.numerators[i * 3 + j], cov.numerators[j * 3 + i]);
        }
    }
    // column 0 centered: 2, -2, 2, -2; column 1 centered: -2, 2, 2, -2
    assert_eq!(cov.numerators[0], 16);
    assert_eq!(cov.numerators[1], -4 - 4 + 4 + 4);
}

#[test]
fn covariance_divides_by_one_less_than_the_rows() {
    let centered = Scaled { numerators: vec![-1, 0, 1], denominator: 1 };
    let cov = compute_covariance_matrix(&centered, 3, 1);
    assert_eq!(cov.numerators, vec![2]);
    assert_eq!(cov.denominator, 2);
    assert_eq!(value(&cov, 0), 1.0);
}

#[test]
fn decomposition_of_the_example() {
    let centered = center_data(&example_matrix(), 2, 4);
    let cov = compute_covariance_matrix(&centered, 2, 4);
    let result = eigen_decomposition(&cov, 4);
    assert_eq!(result.num_components, 4);
    assert_eq!(result.dimension, 4);
    assert_eq!(result.eigenvalues.numerators, vec![2, 2, 0, 0]);
    assert_eq!(result.eigenvalues.denominator, 4);
    assert_eq!(
        result.eigenvectors.numerators,
        vec![0, 0, 2, 2, 0, 0, 2, 2, 0, 0, 0, 0, 0, 0, 0, 0]
    );
    assert_eq!(result.eigenvectors.denominator, 4);
}

#[test]
fn decomposition_moves_rows_with_their_values() {
    let cov = Scaled { numerators: vec![1, 10, 11, 20, 5, 21, 30, 31, 3], denominator: 7 };
    let result = eigen_decomposition(&cov, 3);
    assert_eq!(result.eigenvalues.numerators, vec![5, 3, 1]);
    assert_eq!(result.eigenvectors.numerators, vec![20, 5, 21, 30, 31, 3, 1, 10, 11]);
    assert_eq!(result.eigenvalues.denominator, 7);
    assert_eq!(result.eigenvectors.denominator, 7);
}

#[test]
fn decomposition_is_descending_and_keeps_the_diagonal() {
    let d = 5;
    let mut numerators: Vec<i128> = Vec::new();
    let diagonal: Vec<i128> = vec![3, -1, 8, 3, 0];
    for i in 0..d {
        for j in 0..d {
            if i == j {
                numerators.push(diagonal[i]);
            } else {
                numerators.push(100 + (i * d + j) as i128);
            }
        }
    }
    let cov = Scaled { numerators: numerators.clone(), denominator: 1 };
    let result = eigen_decomposition(&cov, d);
    let values = &result.eigenvalues.numerators;
    for i in 0..d - 1 {
        assert!(values[i] >= values[i + 1]);
    }
    let mut sorted_in = diagonal.clone();
    sorted_in.sort();
    let mut sorted_out = values.clone();
    sorted_out.sort();
    assert_eq!(sorted_in, sorted_out);
    assert_eq!(values, &vec![8, 3, 3, 0, -1]);
    // every component's vector is the row its value came from
    let sources = [2usize, 0, 3, 4, 1];
    for i in 0..d {
        let source = sources[i];
        assert_eq!(values[i], numerators[source * d + source]);
        for col in 0..d {
            assert_eq!(
                result.eigenvectors.numerators[i * d + col],
                numerators[source * d + col]
            );
        }
        assert_eq!(result.eigenvectors.numerators[i * d + source], values[i]);
    }
}

#[test]
fn equal_values_keep_their_order() {
    let cov = Scaled { numerators: vec![4, 1, 2, 3, 7, 5, 6, 8, 4], denominator: 1 };
    let result = eigen_decomposition(&cov, 3);
    assert_eq!(result.eigenvalues.numerators, vec![7, 4, 4]);
    assert_eq!(result.eigenvectors.numerators, vec![3, 7, 5, 4, 1, 2, 6, 8, 4]);
}

#[test]
fn decomposition_of_one_by_one_and_of_nothing() {
    let one = Scaled { numerators: vec![9], denominator: 2 };
    let result = eigen_decomposition(&one, 1);
    assert_eq!(result.eigenvalues.numerators, vec![9]);
    assert_eq!(result.eigenvectors.numerators, vec![9]);
    assert_eq!(result.num_components, 1);
    let none = Scaled { numerators: vec![], denominator: 1 };
    let result = eigen_decomposition(&none, 0);
    assert!(result.eigenvalues.numerators.is_empty());
    assert!(result.eigenvectors.numerators.is_empty());
    assert_eq!(result.num_components, 0);
    assert_eq!(result.dimension, 0);
}

#[test]
fn projection_of_the_example() {
    let centered = center_data(&example_matrix(), 2, 4);
    let cov = compute_covariance_matrix(&centered, 2, 4);
    let result = eigen_decomposition(&cov, 4);
    let scores = project_data(&centered, 2, 4, &result);
    assert_eq!(scores.numerators, vec![-4, -4, 0, 0, 4, 4, 0, 0]);
    assert_eq!(scores.denominator, 8);
    let expected = [-0.5, -0.5, 0.0, 0.0, 0.5, 0.5, 0.0, 0.0];
    for i in 0..8 {
        assert_eq!(value(&scores, i), expected[i]);
    }
}

#[test]
fn projection_uses_rows_of_the_vectors() {
    let centered = Scaled { numerators: vec![1, 2, 3, 4], denominator: 3 };
    let components = PCAResult {
        eigenvalues: Scaled { numerators: vec![0, 0], denominator: 5 },
        eigenvectors: Scaled { numerators: vec![10, 20, 30, 40], denominator: 5 },
        num_components: 2,
        dimension: 2,
    };
    let scores = project_data(&centered, 2, 2, &components);
    // rows, not columns: (1, 2) . (10, 20) = 50 and (1, 2) . (30, 40) = 110
    assert_eq!(scores.numerators, vec![50, 110, 110, 250]);
    assert_eq!(scores.denominator, 15);
}

#[test]
fn projection_of_zeros_is_zero() {
    let centered = Scaled { numerators: vec![0; 6], denominator: 2 };
    let components = PCAResult {
        eigenvalues: Scaled { numerators: vec![5, 4, 3], denominator: 4 },
        eigenvectors: Scaled { numerators: vec![1, 2, 3, 4, 5, 6, 7, 8, 9], denominator: 4 },
        num_components: 3,
        dimension: 3,
    };
    let scores = project_data(&centered, 2, 3, &components);
    assert_eq!(scores.numerators, vec![0; 6]);
    assert_eq!(scores.denominator, 8);
}

#[test]
fn largest_magnitude_of_numerators() {
    assert_eq!(Scaled::from_integers(vec![]).largest_magnitude(), 0);
    assert_eq!(Scaled::from_integers(vec![3, -7, 5]).largest_magnitude(), 7);
    assert_eq!(Scaled::from_integers(vec![0, 0]).largest_magnitude(), 0);
    assert_eq!(Scaled::from_integers(vec![i128::MAX, 1]).largest_magnitude(), i128::MAX as u128);
    assert_eq!(Scaled::from_integers(vec![1, i128::MIN]).largest_magnitude(), 1u128 << 127);
}
