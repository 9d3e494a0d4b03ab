use variant_pca::analysis::{
    perform_full_analysis, AnalysisError, AnalysisResult, VariantMatrix, MAX_INDIVIDUALS,
};

fn genomes(texts: &[&str]) -> Vec<Vec<u8>> {
    texts.iter().map(|t| t.as_bytes().to_vec()).collect()
}

fn score(result: &AnalysisResult, row: usize, comp: usize) -> f64 {
    result.scores.numerators[row * result.components + comp] as f64
        / result.scores.denominator as f64
}

#[test]
fn one_individual_is_degenerate() {
    let reference = b"AACC".to_vec();
    let result = perform_full_analysis(&reference, &genomes(&["AACG"]));
    assert_eq!(result, Err(AnalysisError::DegenerateInput));
}

#[test]
fn no_individual_is_degenerate() {
    let reference = b"AACC".to_vec();
    let result = perform_full_analysis(&reference, &Vec::new());
    assert_eq!(result, Err(AnalysisError::DegenerateInput));
}

#[test]
fn two_individuals_of_the_example() {
    let reference = b"AACC".to_vec();
    let result = perform_full_analysis(&reference, &genomes(&["AACC", "AAGG"])).unwrap();
    assert_eq!(result.individuals, 2);
    assert_eq!(result.components, 4);
    assert_eq!(result.eigenvalues.numerators, vec![2, 2, 0, 0]);
    assert_eq!(result.eigenvalues.denominator, 4);
    assert_eq!(result.scores.numerators, vec![-4, -4, 0, 0, 4, 4, 0, 0]);
    assert_eq!(result.scores.denominator, 8);
    assert_eq!(score(&result, 0, 0), -0.5);
    assert_eq!(score(&result, 1, 1), 0.5);
    assert_eq!(score(&result, 1, 3), 0.0);
}

#[test]
fn shorter_individual_is_a_length_mismatch() {
    let reference = vec![b'A'; 10];
    let individuals = vec![vec![b'A'; 8]];
    let result = perform_full_analysis(&reference, &individuals);
    assert_eq!(
        result,
        Err(AnalysisError::LengthMismatch { individual: 0, length: 8, expected: 10 })
    );
}

#[test]
fn first_mismatch_is_reported() {
    let reference = b"ACGT".to_vec();
    let result = perform_full_analysis(&reference, &genomes(&["ACGT", "ACGTA", "AC", "ACGT"]));
    assert_eq!(
        result,
        Err(AnalysisError::LengthMismatch { individual: 1, length: 5, expected: 4 })
    );
}

#[test]
fn empty_reference_is_refused_first() {
    let reference: Vec<u8> = Vec::new();
    let result = perform_full_analysis(&reference, &genomes(&["ACGT", "AC"]));
    assert_eq!(result, Err(AnalysisError::ReferenceRead));
}

#[test]
fn running_twice_gives_the_same_result() {
    let reference = b"ACGTACGTAC".to_vec();
    let individuals = genomes(&["ACGTACGTAC", "ACGAACGTTC", "TCGTACGTAC", "ACGTACCCAC"]);
    let first = perform_full_analysis(&reference, &individuals);
    let second = perform_full_analysis(&reference, &individuals);
    assert!(first.is_ok());
    assert_eq!(first, second);
}

#[test]
fn three_individuals_exact_values() {
    // markers: 0 0 / 1 0 / 1 1, column sums 2 and 1
    let reference = b"AA".to_vec();
    let result = perform_full_analysis(&reference, &genomes(&["AA", "CA", "CC"])).unwrap();
    // centered times 3: -2 -1 / 1 -1 / 1 2
    // covariance times 9 * 2: 6 3 / 3 6, so both values are equal and keep their order
    assert_eq!(result.eigenvalues.numerators, vec![6, 6]);
    assert_eq!(result.eigenvalues.denominator, 18);
    assert_eq!(result.scores.numerators, vec![-15, -12, 3, -3, 12, 15]);
    assert_eq!(result.scores.denominator, 54);
}

#[test]
fn matrix_grows_one_row_at_a_time() {
    let mut matrix = VariantMatrix::new(b"AACC".to_vec()).unwrap();
    assert_eq!(matrix.individuals, 0);
    assert!(matrix.markers.is_empty());
    assert_eq!(matrix.add_individual(&b"AACC".to_vec()), Ok(()));
    assert_eq!(matrix.add_individual(&b"AAGG".to_vec()), Ok(()));
    assert_eq!(matrix.individuals, 2);
    assert_eq!(matrix.markers, vec![0, 0, 0, 0, 0, 0, 1, 1]);
    assert_eq!(matrix.reference, b"AACC".to_vec());
}

#[test]
fn refused_individual_leaves_the_matrix_alone() {
    let mut matrix = VariantMatrix::new(b"AACC".to_vec()).unwrap();
    assert_eq!(matrix.add_individual(&b"AACG".to_vec()), Ok(()));
    assert_eq!(
        matrix.add_individual(&b"AAC".to_vec()),
        Err(AnalysisError::LengthMismatch { individual: 1, length: 3, expected: 4 })
    );
    assert_eq!(matrix.individuals, 1);
    assert_eq!(matrix.markers, vec![0, 0, 0, 1]);
}

#[test]
fn matrix_of_one_row_cannot_be_analysed() {
    let mut matrix = VariantMatrix::new(b"AACC".to_vec()).unwrap();
    assert_eq!(matrix.add_individual(&b"AACG".to_vec()), Ok(()));
    assert_eq!(matrix.markers, vec![0, 0, 0, 1]);
    assert_eq!(matrix.analyse(), Err(AnalysisError::DegenerateInput));
}

#[test]
fn matrix_and_whole_run_agree() {
    let reference = b"ACGTAC".to_vec();
    let individuals = genomes(&["ACGTAC", "AGGTAC", "ACGTTT"]);
    let mut matrix = VariantMatrix::new(reference.clone()).unwrap();
    for genome in &individuals {
        assert_eq!(matrix.add_individual(genome), Ok(()));
    }
    assert_eq!(matrix.analyse(), perform_full_analysis(&reference, &individuals));
}

#[test]
fn empty_reference_starts_no_matrix() {
    assert!(matches!(VariantMatrix::new(Vec::new()), Err(AnalysisError::ReferenceRead)));
    assert_eq!(VariantMatrix::check_reference_length(0), Err(AnalysisError::ReferenceRead));
    assert_eq!(VariantMatrix::check_reference_length(1), Ok(()));
}

#[test]
fn lengths_are_checked_against_the_reference() {
    let mut matrix = VariantMatrix::new(vec![b'A'; 10]).unwrap();
    assert_eq!(matrix.check_length(10), Ok(()));
    assert_eq!(
        matrix.check_length(8),
        Err(AnalysisError::LengthMismatch { individual: 0, length: 8, expected: 10 })
    );
    assert_eq!(matrix.add_individual(&vec![b'C'; 10]), Ok(()));
    assert_eq!(
        matrix.check_length(0),
        Err(AnalysisError::LengthMismatch { individual: 1, length: 0, expected: 10 })
    );
}

#[test]
fn limit_on_individuals() {
    assert_eq!(MAX_INDIVIDUALS, 1 << 20);
}
