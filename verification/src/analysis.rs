//! The whole run: one reference genome, the individuals in input order, the
//! marker matrix they give, and its reduction.

use vstd::prelude::*;
use crate::matrix::lemma_flat_index;
use crate::pca::{
    center_data, centered, compute_covariance_matrix, covariance, decomposition,
    eigen_decomposition, project_data, projection,
};
use crate::scaled::{
    lemma_max_magnitude_bounds, lemma_max_magnitude_within, max_magnitude, Rationals, Scaled,
};
use crate::theorems::{
    lemma_centered_magnitude, lemma_covariance_magnitude, lemma_decomposition_magnitude,
};
use crate::variant_calling::{call_variants, marker, variant_vector};

verus! {

/// The largest number of individuals in one run. It keeps every numerator of
/// the reduction inside the range of `i128`.
pub const MAX_INDIVIDUALS: usize = 1_048_576;

/// Why a run was abandoned. Every error ends the run: a matrix is only
/// meaningful when all its rows cover the same positions.
#[derive(Debug, Clone, Copy, PartialEq, Eq, Structural)]
pub enum AnalysisError {
    /// The reference genome is missing, unreadable or empty.
    ReferenceRead,
    /// The individual at this place in the input has a genome whose length
    /// differs from the reference's.
    LengthMismatch { individual: usize, length: usize, expected: usize },
    /// Fewer than two individuals: the covariance would divide by zero.
    DegenerateInput,
}

/// The mathematical content of an [`AnalysisResult`].
pub struct Outcome {
    pub scores: Rationals,
    pub eigenvalues: Rationals,
}

/// What a run hands on: the score of every individual on every component,
/// row by row, and the component values in descending order.
#[derive(Debug, PartialEq, Eq)]
pub struct AnalysisResult {
    pub scores: Scaled,
    pub eigenvalues: Scaled,
    pub individuals: usize,
    pub components: usize,
}

impl View for AnalysisResult {
    type V = Outcome;

    open spec fn view(&self) -> Outcome {
        Outcome { scores: self.scores@, eigenvalues: self.eigenvalues@ }
    }
}

/// The reduction of an `n` by `d` matrix of integers: centering, covariance,
/// ranking and projection, in this order.
pub open spec fn reduction(markers: Seq<int>, n: int, d: int) -> Outcome {
    let data = Rationals { numerators: markers, denominator: 1 };
    let middle = centered(data, n, d);
    let components = decomposition(covariance(middle, n, d), d);
    Outcome { scores: projection(middle, n, d, components), eigenvalues: components.eigenvalues }
}

/// The marker matrix of the individuals against the reference, row by row in
/// input order.
pub open spec fn marker_matrix(reference: Seq<u8>, individuals: Seq<Vec<u8>>) -> Seq<int> {
    Seq::new(
        (individuals.len() * reference.len()) as nat,
        |i: int|
            marker(
                reference[i % (reference.len() as int)],
                individuals[i / (reference.len() as int)]@[i % (reference.len() as int)],
            ) as int,
    )
}

/// The integers of a marker sequence.
pub open spec fn integers(markers: Seq<i128>) -> Seq<int> {
    Seq::new(markers.len(), |i: int| markers[i] as int)
}

/// The marker matrix of a run, grown one individual at a time.
pub struct VariantMatrix {
    pub reference: Vec<u8>,
    pub markers: Vec<i128>,
    pub individuals: usize,
}

impl VariantMatrix {
    /// The reference is not empty, there is one row of markers for each
    /// individual, and every marker is 0 or 1.
    pub open spec fn wf(&self) -> bool {
        &&& self.reference.len() >= 1
        &&& self.markers.len() == self.individuals * self.reference.len()
        &&& forall|i: int|
            0 <= i < self.markers.len() ==> #[trigger] self.markers[i] == 0 || self.markers[i] == 1
    }

    /// Accepts the length of a reference genome, unless it is zero.
    pub fn check_reference_length(length: usize) -> (result: Result<(), AnalysisError>)
        ensures
            length == 0 ==> result == Err::<(), AnalysisError>(AnalysisError::ReferenceRead),
            length != 0 ==> result.is_ok(),
    {
        if length == 0 {
            Err(AnalysisError::ReferenceRead)
        } else {
            Ok(())
        }
    }

    /// Starts a run on the given reference genome, with no individual yet.
    pub fn new(reference: Vec<u8>) -> (result: Result<VariantMatrix, AnalysisError>)
        ensures
            reference.len() == 0 ==> result == Err::<VariantMatrix, AnalysisError>(
                AnalysisError::ReferenceRead,
            ),
            reference.len() != 0 ==> result.is_ok() && result.unwrap().wf()
                && result.unwrap().reference == reference && result.unwrap().individuals == 0
                && result.unwrap().markers@ == Seq::<i128>::empty(),
    {
        if reference.len() == 0 {
            Err(AnalysisError::ReferenceRead)
        } else {
            let matrix = VariantMatrix { reference, markers: Vec::new(), individuals: 0 };
            assert(matrix.individuals * matrix.reference.len() == 0) by (nonlinear_arith)
                requires
                    matrix.individuals == 0,
            ;
            Ok(matrix)
        }
    }

    /// Accepts the length of the next individual's genome if it is the
    /// reference's length, and names the individual otherwise.
    pub fn check_length(&self, length: usize) -> (result: Result<(), AnalysisError>)
        ensures
            length == self.reference.len() ==> result.is_ok(),
            length != self.reference.len() ==> result == Err::<(), AnalysisError>(
                AnalysisError::LengthMismatch {
                    individual: self.individuals,
                    length,
                    expected: self.reference.len(),
                },
            ),
    {
        if length != self.reference.len() {
            Err(
                AnalysisError::LengthMismatch {
                    individual: self.individuals,
                    length,
                    expected: self.reference.len(),
                },
            )
        } else {
            Ok(())
        }
    }

    /// Calls the variants of the next individual and appends them as a new
    /// row. A genome of another length than the reference is refused, and the
    /// matrix stays as it was.
    pub fn add_individual(&mut self, genome: &Vec<u8>) -> (result: Result<(), AnalysisError>)
        requires
            old(self).wf(),
        ensures
            final(self).wf(),
            final(self).reference == old(self).reference,
            genome.len() == old(self).reference.len() ==> result.is_ok() && final(self).individuals
                == old(self).individuals + 1 && final(self).markers@ == old(self).markers@
                + variant_vector(old(self).reference@, genome@),
            genome.len() != old(self).reference.len() ==> *final(self) == *old(self) && result
                == Err::<(), AnalysisError>(
                AnalysisError::LengthMismatch {
                    individual: old(self).individuals,
                    length: genome.len(),
                    expected: old(self).reference.len(),
                },
            ),
    {
        if genome.len() != self.reference.len() {
            return Err(
                AnalysisError::LengthMismatch {
                    individual: self.individuals,
                    length: genome.len(),
                    expected: self.reference.len(),
                },
            );
        }
        let mut variants = call_variants(&self.reference, genome);
        let ghost before = self.markers@;
        let ghost row = variants@;
        self.markers.append(&mut variants);
        proof {
            assert(self.markers@ == before + row);
            assert((self.individuals + 1) * self.reference.len() == self.individuals
                * self.reference.len() + self.reference.len()) by (nonlinear_arith);
            assert(self.reference.len() >= 1);
            assert(self.individuals < usize::MAX) by (nonlinear_arith)
                requires
                    self.markers.len() == (self.individuals + 1) * self.reference.len(),
                    self.reference.len() >= 1,
                    self.markers.len() <= usize::MAX,
            ;
        }
        self.individuals = self.individuals + 1;
        Ok(())
    }

    /// Reduces the matrix. At least two individuals are needed.
    pub fn analyse(self) -> (result: Result<AnalysisResult, AnalysisError>)
        requires
            self.wf(),
            self.individuals <= MAX_INDIVIDUALS,
        ensures
            self.individuals < 2 ==> result == Err::<AnalysisResult, AnalysisError>(
                AnalysisError::DegenerateInput,
            ),
            self.individuals >= 2 ==> result.is_ok() && result.unwrap()@ == reduction(
                integers(self.markers@),
                self.individuals as int,
                self.reference.len() as int,
            ) && result.unwrap().individuals == self.individuals && result.unwrap().components
                == self.reference.len(),
    {
        if self.individuals < 2 {
            return Err(AnalysisError::DegenerateInput);
        }
        let n = self.individuals;
        let d = self.reference.len();
        let data = Scaled::from_integers(self.markers);
        proof {
            assert(data@.numerators =~= integers(self.markers@));
            lemma_reduction_fits(data@, n as int, d as int);
        }
        let middle = center_data(&data, n, d);
        let cov = compute_covariance_matrix(&middle, n, d);
        let components = eigen_decomposition(&cov, d);
        let scores = project_data(&middle, n, d, &components);
        Ok(AnalysisResult { scores, eigenvalues: components.eigenvalues, individuals: n, components: d })
    }
}

/// Every individual's genome has the reference's length.
pub open spec fn lengths_agree(reference: Seq<u8>, individuals: Seq<Vec<u8>>) -> bool {
    forall|i: int| 0 <= i < individuals.len() ==> (#[trigger] individuals[i]).len() == reference.len()
}

/// How a run on the given genomes ends.
///
/// An empty reference is refused first. Then the first individual whose
/// genome has another length than the reference ends the run, with its place
/// in the input and both lengths. A run with fewer than two individuals is
/// refused last. Every other run gives the reduction of its marker matrix.
pub open spec fn is_run_outcome(
    result: Result<AnalysisResult, AnalysisError>,
    reference: Seq<u8>,
    individuals: Seq<Vec<u8>>,
) -> bool {
    match result {
        Ok(outcome) => {
            &&& reference.len() >= 1
            &&& individuals.len() >= 2
            &&& lengths_agree(reference, individuals)
            &&& outcome@ == reduction(
                marker_matrix(reference, individuals),
                individuals.len() as int,
                reference.len() as int,
            )
            &&& outcome.individuals == individuals.len()
            &&& outcome.components == reference.len()
        },
        Err(AnalysisError::ReferenceRead) => reference.len() == 0,
        Err(AnalysisError::LengthMismatch { individual, length, expected }) => {
            &&& reference.len() >= 1
            &&& individual < individuals.len()
            &&& lengths_agree(reference, individuals.take(individual as int))
            &&& length == individuals[individual as int].len()
            &&& expected == reference.len()
            &&& length != expected
        },
        Err(AnalysisError::DegenerateInput) => {
            &&& reference.len() >= 1
            &&& individuals.len() < 2
            &&& lengths_agree(reference, individuals)
        },
    }
}

/// A run has one outcome only: two results for the same genomes are the same
/// error, or hold the same scores and component values.
pub proof fn lemma_run_outcome_is_determined(
    first: Result<AnalysisResult, AnalysisError>,
    second: Result<AnalysisResult, AnalysisError>,
    reference: Seq<u8>,
    individuals: Seq<Vec<u8>>,
)
    requires
        is_run_outcome(first, reference, individuals),
        is_run_outcome(second, reference, individuals),
    ensures
        match (first, second) {
            (Ok(a), Ok(b)) => a@ == b@ && a.individuals == b.individuals && a.components
                == b.components,
            (Err(a), Err(b)) => a == b,
            _ => false,
        },
{
    if let Err(AnalysisError::LengthMismatch { individual, length, expected }) = first {
        lemma_mismatch_excludes(second, reference, individuals, individual as int);
    }
    if let Err(AnalysisError::LengthMismatch { individual, length, expected }) = second {
        lemma_mismatch_excludes(first, reference, individuals, individual as int);
    }
}

proof fn lemma_mismatch_excludes(
    other: Result<AnalysisResult, AnalysisError>,
    reference: Seq<u8>,
    individuals: Seq<Vec<u8>>,
    at: int,
)
    requires
        is_run_outcome(other, reference, individuals),
        reference.len() >= 1,
        0 <= at < individuals.len(),
        individuals[at].len() != reference.len(),
        lengths_agree(reference, individuals.take(at)),
    ensures
        other matches Err(AnalysisError::LengthMismatch { individual, length, expected })
            && individual == at && length == individuals[at].len() && expected == reference.len(),
{
    match other {
        Err(AnalysisError::LengthMismatch { individual, length, expected }) => {
            if individual < at {
                assert(individuals.take(at)[individual as int].len() == reference.len());
            } else if at < individual {
                assert(individuals.take(individual as int)[at].len() == reference.len());
            }
        },
        _ => {
            assert(individuals[at].len() == reference.len());
        },
    }
}

/// Runs the whole analysis on genomes that are already in memory: calls the
/// variants of every individual against the reference, in input order, and
/// reduces the matrix they give.
pub fn perform_full_analysis(reference: &Vec<u8>, individuals: &Vec<Vec<u8>>) -> (result: Result<
    AnalysisResult,
    AnalysisError,
>)
    requires
        individuals.len() <= MAX_INDIVIDUALS,
    ensures
        is_run_outcome(result, reference@, individuals@),
{
    let mut matrix = match VariantMatrix::new(reference.clone()) {
        Ok(matrix) => matrix,
        Err(error) => {
            return Err(error);
        },
    };
    assert(matrix.reference@ =~= reference@);
    let ghost d = reference.len() as int;
    let mut i: usize = 0;
    while i < individuals.len()
        invariant
            i <= individuals.len(),
            d == reference.len(),
            d >= 1,
            matrix.wf(),
            matrix.reference@ == reference@,
            matrix.individuals == i,
            lengths_agree(reference@, individuals@.take(i as int)),
            forall|t: int|
                0 <= t < i * d ==> #[trigger] matrix.markers[t] == marker(
                    reference[t % d],
                    individuals[t / d]@[t % d],
                ),
        decreases individuals.len() - i,
    {
        let ghost before = matrix.markers@;
        match matrix.add_individual(&individuals[i]) {
            Ok(()) => {},
            Err(error) => {
                return Err(error);
            },
        }
        proof {
            assert((i + 1) * d == i * d + d) by (nonlinear_arith);
            assert forall|t: int| 0 <= t < (i + 1) * d implies #[trigger] matrix.markers[t]
                == marker(reference[t % d], individuals[t / d]@[t % d]) by {
                if t < i * d {
                    assert(matrix.markers[t] == before[t]);
                } else {
                    lemma_flat_index(i as int, t - i * d, individuals.len() as int, d);
                    assert(matrix.markers[t] == variant_vector(
                        reference@,
                        individuals[i as int]@,
                    )[t - i * d]);
                }
            }
            assert forall|k: int| 0 <= k < i + 1 implies (#[trigger] individuals@.take(
                i + 1,
            )[k]).len() == reference@.len() by {
                if k < i {
                    assert(individuals@.take(i as int)[k] == individuals@[k]);
                }
            }
        }
        i += 1;
    }
    proof {
        assert(individuals@.take(i as int) =~= individuals@);
        assert(integers(matrix.markers@) =~= marker_matrix(reference@, individuals@));
    }
    matrix.analyse()
}

/// With markers of 0 and 1 and no more than `MAX_INDIVIDUALS` rows, no stage
/// of the reduction leaves the range of `i128`.
proof fn lemma_reduction_fits(data: Rationals, n: int, d: int)
    requires
        2 <= n <= MAX_INDIVIDUALS,
        1 <= d,
        data.denominator == 1,
        data.numerators.len() == n * d,
        n * d <= usize::MAX,
        forall|i: int|
            0 <= i < data.numerators.len() ==> #[trigger] data.numerators[i] == 0
                || data.numerators[i] == 1,
    ensures
        2 * n * max_magnitude(data.numerators) <= i128::MAX,
        n * data.denominator <= i128::MAX,
        n * (max_magnitude(centered(data, n, d).numerators) * max_magnitude(
            centered(data, n, d).numerators,
        )) <= i128::MAX,
        centered(data, n, d).denominator * centered(data, n, d).denominator * (n - 1)
            <= i128::MAX,
        d * (max_magnitude(centered(data, n, d).numerators) * max_magnitude(
            decomposition(covariance(centered(data, n, d), n, d), d).eigenvectors.numerators,
        )) <= i128::MAX,
        centered(data, n, d).denominator * decomposition(
            covariance(centered(data, n, d), n, d),
            d,
        ).eigenvectors.denominator <= i128::MAX,
{
    let limit = MAX_INDIVIDUALS as int;
    let middle = centered(data, n, d);
    let cov = covariance(middle, n, d);
    let components = decomposition(cov, d);
    let m0 = max_magnitude(data.numerators);
    let m1 = max_magnitude(middle.numerators);
    let m2 = max_magnitude(cov.numerators);
    let m3 = max_magnitude(components.eigenvectors.numerators);
    lemma_max_magnitude_within(data.numerators, 1);
    lemma_max_magnitude_bounds(data.numerators);
    lemma_max_magnitude_bounds(middle.numerators);
    lemma_max_magnitude_bounds(cov.numerators);
    lemma_max_magnitude_bounds(components.eigenvectors.numerators);
    lemma_centered_magnitude(data, n, d);
    assert(middle.numerators.len() == n * d);
    lemma_covariance_magnitude(middle, n, d);
    assert(0 <= d * d) by (nonlinear_arith);
    assert(cov.numerators.len() == d * d);
    lemma_decomposition_magnitude(cov, d);
    assert(2 * n * m0 <= 2 * n) by (nonlinear_arith)
        requires
            0 <= m0 <= 1,
            n >= 0,
    ;
    assert(0 <= m1 <= 2 * n);
    assert(m1 * m1 <= 4 * (n * n)) by (nonlinear_arith)
        requires
            0 <= m1 <= 2 * n,
    ;
    assert(n * (m1 * m1) <= 4 * (n * n * n)) by (nonlinear_arith)
        requires
            m1 * m1 <= 4 * (n * n),
            n >= 0,
    ;
    assert(n * n * n <= limit * limit * limit) by (nonlinear_arith)
        requires
            0 <= n <= limit,
    ;
    assert(limit * limit * limit == 0x1000_0000_0000_0000) by (nonlinear_arith)
        requires
            limit == 1_048_576,
    ;
    assert(0 <= m3 <= m2 <= 4 * (n * n * n));
    assert(m1 * m3 <= 8 * (n * n * n * n)) by (nonlinear_arith)
        requires
            0 <= m1 <= 2 * n,
            0 <= m3 <= 4 * (n * n * n),
    ;
    assert(m1 * m3 >= 0) by (nonlinear_arith)
        requires
            m1 >= 0,
            m3 >= 0,
    ;
    assert(d * (m1 * m3) <= 8 * (n * n * n) * (n * d)) by (nonlinear_arith)
        requires
            0 <= m1 * m3 <= 8 * (n * n * n * n),
            d >= 0,
            n >= 0,
    ;
    assert(8 * (n * n * n) * (n * d) <= 8 * 0x1000_0000_0000_0000 * 0xffff_ffff_ffff_ffff)
        by (nonlinear_arith)
        requires
            0 <= n * n * n <= 0x1000_0000_0000_0000,
            0 <= n * d <= 0xffff_ffff_ffff_ffff,
    ;
    assert(middle.denominator == n);
    assert(n * n * (n - 1) <= n * n * n) by (nonlinear_arith)
        requires
            n >= 0,
    ;
    assert(cov.denominator == n * n * (n - 1));
    assert(n * (n * n * (n - 1)) <= limit * (limit * limit * limit)) by (nonlinear_arith)
        requires
            0 <= n <= limit,
            0 <= n * n * (n - 1) <= limit * limit * limit,
    ;
}

} // verus!
