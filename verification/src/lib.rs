//! Variant calling against a reference genome, followed by a principal
//! component style reduction of the resulting marker matrix.
//!
//! Every quantity is an exact rational: a matrix is stored as integer
//! numerators over one shared positive denominator, so the contracts in this
//! crate are equalities between integers and hold without rounding.
//!
//! - [`variant_calling`] marks where an individual differs from the reference.
//! - [`pca`] centers a matrix, takes its covariance, ranks the components and
//!   projects; [`theorems`] states what holds of these stages for every input.
//! - [`analysis`] runs all of it on genomes in memory.
//! - [`chunked_read`] and [`usage`] decide for the caller that owns the files
//!   and the command line.
//! - [`scaled`], [`matrix`] and [`ranking`] hold the models the contracts are
//!   written in.

pub mod analysis;
pub mod chunked_read;
pub mod matrix;
pub mod pca;
pub mod ranking;
pub mod scaled;
pub mod theorems;
pub mod usage;
pub mod variant_calling;
