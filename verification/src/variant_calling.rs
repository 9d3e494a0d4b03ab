//! Position-by-position comparison of an individual genome with the reference.

use vstd::prelude::*;

verus! {

/// The marker at one position: 0 where the two bytes agree, 1 where they differ.
pub open spec fn marker(reference: u8, individual: u8) -> i128 {
    if reference == individual {
        0
    } else {
        1
    }
}

/// The variant vector of `individual` against `reference`: one marker per
/// position of the reference.
pub open spec fn variant_vector(reference: Seq<u8>, individual: Seq<u8>) -> Seq<i128> {
    Seq::new(reference.len(), |i: int| marker(reference[i], individual[i]))
}

/// A genome has no variants against itself.
pub proof fn lemma_identical_genomes_have_no_variants(genome: Seq<u8>)
    ensures
        variant_vector(genome, genome) == Seq::new(genome.len(), |i: int| 0i128),
{
    assert(variant_vector(genome, genome) =~= Seq::new(genome.len(), |i: int| 0i128));
}

/// Compares the individual's genome with the reference, byte by byte.
///
/// Any difference between two bytes counts as a variant; there is no notion
/// of allele, quality or indel.
pub fn call_variants(ref_genome: &Vec<u8>, indiv_genome: &Vec<u8>) -> (variants: Vec<i128>)
    requires
        ref_genome.len() == indiv_genome.len(),
    ensures
        variants@ == variant_vector(ref_genome@, indiv_genome@),
        variants.len() == ref_genome.len(),
        forall|i: int|
            0 <= i < variants.len() ==> (#[trigger] variants[i] == 0 <==> ref_genome[i]
                == indiv_genome[i]),
        forall|i: int| 0 <= i < variants.len() ==> #[trigger] variants[i] == 0 || variants[i] == 1,
{
    let length = ref_genome.len();
    let mut variants: Vec<i128> = Vec::with_capacity(length);
    let mut i: usize = 0;
    while i < length
        invariant
            length == ref_genome.len(),
            length == indiv_genome.len(),
            i <= length,
            variants.len() == i,
            forall|k: int| 0 <= k < i ==> variants[k] == marker(ref_genome[k], indiv_genome[k]),
        decreases length - i,
    {
        if ref_genome[i] == indiv_genome[i] {
            variants.push(0);
        } else {
            variants.push(1);
        }
        i += 1;
    }
    variants
}

} // verus!
