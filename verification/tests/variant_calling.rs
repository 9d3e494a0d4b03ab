use variant_pca::variant_calling::call_variants;

#[test]
fn single_difference_is_marked() {
    let reference = b"AACC".to_vec();
    let individual = b"AACG".to_vec();
    assert_eq!(call_variants(&reference, &individual), vec![0, 0, 0, 1]);
}

#[test]
fn identical_genomes_give_zeros() {
    let genome = b"ACGTACGTTTGA".to_vec();
    let variants = call_variants(&genome, &genome);
    assert_eq!(variants.len(), genome.len());
    assert!(variants.iter().all(|&v| v == 0));
}

#[test]
fn marker_is_zero_exactly_where_bytes_agree() {
    let reference: Vec<u8> = vec![0, 1, 2, 255, 65, 97, 10, 0];
    let individual: Vec<u8> = vec![0, 2, 2, 254, 97, 97, 10, 1];
    let variants = call_variants(&reference, &individual);
    assert_eq!(variants.len(), reference.len());
    for i in 0..reference.len() {
        assert_eq!(variants[i] == 0, reference[i] == individual[i]);
        assert!(variants[i] == 0 || variants[i] == 1);
    }
    assert_eq!(variants, vec![0, 1, 0, 1, 1, 0, 0, 1]);
}

#[test]
fn any_byte_value_is_compared() {
    let reference: Vec<u8> = vec![b'a', b'A', 0x00, 0xff];
    let individual: Vec<u8> = vec![b'A', b'A', 0x00, 0xfe];
    assert_eq!(call_variants(&reference, &individual), vec![1, 0, 0, 1]);
}

#[test]
fn empty_genomes_give_an_empty_vector() {
    let empty: Vec<u8> = Vec::new();
    assert_eq!(call_variants(&empty, &empty), Vec::<i128>::new());
}

#[test]
fn two_rows_of_the_example() {
    let reference = b"AACC".to_vec();
    assert_eq!(call_variants(&reference, &b"AACC".to_vec()), vec![0, 0, 0, 0]);
    assert_eq!(call_variants(&reference, &b"AAGG".to_vec()), vec![0, 0, 1, 1]);
}
