use refgenome::reference_genome::GenomeError;
use refgenome::reference_genome::ReferenceGenome;

#[test]
fn test_add_contig() {
    let mut reference_genome = ReferenceGenome::empty_reference();
    reference_genome.add_contig("test".to_string(), "Acgt").unwrap();
    reference_genome.add_contig("test2".to_string(), "TGNA").unwrap();

    assert_eq!(reference_genome.contig_keys(), &["test".to_string(), "test2".to_string()]);
    assert_eq!(reference_genome.get_full_chromosome("test"), b"ACGT");
    assert_eq!(reference_genome.get_full_chromosome("test2"), b"TGNA");
}

#[test]
fn case_normalization() {
    let mut store = ReferenceGenome::empty_reference();
    store.add_contig("x".to_string(), "Acgt").unwrap();
    assert_eq!(store.get_full_chromosome("x"), b"ACGT");
}

#[test]
fn duplicate_rejection() {
    let mut store = ReferenceGenome::empty_reference();
    store.add_contig("x".to_string(), "Acgt").unwrap();
    let second = store.add_contig("x".to_string(), "TTTT");
    match second {
        Err(GenomeError::DuplicateContig(key)) => assert_eq!(key, "x"),
        other => panic!("expected a duplicate-key error, got {:?}", other),
    }
    // The first insertion's data is queryable, unchanged.
    assert_eq!(store.contig_keys(), &["x".to_string()]);
    assert_eq!(store.get_full_chromosome("x"), b"ACGT");
}

#[test]
fn clamping_idempotence() {
    let mut store = ReferenceGenome::empty_reference();
    store.add_contig("c".to_string(), "ACGTACGT").unwrap();
    assert_eq!(store.get_slice("c", 0, 1000), store.get_slice("c", 0, 8));
    assert_eq!(store.get_slice("c", 0, 1000).len(), 8);
    assert_eq!(store.get_slice("c", 9, 20), b"");
}

#[test]
fn slice_monotonicity() {
    let mut store = ReferenceGenome::empty_reference();
    let full = "ACGTACGT";
    store.add_contig("c".to_string(), full).unwrap();
    for i in 0..=8 {
        assert_eq!(store.get_slice("c", i, 8), full.as_bytes()[i..].to_vec().as_slice());
    }
}

#[test]
fn empty_reference_has_no_source_and_no_contigs() {
    let store = ReferenceGenome::empty_reference();
    assert_eq!(store.filename(), "");
    assert!(store.contig_keys().is_empty());
}

#[test]
fn order_preservation_is_not_alphabetical() {
    let mut store = ReferenceGenome::empty_reference();
    store.add_contig("zeta".to_string(), "AA").unwrap();
    store.add_contig("alpha".to_string(), "CC").unwrap();
    store.add_contig("mid".to_string(), "GG").unwrap();
    assert_eq!(
        store.contig_keys(),
        &["zeta".to_string(), "alpha".to_string(), "mid".to_string()]
    );
}
