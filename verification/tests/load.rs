use refgenome::decode::is_gzip_path;
use refgenome::decode::FastaRecord;
use refgenome::reference_genome::GenomeError;
use refgenome::reference_genome::ReferenceGenome;
use std::io::Write;

const TWO_RECORD_FASTA: &[u8] = b">chr1\nACGTACGT\n>chr2\nACCATGTA\n";

fn gzip(data: &[u8]) -> Vec<u8> {
    let mut encoder = flate2::write::GzEncoder::new(Vec::new(), flate2::Compression::default());
    encoder.write_all(data).unwrap();
    encoder.finish().unwrap()
}

#[test]
fn test_simple_reference() {
    let references: Vec<(&str, Vec<u8>)> = vec![
        ("./test_data/test_reference.fa", TWO_RECORD_FASTA.to_vec()),
        ("./test_data/test_reference.fa.gz", gzip(TWO_RECORD_FASTA)),
    ];
    for (reference_fn, data) in references {
        let reference_genome = ReferenceGenome::from_fasta(reference_fn, data).unwrap();

        assert_eq!(reference_genome.contig_keys(), &["chr1".to_string(), "chr2".to_string()]);

        //chr1 = ACGTACGT
        let chr1_string: Vec<u8> = "ACGTACGT".as_bytes().to_vec();
        for i in 0..8 {
            assert_eq!(reference_genome.get_slice("chr1", i, 8), &chr1_string[i..]);
        }

        //chr2 = ACCATGTA
        let chr1_string: Vec<u8> = "ACCATGTA".as_bytes().to_vec();
        assert_eq!(reference_genome.get_slice("chr2", 0, 8), chr1_string);
    }
}

#[test]
fn round_trip_load() {
    let plain = ReferenceGenome::from_fasta("ref.fa", TWO_RECORD_FASTA.to_vec()).unwrap();
    let zipped = ReferenceGenome::from_fasta("ref.fa.gz", gzip(TWO_RECORD_FASTA)).unwrap();
    assert_eq!(plain.contig_keys(), zipped.contig_keys());
    for key in plain.contig_keys() {
        assert_eq!(plain.get_full_chromosome(key), zipped.get_full_chromosome(key));
    }
}

#[test]
fn end_to_end_scenario() {
    let store = ReferenceGenome::from_fasta("ref.fa", TWO_RECORD_FASTA.to_vec()).unwrap();
    assert_eq!(store.contig_keys(), &["chr1".to_string(), "chr2".to_string()]);
    assert_eq!(store.get_slice("chr1", 0, 8), b"ACGTACGT");
    assert_eq!(store.get_slice("chr1", 3, 8), b"TACGT");
    assert_eq!(store.get_full_chromosome("chr2"), b"ACCATGTA");
    assert_eq!(store.filename(), "ref.fa");
}

#[test]
fn multi_member_gzip_concatenates() {
    // Two independently compressed members decompress as one stream.
    let mut data = gzip(b">chr1\nACGT\n");
    data.extend_from_slice(&gzip(b">chr2\nTTAA\n"));
    let store = ReferenceGenome::from_fasta("ref.fa.gz", data).unwrap();
    assert_eq!(store.contig_keys(), &["chr1".to_string(), "chr2".to_string()]);
    assert_eq!(store.get_full_chromosome("chr1"), b"ACGT");
    assert_eq!(store.get_full_chromosome("chr2"), b"TTAA");
}

#[test]
fn lowercase_sequences_are_normalized_on_load() {
    let store = ReferenceGenome::from_fasta("ref.fa", b">c\nacgtn\n".to_vec()).unwrap();
    assert_eq!(store.get_full_chromosome("c"), b"ACGTN");
}

#[test]
fn corrupt_gzip_is_an_io_error() {
    let result = ReferenceGenome::from_fasta("ref.fa.gz", b"not gzip at all".to_vec());
    assert!(matches!(result, Err(GenomeError::Io(_))));
}

#[test]
fn malformed_fasta_is_a_format_error() {
    let result = ReferenceGenome::from_fasta("ref.fa", b"ACGT without a header\n".to_vec());
    assert!(matches!(result, Err(GenomeError::Format(_))));
}

#[test]
fn duplicate_name_aborts_bulk_load() {
    let result = ReferenceGenome::from_fasta("ref.fa", b">dup\nAC\n>dup\nGT\n".to_vec());
    match result {
        Err(GenomeError::DuplicateContig(key)) => assert_eq!(key, "dup"),
        other => panic!("expected a duplicate-key error, got {:?}", other),
    }
}

#[test]
fn from_records_preserves_order_and_normalizes() {
    let records = vec![
        FastaRecord { name: "b".to_string(), seq: b"acg".to_vec() },
        FastaRecord { name: "a".to_string(), seq: b"TTt".to_vec() },
    ];
    let store = ReferenceGenome::from_records("built", records).unwrap();
    assert_eq!(store.contig_keys(), &["b".to_string(), "a".to_string()]);
    assert_eq!(store.get_full_chromosome("b"), b"ACG");
    assert_eq!(store.get_full_chromosome("a"), b"TTT");
    assert_eq!(store.filename(), "built");
}

#[test]
fn gzip_extension_detection_is_literal() {
    assert!(is_gzip_path("ref.fa.gz"));
    assert!(is_gzip_path("x.gz"));
    assert!(is_gzip_path("dir/sub/x.tar.gz"));
    // Case-sensitive, exact, on the final extension segment only.
    assert!(!is_gzip_path("ref.fa.GZ"));
    assert!(!is_gzip_path("refgz"));
    assert!(!is_gzip_path(".gz"));
    assert!(!is_gzip_path("dir/.gz"));
    assert!(!is_gzip_path("dir.gz/ref.fa"));
}

#[test]
fn non_gz_extension_loads_as_plain_text() {
    let store = ReferenceGenome::from_fasta("ref.fasta", b">c\nAC\n".to_vec()).unwrap();
    assert_eq!(store.get_full_chromosome("c"), b"AC");
}
