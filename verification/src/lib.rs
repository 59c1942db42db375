//! An in-memory reference-genome store.
//!
//! The store ingests a FASTA-formatted sequence collection (plain text or
//! gzip-compressed), normalizes each contig's bytes to upper case, keeps the
//! contig names in first-seen order, and serves bounds-checked, zero-copy
//! views of whole contigs or sub-ranges of them.

pub mod decode;
pub mod reference_genome;
