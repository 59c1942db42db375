//! The decoding layer: gzip detection by file extension and transparent
//! multi-member gzip decompression, plus the boundary to the FASTA parser.

use vstd::prelude::*;
use vstd::string::StrSliceExecFns;

verus! {

/// A parsed FASTA record: an identifier and its raw sequence bytes.
pub struct FastaRecord {
    /// The record's identifier (the first whitespace-delimited token of its
    /// header line).
    pub name: String,
    /// The record's concatenated sequence bytes, as they stood in the input.
    pub seq: Vec<u8>,
}

impl View for FastaRecord {
    type V = (Seq<char>, Seq<u8>);

    open spec fn view(&self) -> (Seq<char>, Seq<u8>) {
        (self.name@, self.seq@)
    }
}

/// The mathematical view of a record list.
pub open spec fn records_view(records: Seq<FastaRecord>) -> Seq<(Seq<char>, Seq<u8>)> {
    records.map_values(|r: FastaRecord| r@)
}

/// What decompressing a complete multi-member gzip stream yields:
/// `Some(decompressed bytes)` when every member is well-formed, `None` when
/// the stream is corrupt. Decompression is a function of the bytes alone.
pub uninterp spec fn gunzip_of(data: Seq<u8>) -> Option<Seq<u8>>;

/// What parsing a complete byte stream as FASTA yields: `Some(records)`,
/// each an identifier with its concatenated sequence bytes, or `None` when
/// the stream is not well-formed FASTA. Parsing is a function of the bytes
/// alone.
pub uninterp spec fn fasta_records_of(data: Seq<u8>) -> Option<Seq<(Seq<char>, Seq<u8>)>>;

/// Relies on flate2's `bufread::MultiGzDecoder`, read to the end with
/// `std::io::Read::read_to_end`: the decoder concatenates the output of all
/// gzip members of the buffer, and reports an error on corrupt input; the
/// outcome depends on the input bytes alone.
#[verifier::external_body]
pub(crate) fn gunzip(data: &[u8]) -> (r: Result<Vec<u8>, String>)
    ensures
        match r {
            Ok(out) => gunzip_of(data@) == Some(out@),
            Err(_) => gunzip_of(data@) is None,
        },
{
    let mut decoder = flate2::bufread::MultiGzDecoder::new(data);
    let mut out: Vec<u8> = Vec::new();
    match std::io::Read::read_to_end(&mut decoder, &mut out) {
        Ok(_) => Ok(out),
        Err(e) => Err(format!("{e}")),
    }
}

/// Relies on bio's `io::fasta::Reader` over an in-memory buffer: its record
/// iterator yields each record's identifier and concatenated sequence
/// lines, and reports an error on a malformed record; the outcome depends
/// on the input bytes alone.
#[verifier::external_body]
pub(crate) fn parse_fasta(data: &[u8]) -> (r: Result<Vec<FastaRecord>, String>)
    ensures
        match r {
            Ok(recs) => fasta_records_of(data@) == Some(records_view(recs@)),
            Err(_) => fasta_records_of(data@) is None,
        },
{
    let reader = bio::io::fasta::Reader::from_bufread(data);
    let collected: Result<Vec<bio::io::fasta::Record>, std::io::Error> = reader.records().collect();
    match collected {
        Ok(records) => Ok(records
            .iter()
            .map(|rec| FastaRecord { name: rec.id().to_string(), seq: rec.seq().to_vec() })
            .collect()),
        Err(e) => Err(format!("{e}")),
    }
}

/// The index of the last occurrence of `c` in `s`, or -1 when `c` does not
/// occur in `s`.
pub open spec fn last_index_of(s: Seq<char>, c: char) -> int
    decreases s.len(),
{
    if s.len() == 0 {
        -1
    } else if s[s.len() - 1] == c {
        s.len() - 1
    } else {
        last_index_of(s.drop_last(), c)
    }
}

/// Whether the final extension component of `path` equals `gz`
/// (case-sensitively): the final path component must contain a dot that is
/// not its first character, and the text after its last dot must be `gz`.
pub open spec fn is_gz_path(path: Seq<char>) -> bool {
    let slash = last_index_of(path, '/');
    let dot = last_index_of(path, '.');
    &&& dot > slash + 1
    &&& dot + 3 == path.len()
    &&& path[dot + 1] == 'g'
    &&& path[dot + 2] == 'z'
}

proof fn lemma_last_index_of(s: Seq<char>, c: char)
    ensures
        -1 <= last_index_of(s, c) < s.len(),
        last_index_of(s, c) >= 0 ==> {
            &&& s[last_index_of(s, c)] == c
            &&& forall|j: int| last_index_of(s, c) < j < s.len() ==> s[j] != c
        },
        last_index_of(s, c) < 0 ==> forall|j: int| 0 <= j < s.len() ==> s[j] != c,
    decreases s.len(),
{
    if s.len() > 0 && s[s.len() - 1] != c {
        lemma_last_index_of(s.drop_last(), c);
        assert(forall|j: int| 0 <= j < s.len() - 1 ==> s[j] == s.drop_last()[j]);
    }
}

/// The index of the last occurrence of `c` in `s`, as an executable search.
fn last_char_index(s: &str, c: char) -> (r: Option<usize>)
    ensures
        match r {
            Some(i) => i as int == last_index_of(s@, c),
            None => last_index_of(s@, c) == -1,
        },
{
    let n = s.unicode_len();
    let mut i: usize = n;
    while i > 0
        invariant
            i <= n,
            n == s@.len(),
            forall|j: int| i <= j < n ==> s@[j] != c,
        decreases i,
    {
        i -= 1;
        if s.get_char(i) == c {
            proof {
                lemma_last_index_of(s@, c);
            }
            return Some(i);
        }
    }
    proof {
        lemma_last_index_of(s@, c);
    }
    None
}

/// Whether `path` names a gzip-compressed file: true if and only if the
/// final extension component of the path equals `gz`, case-sensitively.
pub fn is_gzip_path(path: &str) -> (r: bool)
    ensures
        r == is_gz_path(path@),
{
    proof {
        lemma_last_index_of(path@, '/');
        lemma_last_index_of(path@, '.');
    }
    let n = path.unicode_len();
    let slash = last_char_index(path, '/');
    let dot = last_char_index(path, '.');
    match dot {
        None => false,
        Some(d) => {
            let in_component = match slash {
                None => d > 0,
                Some(sl) => d > sl && d - sl > 1,
            };
            if in_component && n >= 3 && d == n - 3 {
                path.get_char(d + 1) == 'g' && path.get_char(d + 2) == 'z'
            } else {
                false
            }
        },
    }
}

/// The byte content a load works on: the raw bytes themselves, or, for a
/// path with the gzip extension, their decompressed form (`None` when the
/// gzip stream is corrupt).
pub open spec fn decoded_content(path: Seq<char>, data: Seq<u8>) -> Option<Seq<u8>> {
    if is_gz_path(path) {
        gunzip_of(data)
    } else {
        Some(data)
    }
}

} // verus!
