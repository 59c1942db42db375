//! The contig store: named sequences, unique by name, in insertion order,
//! with upper-cased bytes and clamped range reads.

use crate::decode::decoded_content;
use crate::decode::fasta_records_of;
use crate::decode::gunzip_of;
use crate::decode::is_gz_path;
use crate::decode::gunzip;
use crate::decode::is_gzip_path;
use crate::decode::parse_fasta;
use crate::decode::records_view;
use crate::decode::FastaRecord;
use vstd::prelude::*;
use vstd::slice::slice_subrange;
use vstd::string::StrSliceExecFns;
use vstd::string::StringSliceAdditionalSpecFns;

verus! {

/// The store contents that inserting `records` in order into a store that
/// already holds `keys` and `seqs` yields: each record's name appended and
/// its bytes appended upper-cased, or the first name already taken.
pub open spec fn build_records(
    keys: Seq<Seq<char>>,
    seqs: Seq<Seq<u8>>,
    records: Seq<(Seq<char>, Seq<u8>)>,
) -> Result<(Seq<Seq<char>>, Seq<Seq<u8>>), Seq<char>>
    decreases records.len(),
{
    if records.len() == 0 {
        Ok((keys, seqs))
    } else if keys.contains(records[0].0) {
        Err(records[0].0)
    } else {
        build_records(
            keys.push(records[0].0),
            seqs.push(upper_bytes(records[0].1)),
            records.drop_first(),
        )
    }
}

/// The names of a record list, in order.
pub open spec fn record_names(records: Seq<(Seq<char>, Seq<u8>)>) -> Seq<Seq<char>> {
    records.map_values(|r: (Seq<char>, Seq<u8>)| r.0)
}

/// The sequences of a record list, upper-cased, in order.
pub open spec fn record_upper_seqs(records: Seq<(Seq<char>, Seq<u8>)>) -> Seq<Seq<u8>> {
    records.map_values(|r: (Seq<char>, Seq<u8>)| upper_bytes(r.1))
}

proof fn lemma_build_records_distinct(
    keys: Seq<Seq<char>>,
    seqs: Seq<Seq<u8>>,
    records: Seq<(Seq<char>, Seq<u8>)>,
)
    requires
        forall|i: int, j: int| 0 <= i < j < records.len() ==> records[i].0 != records[j].0,
        forall|i: int, j: int|
            0 <= i < keys.len() && 0 <= j < records.len() ==> #[trigger] keys[i]
                != #[trigger] records[j].0,
    ensures
        build_records(keys, seqs, records) == Ok::<_, Seq<char>>(
            (keys + record_names(records), seqs + record_upper_seqs(records)),
        ),
    decreases records.len(),
{
    if records.len() == 0 {
        assert(keys + record_names(records) =~= keys);
        assert(seqs + record_upper_seqs(records) =~= seqs);
    } else {
        assert(!keys.contains(records[0].0)) by {
            if keys.contains(records[0].0) {
                let i = choose|i: int| 0 <= i < keys.len() && keys[i] == records[0].0;
                assert(keys[i] != records[0].0);
            }
        };
        let keys2 = keys.push(records[0].0);
        let seqs2 = seqs.push(upper_bytes(records[0].1));
        let rest = records.drop_first();
        assert forall|i: int, j: int|
            0 <= i < keys2.len() && 0 <= j < rest.len() implies #[trigger] keys2[i]
            != #[trigger] rest[j].0 by {
            assert(rest[j] == records[j + 1]);
            if i < keys.len() {
                assert(keys[i] != records[j + 1].0);
            } else {
                assert(records[0].0 != records[j + 1].0);
            }
        };
        lemma_build_records_distinct(keys2, seqs2, rest);
        assert(keys2 + record_names(rest) =~= keys + record_names(records));
        assert(seqs2 + record_upper_seqs(rest) =~= seqs + record_upper_seqs(records));
    }
}

/// Order preservation: when all record names are distinct, building a store
/// from the records succeeds, its key list equals the record names in input
/// order, and its sequences are the records' bytes, upper-cased, in the
/// same order.
pub proof fn lemma_order_preservation(records: Seq<(Seq<char>, Seq<u8>)>)
    requires
        forall|i: int, j: int| 0 <= i < j < records.len() ==> records[i].0 != records[j].0,
    ensures
        build_records(Seq::empty(), Seq::empty(), records) == Ok::<_, Seq<char>>(
            (record_names(records), record_upper_seqs(records)),
        ),
{
    lemma_build_records_distinct(Seq::empty(), Seq::empty(), records);
    assert(Seq::empty() + record_names(records) =~= record_names(records));
    assert(Seq::empty() + record_upper_seqs(records) =~= record_upper_seqs(records));
}

/// Round-trip load: the same FASTA content loaded under a plain path and,
/// gzip-compressed, under a path with the gzip extension yields the same
/// outcome — the same contig names in the same order with the same bytes.
pub proof fn lemma_round_trip_load(
    plain_path: Seq<char>,
    gz_path: Seq<char>,
    content: Seq<u8>,
    gz_data: Seq<u8>,
)
    requires
        !is_gz_path(plain_path),
        is_gz_path(gz_path),
        gunzip_of(gz_data) == Some(content),
    ensures
        load_model(plain_path, content) == load_model(gz_path, gz_data),
{
}

/// What loading from a path and its raw file bytes yields: `None` when the
/// bytes cannot be decoded or parsed; otherwise the built store contents,
/// or the first duplicated contig name.
pub open spec fn load_model(path: Seq<char>, data: Seq<u8>) -> Option<
    Result<(Seq<Seq<char>>, Seq<Seq<u8>>), Seq<char>>,
> {
    match decoded_content(path, data) {
        Option::None => Option::None,
        Option::Some(content) => match fasta_records_of(content) {
            Option::None => Option::None,
            Option::Some(records) => Option::Some(
                build_records(Seq::empty(), Seq::empty(), records),
            ),
        },
    }
}

/// `v` clamped down to `len` whenever it exceeds it.
pub open spec fn clamp_to(v: int, len: int) -> int {
    if v <= len {
        v
    } else {
        len
    }
}

/// Whether two string slices hold the same characters.
fn str_eq(a: &str, b: &str) -> (r: bool)
    ensures
        r == (a@ == b@),
{
    let la = a.unicode_len();
    let lb = b.unicode_len();
    if la != lb {
        return false;
    }
    let mut i: usize = 0;
    while i < la
        invariant
            i <= la,
            la == a@.len(),
            la == b@.len(),
            forall|j: int| 0 <= j < i ==> a@[j] == b@[j],
        decreases la - i,
    {
        if a.get_char(i) != b.get_char(i) {
            return false;
        }
        i += 1;
    }
    proof {
        assert(a@ =~= b@);
    }
    true
}

/// Copies a byte slice, upper-casing each byte on the way.
fn to_upper_bytes(s: &[u8]) -> (r: Vec<u8>)
    ensures
        r@ == upper_bytes(s@),
{
    let n = s.len();
    let mut r: Vec<u8> = Vec::new();
    let mut i: usize = 0;
    while i < n
        invariant
            i <= n,
            n == s@.len(),
            r@ == upper_bytes(s@.subrange(0, i as int)),
        decreases n - i,
    {
        let b = s[i];
        let ub = if 97 <= b && b <= 122 {
            b - 32
        } else {
            b
        };
        r.push(ub);
        i += 1;
        proof {
            assert(r@ =~= upper_bytes(s@.subrange(0, i as int)));
        }
    }
    proof {
        assert(s@.subrange(0, n as int) =~= s@);
    }
    r
}

/// Upper-casing a byte sequence twice is the same as doing it once.
proof fn lemma_upper_bytes_idempotent(s: Seq<u8>)
    ensures
        upper_bytes(upper_bytes(s)) == upper_bytes(s),
{
    assert(upper_bytes(upper_bytes(s)) =~= upper_bytes(s));
}

/// ASCII upper-casing of a single byte: lower-case letters (0x61 `a` through
/// 0x7a `z`) are shifted down by 0x20, every other byte is kept as it is.
pub open spec fn upper_byte(b: u8) -> u8 {
    if 97 <= b && b <= 122 {
        (b - 32) as u8
    } else {
        b
    }
}

/// ASCII upper-casing of a whole byte sequence.
pub open spec fn upper_bytes(s: Seq<u8>) -> Seq<u8> {
    s.map_values(|b: u8| upper_byte(b))
}

/// The errors the store reports.
#[derive(Debug, Clone, PartialEq, Eq)]
pub enum GenomeError {
    /// A contig of this name is already in the store.
    DuplicateContig(String),
    /// The byte stream could not be decoded (e.g. corrupt gzip data).
    Io(String),
    /// The decoded bytes are not well-formed FASTA.
    Format(String),
}

/// An in-memory reference genome: an insertion-ordered association of
/// contig names to upper-cased sequence bytes.
#[derive(Debug)]
pub struct ReferenceGenome {
    /// The label of the data's origin (a file path, or empty when the
    /// genome was built programmatically). Never used for lookups.
    filename: String,
    /// Contig names, in first-seen order.
    contig_keys: Vec<String>,
    /// The sequence of each contig, parallel to `contig_keys`.
    contig_seqs: Vec<Vec<u8>>,
}

impl ReferenceGenome {
    /// The contig names, in insertion order.
    pub closed spec fn keys(self) -> Seq<Seq<char>> {
        self.contig_keys@.map_values(|k: String| k@)
    }

    /// The stored sequences, parallel to `keys()`.
    pub closed spec fn seqs(self) -> Seq<Seq<u8>> {
        self.contig_seqs@.map_values(|s: Vec<u8>| s@)
    }

    /// The label of the data's origin.
    pub closed spec fn source(self) -> Seq<char> {
        self.filename@
    }

    /// Whether a contig of this name is in the store.
    pub open spec fn has_contig(self, name: Seq<char>) -> bool {
        self.keys().contains(name)
    }

    /// The stored sequence of the named contig.
    pub open spec fn contig(self, name: Seq<char>) -> Seq<u8> {
        self.seqs()[self.keys().index_of(name)]
    }

    /// Well-formedness: names and sequences are parallel, names are unique,
    /// and every stored byte is already upper-cased.
    pub open spec fn wf(self) -> bool {
        &&& self.keys().len() == self.seqs().len()
        &&& forall|i: int, j: int|
            0 <= i < j < self.keys().len() ==> self.keys()[i] != self.keys()[j]
        &&& forall|i: int|
            0 <= i < self.seqs().len() ==> #[trigger] self.seqs()[i] == upper_bytes(self.seqs()[i])
    }

    /// Creates an empty reference genome, to be populated through
    /// `add_contig(...)`.
    pub fn empty_reference() -> (r: Self)
        ensures
            r.wf(),
            r.keys() == Seq::<Seq<char>>::empty(),
            r.seqs() == Seq::<Seq<u8>>::empty(),
            r.source() == Seq::<char>::empty(),
    {
        let r = Self { filename: String::new(), contig_keys: Vec::new(), contig_seqs: Vec::new() };
        proof {
            assert(r.keys() =~= Seq::<Seq<char>>::empty());
            assert(r.seqs() =~= Seq::<Seq<u8>>::empty());
        }
        r
    }

    /// With unique keys, the index chosen for a name is the index where the
    /// name stands.
    proof fn lemma_key_index(self, name: Seq<char>, i: int)
        requires
            self.wf(),
            0 <= i < self.keys().len(),
            self.keys()[i] == name,
        ensures
            self.keys().index_of(name) == i,
            self.contig(name) == self.seqs()[i],
    {
        assert(exists|j: int| 0 <= j < self.keys().len() && self.keys()[j] == name);
        let k = self.keys().index_of(name);
        assert(0 <= k < self.keys().len() && self.keys()[k] == name);
        if k < i {
            assert(self.keys()[k] != self.keys()[i]);
        } else if i < k {
            assert(self.keys()[i] != self.keys()[k]);
        }
    }

    /// The position of the named contig, or `None` when it is not in the
    /// store.
    fn find_key(&self, name: &str) -> (r: Option<usize>)
        ensures
            match r {
                Some(i) => {
                    &&& i < self.keys().len()
                    &&& self.keys()[i as int] == name@
                },
                None => !self.has_contig(name@),
            },
    {
        let n = self.contig_keys.len();
        let mut i: usize = 0;
        while i < n
            invariant
                i <= n,
                n == self.contig_keys@.len(),
                forall|j: int| 0 <= j < i ==> self.keys()[j] != name@,
            decreases n - i,
        {
            if str_eq(self.contig_keys[i].as_str(), name) {
                return Some(i);
            }
            i += 1;
        }
        None
    }

    /// Appends one named sequence, upper-casing its bytes, unless the name
    /// is already taken; the store is unchanged on the failure path.
    fn push_contig(&mut self, contig_key: String, sequence: &[u8]) -> (r: Result<(), GenomeError>)
        requires
            old(self).wf(),
        ensures
            final(self).wf(),
            final(self).source() == old(self).source(),
            match r {
                Ok(()) => {
                    &&& !old(self).has_contig(contig_key@)
                    &&& final(self).keys() == old(self).keys().push(contig_key@)
                    &&& final(self).seqs() == old(self).seqs().push(upper_bytes(sequence@))
                },
                Err(e) => {
                    &&& old(self).has_contig(contig_key@)
                    &&& *final(self) == *old(self)
                    &&& e matches GenomeError::DuplicateContig(k) && k@ == contig_key@
                },
            },
    {
        match self.find_key(contig_key.as_str()) {
            Some(i) => {
                proof {
                    assert(self.keys()[i as int] == contig_key@);
                }
                Err(GenomeError::DuplicateContig(contig_key))
            },
            None => {
                let upper = to_upper_bytes(sequence);
                let ghost pre = *self;
                self.contig_keys.push(contig_key);
                self.contig_seqs.push(upper);
                proof {
                    assert(self.keys() =~= pre.keys().push(contig_key@));
                    assert(self.seqs() =~= pre.seqs().push(upper_bytes(sequence@)));
                    lemma_upper_bytes_idempotent(sequence@);
                    assert forall|j: int| 0 <= j < pre.keys().len() implies pre.keys()[j]
                        != contig_key@ by {
                        if pre.keys()[j] == contig_key@ {
                            assert(pre.has_contig(contig_key@));
                        }
                    };
                }
                Ok(())
            },
        }
    }

    /// Adds a new contig to the reference genome. The sequence is stored as
    /// its UTF-8 bytes with every ASCII letter upper-cased. Fails with a
    /// duplicate-key error, carrying the offending key, when the name is
    /// already in the store; the store is then left unchanged.
    pub fn add_contig(&mut self, contig_key: String, contig_sequence: &str) -> (r: Result<
        (),
        GenomeError,
    >)
        requires
            old(self).wf(),
        ensures
            final(self).wf(),
            final(self).source() == old(self).source(),
            match r {
                Ok(()) => {
                    &&& !old(self).has_contig(contig_key@)
                    &&& final(self).keys() == old(self).keys().push(contig_key@)
                    &&& final(self).seqs() == old(self).seqs().push(
                        upper_bytes(contig_sequence.spec_bytes()),
                    )
                },
                Err(e) => {
                    &&& old(self).has_contig(contig_key@)
                    &&& *final(self) == *old(self)
                    &&& e matches GenomeError::DuplicateContig(k) && k@ == contig_key@
                },
            },
    {
        self.push_contig(contig_key, contig_sequence.as_bytes())
    }

    /// Builds a store from already-parsed FASTA records, inserting them in
    /// order under the duplicate-rejection rule: on the first name already
    /// seen, the whole load fails with a duplicate-key error carrying that
    /// name, and no store is returned.
    pub fn from_records(source: &str, records: Vec<FastaRecord>) -> (r: Result<
        ReferenceGenome,
        GenomeError,
    >)
        ensures
            match r {
                Ok(g) => {
                    &&& g.wf()
                    &&& g.source() == source@
                    &&& build_records(
                        Seq::empty(),
                        Seq::empty(),
                        records_view(records@),
                    ) == Ok::<_, Seq<char>>((g.keys(), g.seqs()))
                },
                Err(e) => e matches GenomeError::DuplicateContig(k) && build_records(
                    Seq::empty(),
                    Seq::empty(),
                    records_view(records@),
                ) == Err::<(Seq<Seq<char>>, Seq<Seq<u8>>), _>(k@),
            },
    {
        let mut g = ReferenceGenome {
            filename: source.to_owned(),
            contig_keys: Vec::new(),
            contig_seqs: Vec::new(),
        };
        proof {
            assert(g.keys() =~= Seq::<Seq<char>>::empty());
            assert(g.seqs() =~= Seq::<Seq<u8>>::empty());
            assert(records_view(records@).skip(0) =~= records_view(records@));
        }
        let n = records.len();
        let mut i: usize = 0;
        while i < n
            invariant
                i <= n,
                n == records@.len(),
                g.wf(),
                g.source() == source@,
                build_records(Seq::empty(), Seq::empty(), records_view(records@))
                    == build_records(g.keys(), g.seqs(), records_view(records@).skip(i as int)),
            decreases n - i,
        {
            let ghost rest = records_view(records@).skip(i as int);
            proof {
                assert(rest[0] == records_view(records@)[i as int]);
                assert(rest.drop_first() =~= records_view(records@).skip(i as int + 1));
            }
            let rec = &records[i];
            let key = rec.name.clone();
            match g.push_contig(key, rec.seq.as_slice()) {
                Ok(()) => {},
                Err(e) => {
                    return Err(e);
                },
            }
            i += 1;
        }
        proof {
            assert(records_view(records@).skip(n as int) =~= Seq::<(Seq<char>, Seq<u8>)>::empty());
        }
        Ok(g)
    }

    /// Loads a reference genome from the raw bytes of a FASTA file. The
    /// path is the label the file was read under: when its final extension
    /// component equals `gz` the bytes are first decompressed as a
    /// multi-member gzip stream. The decoded bytes are parsed as FASTA and
    /// the records inserted in order under the duplicate-rejection rule. A
    /// failed load returns no store: a corrupt gzip stream is an I/O error,
    /// malformed FASTA a format error, and a repeated contig name a
    /// duplicate-key error carrying that name.
    pub fn from_fasta(fasta_fn: &str, data: Vec<u8>) -> (r: Result<ReferenceGenome, GenomeError>)
        ensures
            match r {
                Ok(g) => {
                    &&& g.wf()
                    &&& g.source() == fasta_fn@
                    &&& load_model(fasta_fn@, data@) == Some(
                        Ok::<_, Seq<char>>((g.keys(), g.seqs())),
                    )
                },
                Err(e) => match e {
                    GenomeError::DuplicateContig(k) => load_model(fasta_fn@, data@) == Some(
                        Err::<(Seq<Seq<char>>, Seq<Seq<u8>>), _>(k@),
                    ),
                    GenomeError::Io(_) => decoded_content(fasta_fn@, data@) is None,
                    GenomeError::Format(_) => {
                        &&& decoded_content(fasta_fn@, data@) is Some
                        &&& fasta_records_of(decoded_content(fasta_fn@, data@)->Some_0) is None
                    },
                },
            },
    {
        let content: Vec<u8> = if is_gzip_path(fasta_fn) {
            match gunzip(data.as_slice()) {
                Ok(c) => c,
                Err(msg) => {
                    return Err(GenomeError::Io(msg));
                },
            }
        } else {
            data
        };
        let records = match parse_fasta(content.as_slice()) {
            Ok(rs) => rs,
            Err(msg) => {
                return Err(GenomeError::Format(msg));
            },
        };
        Self::from_records(fasta_fn, records)
    }

    /// The label of the data's origin: the path the genome was loaded from,
    /// or empty for a programmatically built genome.
    pub fn filename(&self) -> (r: &str)
        ensures
            r@ == self.source(),
    {
        self.filename.as_str()
    }

    /// The contig names, in insertion order.
    pub fn contig_keys(&self) -> (r: &[String])
        ensures
            r@.map_values(|k: String| k@) == self.keys(),
    {
        self.contig_keys.as_slice()
    }

    /// The bytes a range read returns: the stored sequence over
    /// `[start, end)`, after each bound is clamped down to the sequence
    /// length.
    pub open spec fn slice_model(self, name: Seq<char>, start: int, end: int) -> Seq<u8> {
        let s = self.contig(name);
        s.subrange(clamp_to(start, s.len() as int), clamp_to(end, s.len() as int))
    }

    /// Retrieves a read-only view of a contig range from 0-based
    /// coordinates (`start` included, `end` excluded). A bound past the end
    /// of the contig is clamped down to the contig length, so the result
    /// spans exactly `[clamp(start), clamp(end))` of the stored sequence;
    /// no bytes are copied. That the name is in the store and that
    /// `start <= end` are caller obligations, not recoverable errors.
    pub fn get_slice<'a>(&'a self, chromosome: &str, start: usize, end: usize) -> (r: &'a [u8])
        requires
            self.wf(),
            self.has_contig(chromosome@),
            start <= end,
        ensures
            r@ == self.slice_model(chromosome@, start as int, end as int),
    {
        match self.find_key(chromosome) {
            Some(i) => {
                proof {
                    self.lemma_key_index(chromosome@, i as int);
                }
                let full: &Vec<u8> = &self.contig_seqs[i];
                let len = full.len();
                let truncated_start = if start <= len {
                    start
                } else {
                    len
                };
                let truncated_end = if end <= len {
                    end
                } else {
                    len
                };
                slice_subrange(full.as_slice(), truncated_start, truncated_end)
            },
            None => vstd::pervasive::unreached(),
        }
    }

    /// Clamping idempotence: a range read whose bounds lie at or beyond the
    /// contig's length returns the same bytes as a range read whose bounds
    /// were already clamped down to the length.
    pub proof fn lemma_clamping_idempotent(self, name: Seq<char>, start: int, end: int)
        requires
            self.wf(),
            self.has_contig(name),
            0 <= start <= end,
        ensures
            self.slice_model(name, start, end) == self.slice_model(
                name,
                clamp_to(start, self.contig(name).len() as int),
                clamp_to(end, self.contig(name).len() as int),
            ),
    {
    }

    /// Slice monotonicity: reading from any valid start offset to the
    /// contig's length yields exactly the suffix of the full sequence that
    /// begins at that offset.
    pub proof fn lemma_slice_suffix(self, name: Seq<char>, start: int)
        requires
            self.wf(),
            self.has_contig(name),
            0 <= start <= self.contig(name).len(),
        ensures
            self.slice_model(name, start, self.contig(name).len() as int) == self.contig(
                name,
            ).skip(start),
    {
        assert(self.slice_model(name, start, self.contig(name).len() as int) =~= self.contig(
            name,
        ).skip(start));
    }

    /// Retrieves the complete stored sequence of a contig as a read-only
    /// view; no bytes are copied. That the name is in the store is a caller
    /// obligation, not a recoverable error.
    pub fn get_full_chromosome<'a>(&'a self, chromosome: &str) -> (r: &'a [u8])
        requires
            self.wf(),
            self.has_contig(chromosome@),
        ensures
            r@ == self.contig(chromosome@),
    {
        match self.find_key(chromosome) {
            Some(i) => {
                proof {
                    self.lemma_key_index(chromosome@, i as int);
                }
                self.contig_seqs[i].as_slice()
            },
            None => vstd::pervasive::unreached(),
        }
    }
}

} // verus!
