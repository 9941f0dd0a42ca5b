//! The archive of many files: a header, and for each file an entry with its
//! path, how it is packed, and its packed bytes.

use vstd::prelude::*;
use vstd::string::*;
use vstd::utf8::{
    decode_utf8, encode_utf8, encode_utf8_decode_utf8, encode_utf8_valid_utf8, valid_utf8,
};
use crate::bytes::{
    append, copy_of, le16_bytes, le16_value, le32_bytes, le32_value, le64_bytes, le64_value,
    lemma_le16, lemma_le32, lemma_le64, push_le16, push_le32, push_le64, read_le16, read_le32,
    read_le64, same,
};
use crate::consensus::Consensus;
use crate::deflate::{compress_zlib, inflate, zlib_contents, zlib_stream};
use crate::format::{read_file, FileView, FormatError, MucasFile};
use crate::judge::{byte_counts, Answers, Judge};
use crate::lz::{LzAnalysis, LzEncoder};
use crate::machine::{execute, Env, MAX_OUTPUT_BYTES};
use crate::pipeline::{is_piped, Pipeline, PipelineResult};
use crate::sched::{
    class_of, classify_with_data, is_already_compressed, is_compressed_format, is_standard,
    measures, synthesis_for, ClassMetrics, DataClass,
};
use crate::synth::draft::{restoring_code_runs, Draft};
use crate::synth::program::{code_of, SynthProgram};
use crate::synth::refs::{referred, short_keys, Referred};
use crate::synth::scan::looks_like_json;
use crate::text::{around, decimal, decimal_text, hex, hex_text, with_number};
use crate::tokens::{lo32, toks_bytes, Tok};
use crate::vm::VmState;

verus! {

broadcast use {
    vstd::std_specs::hash::group_hash_axioms,
    crate::bytes::lemma_le32_len,
    crate::bytes::lemma_le32_bound,
};

/// The mark at the start of an archive: "MCAR".
pub const MAGIC: [u8; 4] = [0x4D, 0x43, 0x41, 0x52];

/// The archive version.
pub const VERSION: u8 = 0x01;

/// Files larger than this are stored as they are, unless told otherwise.
pub const DEFAULT_MAX_MEMORY: usize = 268_435_456;

/// Files smaller than this are not worth a synthesis.
pub const SMALL_FILE_THRESHOLD: usize = 65_536;

/// How an entry is packed.
#[derive(Debug, Clone, Copy, PartialEq, Eq, Structural)]
pub enum Method {
    /// As it is.
    Store,
    /// As a zlib stream.
    Zlib,
    /// As a program in a container.
    MuCAS,
}

/// Why bytes are not an archive, or cannot be made one.
#[derive(Debug, Clone, Copy, PartialEq, Eq, Structural)]
pub enum ArchiveError {
    /// The data ends too early.
    TooShort,
    /// The data does not start with the mark.
    BadMagic,
    /// The version is not the known one.
    UnsupportedVersion(u8),
    /// No way of packing has this number.
    UnknownMethod(u8),
    /// The path of this entry is not UTF-8.
    InvalidPath(usize),
    /// This entry does not inflate.
    EntryDecompressFailed { index: usize },
    /// This entry is no container, or its program fails.
    MuCASDecompressFailed { index: usize },
    /// Another number of entries was written than announced.
    CountMismatch { expected: u32, actual: u32 },
}

impl ArchiveError {
    /// What went wrong, in words.
    pub open spec fn message(self) -> Seq<char> {
        match self {
            ArchiveError::TooShort => "archive too short"@,
            ArchiveError::BadMagic => "not a .mcar archive (bad magic)"@,
            ArchiveError::UnsupportedVersion(v) => "unsupported .mcar version 0x"@ + hex(v),
            ArchiveError::UnknownMethod(m) => "unknown compression method "@ + decimal(m as nat),
            ArchiveError::InvalidPath(index) => "entry "@ + decimal(index as nat)
                + ": path is not valid UTF-8"@,
            ArchiveError::EntryDecompressFailed { index } => "entry "@ + decimal(index as nat)
                + ": zlib decompression failed"@,
            ArchiveError::MuCASDecompressFailed { index } => "entry "@ + decimal(index as nat)
                + ": μCAS decode/execute failed"@,
            ArchiveError::CountMismatch { expected, actual } =>
                "entry count mismatch: header said "@ + decimal(expected as nat) + ", wrote "@
                + decimal(actual as nat),
        }
    }

    /// Returns what went wrong, in words.
    pub fn describe(&self) -> (text: String)
        ensures
            text@ == self.message(),
    {
        match self {
            ArchiveError::TooShort => "archive too short".to_owned(),
            ArchiveError::BadMagic => "not a .mcar archive (bad magic)".to_owned(),
            ArchiveError::UnsupportedVersion(v) => with_number(
                "unsupported .mcar version 0x",
                hex_text(*v),
            ),
            ArchiveError::UnknownMethod(m) => with_number(
                "unknown compression method ",
                decimal_text(*m as u64),
            ),
            ArchiveError::InvalidPath(index) => around(
                "entry ",
                decimal_text(*index as u64),
                ": path is not valid UTF-8",
            ),
            ArchiveError::EntryDecompressFailed { index } => around(
                "entry ",
                decimal_text(*index as u64),
                ": zlib decompression failed",
            ),
            ArchiveError::MuCASDecompressFailed { index } => around(
                "entry ",
                decimal_text(*index as u64),
                ": μCAS decode/execute failed",
            ),
            ArchiveError::CountMismatch { expected, actual } => with_number(
                around(
                    "entry count mismatch: header said ",
                    decimal_text(*expected as u64),
                    ", wrote ",
                ).as_str(),
                decimal_text(*actual as u64),
            ),
        }
    }
}

impl Method {
    /// The number of the way of packing.
    pub open spec fn byte(self) -> u8 {
        match self {
            Method::Store => 0,
            Method::Zlib => 1,
            Method::MuCAS => 2,
        }
    }

    /// The way of packing with this number.
    pub open spec fn of_byte(b: u8) -> Result<Method, ArchiveError> {
        if b == 0 {
            Ok(Method::Store)
        } else if b == 1 {
            Ok(Method::Zlib)
        } else if b == 2 {
            Ok(Method::MuCAS)
        } else {
            Err(ArchiveError::UnknownMethod(b))
        }
    }

    /// Returns the number of the way of packing.
    pub fn to_byte(self) -> (b: u8)
        ensures
            b == self.byte(),
            Method::of_byte(b) == Ok::<Method, ArchiveError>(self),
    {
        match self {
            Method::Store => 0,
            Method::Zlib => 1,
            Method::MuCAS => 2,
        }
    }
}

impl TryFrom<u8> for Method {
    type Error = ArchiveError;

    fn try_from(b: u8) -> (r: Result<Method, ArchiveError>) {
        match b {
            0 => Ok(Method::Store),
            1 => Ok(Method::Zlib),
            2 => Ok(Method::MuCAS),
            _ => Err(ArchiveError::UnknownMethod(b)),
        }
    }
}

impl vstd::std_specs::convert::TryFromSpecImpl<u8> for Method {
    open spec fn obeys_try_from_spec() -> bool {
        true
    }

    open spec fn try_from_spec(b: u8) -> Result<Method, ArchiveError> {
        Method::of_byte(b)
    }
}

/// Calls `String::from_utf8`.
///
/// What is relied on: the bytes become a string exactly if they are valid
/// UTF-8, and the string spells them.
#[verifier::external_body]
fn utf8_string(bytes: Vec<u8>) -> (r: Option<String>)
    ensures
        match r {
            Some(s) => valid_utf8(bytes@) && s@ == decode_utf8(bytes@),
            None => !valid_utf8(bytes@),
        },
{
    match String::from_utf8(bytes) {
        Ok(s) => Some(s),
        Err(_) => None,
    }
}

/// What a packed entry unpacks to, if it does.
pub open spec fn unpacked(method: Method, packed: Seq<u8>) -> Option<Seq<u8>> {
    match method {
        Method::Store => Some(packed),
        Method::Zlib => zlib_contents(packed),
        Method::MuCAS => match read_file(packed) {
            Err(_) => None,
            Ok(f) => {
                let end = execute(f.program, Env { subs: f.subs, consensus: f.consensus });
                if end.err is None {
                    Some(end.out)
                } else {
                    None
                }
            },
        },
    }
}

/// The error for entry `index` if it does not unpack.
pub open spec fn unpack_error(method: Method, index: usize) -> ArchiveError {
    match method {
        Method::MuCAS => ArchiveError::MuCASDecompressFailed { index },
        _ => ArchiveError::EntryDecompressFailed { index },
    }
}

/// Unpacks entry `index`. A program runs against the consensus blocks of its own
/// container.
pub fn decompress_entry(method: Method, data: &[u8], index: usize) -> (r: Result<
    Vec<u8>,
    ArchiveError,
>)
    ensures
        match unpacked(method, data@) {
            Some(out) => r matches Ok(v) && v@ == out,
            None => r == Err::<Vec<u8>, ArchiveError>(unpack_error(method, index)),
        },
{
    match method {
        Method::Store => Ok(copy_of(data)),
        Method::Zlib => match inflate(data) {
            Some(out) => Ok(out),
            None => Err(ArchiveError::EntryDecompressFailed { index }),
        },
        Method::MuCAS => {
            let file: MucasFile = match MucasFile::decode(data) {
                Ok(file) => file,
                Err(_) => {
                    return Err(ArchiveError::MuCASDecompressFailed { index });
                },
            };
            let mut vm: VmState = VmState::new();
            match vm.exec(file.program.as_slice(), &file.subs, &file.consensus) {
                Ok(_) => Ok(vm.into_output()),
                Err(_) => Err(ArchiveError::MuCASDecompressFailed { index }),
            }
        },
    }
}

/// The smallest of the packings that is smaller than the data, a program before
/// a zlib stream of the same size, or the data as it is.
pub open spec fn smallest(data: Seq<u8>, program: Option<Seq<u8>>, zlib: Seq<u8>) -> (
    Method,
    Seq<u8>,
) {
    let (method, best) = match program {
        Some(p) if p.len() <= zlib.len() => (Method::MuCAS, p),
        _ => (Method::Zlib, zlib),
    };
    if best.len() < data.len() {
        (method, best)
    } else {
        (Method::Store, data)
    }
}

/// What an optional vector holds.
pub open spec fn contents(v: Option<Vec<u8>>) -> Option<Seq<u8>> {
    match v {
        Some(v) => Some(v@),
        None => None,
    }
}

/// Returns the smallest of the packings that is smaller than the data, or the
/// data as it is.
pub fn pick_smallest(data: &[u8], program: Option<Vec<u8>>, zlib: Vec<u8>) -> (r: (
    Method,
    Vec<u8>,
))
    ensures
        (r.0, r.1@) == smallest(data@, contents(program), zlib@),
{
    let (method, best) = match program {
        Some(p) => {
            if p.len() <= zlib.len() {
                (Method::MuCAS, p)
            } else {
                (Method::Zlib, zlib)
            }
        },
        None => (Method::Zlib, zlib),
    };
    if best.len() < data.len() {
        (method, best)
    } else {
        (Method::Store, copy_of(data))
    }
}

/// A draft after the references to the shared blocks, if there are any.
pub open spec fn with_shared(d: Draft, shared: Option<Consensus>) -> Referred {
    let start = Referred { toks: d.toks, blocks: vstd::map::Map::empty(), cost: 0 };
    match shared {
        Some(c) => referred(start, c.listing(), c.listing().len()),
        None => start,
    }
}

/// The container holds this program and these blocks.
pub open spec fn holds(
    f: MucasFile,
    toks: Seq<Tok>,
    defs: vstd::map::Map<u32, Seq<Tok>>,
    blocks: vstd::map::Map<Seq<u8>, Seq<u8>>,
) -> bool {
    &&& f@ == (FileView {
        program: toks_bytes(toks),
        subs: code_of(defs),
        flags: if blocks == vstd::map::Map::<Seq<u8>, Seq<u8>>::empty() {
            0
        } else {
            1
        },
        consensus: blocks,
    })
    &&& f.is_listed()
}

/// The container holds what the pipeline makes of data of this kind, with
/// references to the shared blocks.
#[verifier::opaque]
pub open spec fn is_file_for(
    data: Seq<u8>,
    class: DataClass,
    shared: Option<Consensus>,
    f: MucasFile,
    answers: Answers,
) -> bool {
    exists|lz: LzEncoder, d: Draft, hybrid: bool|
        is_standard(lz) && #[trigger] is_piped(class, lz, data, d, hybrid, answers) && holds(
            f,
            with_shared(d, shared).toks,
            d.defs,
            with_shared(d, shared).blocks,
        )
}

/// Data of this kind packed as a program: there is none if the data is longer than what a
/// program may yield, or if the container is too large.
#[verifier::opaque]
pub open spec fn packs_as(
    data: Seq<u8>,
    class: DataClass,
    shared: Option<Consensus>,
    program: Option<Seq<u8>>,
    answers: Answers,
) -> bool {
    match program {
        Some(p) => data.len() <= MAX_OUTPUT_BYTES && exists|f: MucasFile| #[trigger]
            is_file_for(data, class, shared, f, answers) && f.payload().len() < 0x1_0000_0000
                && f.encodes(p),
        None => data.len() > MAX_OUTPUT_BYTES || exists|f: MucasFile| #[trigger]
            is_file_for(data, class, shared, f, answers) && f.payload().len() >= 0x1_0000_0000,
    }
}

/// Returns the container of a program with the blocks that it refers to.
fn container_of(prog: SynthProgram) -> (f: MucasFile)
    ensures
        holds(f, prog.toks(), prog.defs(), prog.consensus@),
{
    let (code, subs) = prog.to_bytes();
    MucasFile::new_with_consensus(code, subs, prog.consensus)
}

/// A container that holds a program unpacks to what the program yields.
pub proof fn container_yields_the_data(
    f: MucasFile,
    d: Draft,
    blocks: vstd::map::Map<Seq<u8>, Seq<u8>>,
    out: Seq<u8>,
    data: Seq<u8>,
)
    requires
        holds(f, d.toks, d.defs, blocks),
        d.restores(blocks, data),
        read_file(out) == Ok::<FileView, FormatError>(f@),
    ensures
        unpacked(Method::MuCAS, out) == Some(data),
{
    restoring_code_runs(d, blocks, data);
    assert(Env { subs: f@.subs, consensus: f@.consensus } == d.env(blocks));
}

/// Synthesizes the container of data of this kind.
fn synthesize_file<J: Judge>(
    data: &[u8],
    Ghost(class): Ghost<DataClass>,
    shared: &Option<Consensus>,
    judge: &J,
) -> (r: (MucasFile, Ghost<(Draft, vstd::map::Map<Seq<u8>, Seq<u8>>)>))
    requires
        data@.len() <= MAX_OUTPUT_BYTES,
        data@.len() + 4 <= usize::MAX,
        is_kind_of(data@, class, judge.answers()),
    ensures
        is_file_for(data@, class, *shared, r.0, judge.answers()),
        holds(r.0, r.1@.0.toks, r.1@.0.defs, r.1@.1),
        short_keys(r.1@.1),
        r.1@.0.restores(r.1@.1, data@),
{
    let pipeline: Pipeline = Pipeline::new();
    let made: PipelineResult = pipeline.compress_verbose(data, judge);
    let ghost hybrid = made.used_hybrid_path;
    let ghost lz = pipeline.encoder();
    proof {
        assert(is_kind_of(data@, made.data_class, judge.answers())) by {
            reveal(is_kind_of);
            assert(is_standard(lz));
            assert(measures(made.metrics, data@, lz.parse(data@), data@.len(), judge.answers()));
        }
        the_kind_is_one(data@, class, made.data_class, judge.answers());
    }
    let mut prog: SynthProgram = made.program;
    let ghost d = prog.draft();
    assert(is_piped(class, lz, data@, d, hybrid, judge.answers()));
    if let Some(consensus) = shared {
        prog.apply_ref_pass(consensus);
    }
    assert(prog.restores(data@));
    let ghost end = prog.draft();
    let ghost blocks = prog.consensus@;
    let file: MucasFile = container_of(prog);
    assert(is_file_for(data@, class, *shared, file, judge.answers())) by {
        reveal(is_file_for);
        assert(with_shared(d, *shared).toks == end.toks);
        assert(with_shared(d, *shared).blocks == blocks);
        assert(d.defs == end.defs);
    }
    (file, Ghost((end, blocks)))
}

/// Packs data of this kind as a program, unless it is too large for one.
fn pack_program<J: Judge>(
    data: &[u8],
    Ghost(class): Ghost<DataClass>,
    shared: &Option<Consensus>,
    judge: &J,
) -> (r: Option<Vec<u8>>)
    requires
        is_kind_of(data@, class, judge.answers()),
        data@.len() + 4 <= usize::MAX,
    ensures
        packs_as(data@, class, *shared, contents(r), judge.answers()),
        r matches Some(out) ==> unpacked(Method::MuCAS, out@) == Some(data@) && data@.len()
            <= MAX_OUTPUT_BYTES,
{
    if data.len() > MAX_OUTPUT_BYTES {
        assert(packs_as(data@, class, *shared, None, judge.answers())) by {
            reveal(packs_as);
        }
        return None;
    }
    let (file, made) = synthesize_file(data, Ghost(class), shared, judge);
    let ghost d = made@.0;
    let ghost blocks = made@.1;
    let r: Option<Vec<u8>> = file.try_encode();
    proof {
        assert(packs_as(data@, class, *shared, contents(r), judge.answers())) by {
            reveal(packs_as);
            assert(is_file_for(data@, class, *shared, file, judge.answers()));
        }
        if r is Some {
            let out = r->0;
            assert(file@.consensus == file.consensus@);
            assert(file@.flags == file.flags);
            assert(file.is_sound());
            container_yields_the_data(file, d, blocks, out@, data@);
        }
    }
    r
}

/// Whatever is packed unpacks to the data, and is never larger than the data.
pub open spec fn is_packing(data: Seq<u8>, method: Method, packed: Seq<u8>) -> bool {
    &&& unpacked(method, packed) == Some(data)
    &&& match method {
        Method::Store => packed == data,
        Method::Zlib => packed == zlib_stream(data, 9) && packed.len() < data.len(),
        Method::MuCAS => packed.len() < data.len() <= MAX_OUTPUT_BYTES,
    }
}

/// What is settled before the kind of the data is told. Formats that are
/// compressed already, files above `max_memory` and data that is close to random
/// are stored as they are. Small files are tried as a zlib stream only, unless
/// they may refer to shared blocks.
pub open spec fn settled(
    data: Seq<u8>,
    max_memory: usize,
    sharing: bool,
    near_random: bool,
) -> Option<(Method, Seq<u8>)> {
    if is_compressed_format(data) || data.len() > max_memory || (data.len() > 0 && near_random) {
        Some((Method::Store, data))
    } else if data.len() < SMALL_FILE_THRESHOLD && !sharing {
        Some(smallest(data, None, zlib_stream(data, 9)))
    } else {
        None
    }
}

/// Settles what can be settled before the kind of the data is told.
pub fn settle(data: &[u8], max_memory: usize, sharing: bool, near_random: bool) -> (r: Option<
    (Method, Vec<u8>),
>)
    ensures
        match settled(data@, max_memory, sharing, near_random) {
            Some((method, packed)) => r matches Some(p) && p.0 == method && p.1@ == packed,
            None => r is None,
        },
        r matches Some(p) ==> is_packing(data@, p.0, p.1@),
{
    if is_already_compressed(data) || data.len() > max_memory || (data.len() > 0 && near_random) {
        Some((Method::Store, copy_of(data)))
    } else if data.len() < SMALL_FILE_THRESHOLD && !sharing {
        Some(pick_smallest(data, None, compress_zlib(data)))
    } else {
        None
    }
}

/// Data of this kind is tried as a program.
pub open spec fn is_worth_a_program(class: DataClass) -> bool {
    synthesis_for(class) is Some && class != DataClass::UnstructuredText
}

/// How data of a kind is packed: what is random or compressed is stored, prose
/// is tried as a zlib stream, other data as a program too.
pub open spec fn by_class(data: Seq<u8>, class: DataClass, program: Option<Seq<u8>>) -> (
    Method,
    Seq<u8>,
) {
    match class {
        DataClass::AlreadyCompressed => (Method::Store, data),
        DataClass::Binary => (Method::Store, data),
        DataClass::UnstructuredText => smallest(data, None, zlib_stream(data, 9)),
        _ => smallest(data, program, zlib_stream(data, 9)),
    }
}

/// Packs data of a kind, given its program.
pub fn pack_by_class(data: &[u8], class: DataClass, program: Option<Vec<u8>>) -> (r: (
    Method,
    Vec<u8>,
))
    ensures
        (r.0, r.1@) == by_class(data@, class, contents(program)),
        (program matches Some(p) ==> unpacked(Method::MuCAS, p@) == Some(data@)) && (program is Some
            ==> data@.len() <= MAX_OUTPUT_BYTES) ==> is_packing(data@, r.0, r.1@),
{
    match class {
        DataClass::AlreadyCompressed | DataClass::Binary => (Method::Store, copy_of(data)),
        DataClass::UnstructuredText => pick_smallest(data, None, compress_zlib(data)),
        _ => pick_smallest(data, program, compress_zlib(data)),
    }
}

/// The data is of this kind, by its metrics.
#[verifier::opaque]
pub open spec fn is_kind_of(data: Seq<u8>, class: DataClass, answers: Answers) -> bool {
    exists|lz: LzEncoder, m: ClassMetrics|
        is_standard(lz) && #[trigger] measures(m, data, lz.parse(data), data.len(), answers)
            && class == (
        if is_compressed_format(data) {
            DataClass::AlreadyCompressed
        } else {
            class_of(m, looks_like_json(data))
        })
}

/// Data is of one kind alone.
pub proof fn the_kind_is_one(data: Seq<u8>, a: DataClass, b: DataClass, answers: Answers)
    requires
        is_kind_of(data, a, answers),
        is_kind_of(data, b, answers),
    ensures
        a == b,
{
    reveal(is_kind_of);
    let (x, m) = choose|lz: LzEncoder, m: ClassMetrics|
        is_standard(lz) && #[trigger] measures(m, data, lz.parse(data), data.len(), answers) && a
            == (if is_compressed_format(data) {
            DataClass::AlreadyCompressed
        } else {
            class_of(m, looks_like_json(data))
        });
    let (y, n) = choose|lz: LzEncoder, m: ClassMetrics|
        is_standard(lz) && #[trigger] measures(m, data, lz.parse(data), data.len(), answers) && b
            == (if is_compressed_format(data) {
            DataClass::AlreadyCompressed
        } else {
            class_of(m, looks_like_json(data))
        });
    assert(x == y);
    assert(m == n) by {
        reveal(measures);
    }
}

/// The packing is what is settled early, or else what the kind of the data asks
/// for.
pub open spec fn is_choice(
    data: Seq<u8>,
    max_memory: usize,
    shared: Option<Consensus>,
    method: Method,
    packed: Seq<u8>,
    answers: Answers,
) -> bool {
    match settled(data, max_memory, shared is Some, answers.is_random(data)) {
        Some(p) => (method, packed) == p,
        None => exists|class: DataClass, program: Option<Seq<u8>>|
            is_kind_of(data, class, answers) && (is_worth_a_program(class) ==> packs_as(
                data,
                class,
                shared,
                program,
                answers,
            )) && (method, packed) == #[trigger] by_class(data, class, program),
    }
}

/// Packs the bytes of a file as small as possible.
pub fn compress_entry_data<J: Judge>(
    data: &[u8],
    max_memory: usize,
    shared: &Option<Consensus>,
    judge: &J,
) -> (r: (Method, Vec<u8>))
    requires
        data@.len() + 4 <= usize::MAX,
    ensures
        is_packing(data@, r.0, r.1@),
        is_choice(data@, max_memory, *shared, r.0, r.1@, judge.answers()),
{
    let near_random: bool = if data.len() > 0 {
        judge.near_random(&byte_counts(data), data.len())
    } else {
        false
    };
    if let Some((method, packed)) = settle(data, max_memory, shared.is_some(), near_random) {
        assert(near_random == judge.answers().is_random(data@));
        return (method, packed);
    }
    let encoder: LzEncoder = LzEncoder::new();
    let analysis: LzAnalysis = encoder.analyze(data);
    let metrics: ClassMetrics = ClassMetrics::compute(data, &analysis, judge);
    let class: DataClass = classify_with_data(&metrics, data);
    assert(is_kind_of(data@, class, judge.answers())) by {
        reveal(is_kind_of);
        assert(is_standard(encoder));
        assert(measures(
            metrics,
            data@,
            encoder.parse(data@),
            data@.len(),
            judge.answers(),
        ));
    }
    let program: Option<Vec<u8>> = match class {
        DataClass::AlreadyCompressed | DataClass::Binary | DataClass::UnstructuredText => None,
        _ => pack_program(data, Ghost(class), shared, judge),
    };
    let ghost p = contents(program);
    let r: (Method, Vec<u8>) = pack_by_class(data, class, program);
    proof {
        assert((r.0, r.1@) == by_class(data@, class, p));
        assert(near_random == judge.answers().is_random(data@));
        assert(is_choice(data@, max_memory, *shared, r.0, r.1@, judge.answers()));
    }
    r
}

/// What was written so far.
#[derive(Debug, Clone, Copy)]
pub struct WriteStats {
    pub store_count: usize,
    pub zlib_count: usize,
    pub mucas_count: usize,
    pub total_original: u64,
    pub total_compressed: u64,
}

impl Default for WriteStats {
    fn default() -> (s: WriteStats)
        ensures
            s == no_stats(),
    {
        WriteStats {
            store_count: 0,
            zlib_count: 0,
            mucas_count: 0,
            total_original: 0,
            total_compressed: 0,
        }
    }
}

/// Nothing was written.
pub open spec fn no_stats() -> WriteStats {
    WriteStats {
        store_count: 0,
        zlib_count: 0,
        mucas_count: 0,
        total_original: 0,
        total_compressed: 0,
    }
}

/// The sum, or the largest number if the sum is larger.
pub open spec fn sum64(a: u64, b: u64) -> u64 {
    if a + b <= u64::MAX {
        (a + b) as u64
    } else {
        u64::MAX
    }
}

/// One more, or the largest number.
pub open spec fn one_more(a: usize) -> usize {
    if a < usize::MAX {
        (a + 1) as usize
    } else {
        usize::MAX
    }
}

/// The numbers with one entry more.
pub open spec fn with_entry(s: WriteStats, method: Method, original: u64, packed: u64) -> WriteStats {
    WriteStats {
        store_count: if method == Method::Store {
            one_more(s.store_count)
        } else {
            s.store_count
        },
        zlib_count: if method == Method::Zlib {
            one_more(s.zlib_count)
        } else {
            s.zlib_count
        },
        mucas_count: if method == Method::MuCAS {
            one_more(s.mucas_count)
        } else {
            s.mucas_count
        },
        total_original: sum64(s.total_original, original),
        total_compressed: sum64(s.total_compressed, packed),
    }
}

/// The header of an archive with so many entries.
pub open spec fn archive_header(count: u32) -> Seq<u8> {
    seq![0x4Du8, 0x43, 0x41, 0x52, 0x01, 0x00] + le32_bytes(count as nat)
}

/// What comes before the packed bytes of an entry: the length of its path, the
/// path, how it is packed, its size before and after packing.
pub open spec fn entry_header(path: Seq<u8>, method: Method, original: nat, size: nat) -> Seq<u8> {
    le16_bytes(path.len() % 0x1_0000) + path + seq![method.byte()] + le64_bytes(original)
        + le32_bytes(lo32(size))
}

/// An entry.
pub open spec fn entry_bytes(
    path: Seq<u8>,
    method: Method,
    original: nat,
    packed: Seq<u8>,
) -> Seq<u8> {
    entry_header(path, method, original, packed.len()) + packed
}

/// A file of `size` bytes is stored without being looked at: its format is compressed
/// already, its size does not fit its field, or it is above the limit.
pub open spec fn is_stored_unread(size: nat, already_compressed: bool, limit: nat) -> bool {
    already_compressed || size > u32::MAX || size > limit
}

/// Writes an archive entry by entry. The number of entries is fixed from the
/// start, so that the header can be written first.
pub struct ArchiveWriter {
    pub state: WriterState,
    pub stats: WriteStats,
    pub last_method: Option<Method>,
}

/// What a writer holds and how it was set up.
pub struct WriterState {
    out: Vec<u8>,
    expected_count: u32,
    actual_count: u64,
    max_memory: usize,
    consensus: Option<Consensus>,
}

impl ArchiveWriter {
    /// The bytes written and not yet taken.
    pub closed spec fn pending(&self) -> Seq<u8> {
        self.state.out@
    }

    /// How many entries the header announces.
    pub closed spec fn expected(&self) -> u32 {
        self.state.expected_count
    }

    /// How many entries were written.
    pub closed spec fn written(&self) -> nat {
        self.state.actual_count as nat
    }

    /// Above which size files are stored as they are.
    pub closed spec fn limit(&self) -> usize {
        self.state.max_memory
    }

    /// The blocks that entries may refer to.
    pub closed spec fn shared(&self) -> Option<Consensus> {
        self.state.consensus
    }

    /// The numbers of what was written.
    pub open spec fn numbers(&self) -> WriteStats {
        self.stats
    }

    /// How the last entry was packed.
    pub open spec fn latest(&self) -> Option<Method> {
        self.last_method
    }

    /// One entry more was written: these bytes, packed this way.
    pub open spec fn has_grown(
        &self,
        before: &ArchiveWriter,
        bytes: Seq<u8>,
        method: Method,
        original: u64,
        packed: u64,
    ) -> bool {
        &&& self.pending() == before.pending() + bytes
        &&& self.expected() == before.expected()
        &&& self.written() == before.written() + 1
        &&& self.limit() == before.limit()
        &&& self.shared() == before.shared()
        &&& self.numbers() == with_entry(before.numbers(), method, original, packed)
        &&& self.latest() == Some(method)
    }

    /// Returns a writer for so many entries.
    pub fn new(entry_count: u32) -> (w: ArchiveWriter)
        ensures
            w.pending() == archive_header(entry_count),
            w.expected() == entry_count,
            w.written() == 0,
            w.limit() == DEFAULT_MAX_MEMORY,
            w.limit() == 0x1000_0000,
            w.shared() is None,
            w.numbers() == no_stats(),
            w.latest() is None,
    {
        ArchiveWriter::with_options(entry_count, DEFAULT_MAX_MEMORY)
    }

    /// Returns a writer for so many entries that stores files above `max_memory`
    /// as they are.
    pub fn with_options(entry_count: u32, max_memory: usize) -> (w: ArchiveWriter)
        ensures
            w.pending() == archive_header(entry_count),
            w.expected() == entry_count,
            w.written() == 0,
            w.limit() == max_memory,
            w.shared() is None,
            w.numbers() == no_stats(),
            w.latest() is None,
    {
        ArchiveWriter::with_consensus_options(entry_count, max_memory, None)
    }

    /// Returns a writer for so many entries that stores files above `max_memory`
    /// as they are, and whose entries may refer to the blocks of `consensus`.
    /// Each entry takes up the blocks that it refers to.
    pub fn with_consensus_options(
        entry_count: u32,
        max_memory: usize,
        consensus: Option<Consensus>,
    ) -> (w: ArchiveWriter)
        ensures
            w.pending() == archive_header(entry_count),
            w.expected() == entry_count,
            w.written() == 0,
            w.limit() == max_memory,
            w.shared() == consensus,
            w.numbers() == no_stats(),
            w.latest() is None,
    {
        let mut out: Vec<u8> = Vec::new();
        let magic: [u8; 4] = MAGIC;
        append(&mut out, magic.as_slice());
        out.push(VERSION);
        out.push(0x00);
        push_le32(&mut out, entry_count);
        assert(out@ =~= archive_header(entry_count));
        let state: WriterState = WriterState {
            out,
            expected_count: entry_count,
            actual_count: 0,
            max_memory,
            consensus,
        };
        ArchiveWriter { state, stats: WriteStats::default(), last_method: None }
    }

    fn write_entry_header(&mut self, path: &str, method: Method, original: u64, size: u32)
        ensures
            final(self).pending() == old(self).pending() + entry_header(
                path.spec_bytes(),
                method,
                original as nat,
                size as nat,
            ),
            final(self).expected() == old(self).expected(),
            final(self).written() == old(self).written(),
            final(self).limit() == old(self).limit(),
            final(self).shared() == old(self).shared(),
            final(self).numbers() == old(self).numbers(),
            final(self).latest() == old(self).latest(),
    {
        let ghost before = self.state.out@;
        let bytes: &[u8] = path.as_bytes();
        push_le16(&mut self.state.out, (bytes.len() % 0x1_0000) as u16);
        append(&mut self.state.out, bytes);
        self.state.out.push(method.to_byte());
        push_le64(&mut self.state.out, original);
        push_le32(&mut self.state.out, size);
        assert(self.state.out@ =~= before + entry_header(
            path.spec_bytes(),
            method,
            original as nat,
            size as nat,
        ));
    }

    fn record(&mut self, method: Method, original: u64, packed: u64)
        requires
            old(self).written() < u64::MAX,
        ensures
            final(self).pending() == old(self).pending(),
            final(self).expected() == old(self).expected(),
            final(self).written() == old(self).written() + 1,
            final(self).limit() == old(self).limit(),
            final(self).shared() == old(self).shared(),
            final(self).numbers() == with_entry(old(self).numbers(), method, original, packed),
            final(self).latest() == Some(method),
    {
        self.state.actual_count = self.state.actual_count + 1;
        self.last_method = Some(method);
        let mut s: WriteStats = self.stats;
        s.total_original = s.total_original.saturating_add(original);
        s.total_compressed = s.total_compressed.saturating_add(packed);
        match method {
            Method::Store => {
                s.store_count = s.store_count.saturating_add(1);
            },
            Method::Zlib => {
                s.zlib_count = s.zlib_count.saturating_add(1);
            },
            Method::MuCAS => {
                s.mucas_count = s.mucas_count.saturating_add(1);
            },
        }
        self.stats = s;
    }

    /// Adds a file, packed as small as possible.
    #[verifier::rlimit(30)]
    pub fn add_file_bytes<J: Judge>(&mut self, rel_path: &str, data: &[u8], judge: &J)
        requires
            data@.len() + 4 <= usize::MAX,
            old(self).written() < u64::MAX,
        ensures
            exists|method: Method, packed: Seq<u8>| #[trigger]
                is_packing(data@, method, packed) && final(self).has_grown(
                    old(self),
                    entry_bytes(rel_path.spec_bytes(), method, data@.len(), packed),
                    method,
                    data@.len() as u64,
                    packed.len() as u64,
                ) && is_choice(
                    data@,
                    old(self).limit(),
                    old(self).shared(),
                    method,
                    packed,
                    judge.answers(),
                ),
    {
        let (method, packed) = compress_entry_data(
            data,
            self.state.max_memory,
            &self.state.consensus,
            judge,
        );
        let ghost before = self.state.out@;
        let size: u32 = (packed.len() as u64 % 0x1_0000_0000) as u32;
        self.write_entry_header(rel_path, method, data.len() as u64, size);
        append(&mut self.state.out, packed.as_slice());
        self.record(method, data.len() as u64, packed.len() as u64);
        proof {
            let path = rel_path.spec_bytes();
            assert(entry_header(path, method, data@.len(), packed@.len()) == entry_header(
                path,
                method,
                data@.len(),
                size as nat,
            ));
            assert(self.state.out@ =~= before + entry_bytes(path, method, data@.len(), packed@));
            assert(is_packing(data@, method, packed@));
        }
    }

    /// Returns whether a file of `size` bytes is stored without being loaded: its
    /// format is compressed already, or it is too large.
    pub fn stores_unread(&self, size: u64, already_compressed: bool) -> (r: bool)
        ensures
            r == is_stored_unread(size as nat, already_compressed, self.limit() as nat),
    {
        already_compressed || size > u32::MAX as u64 || size > self.state.max_memory as u64
    }

    /// Announces a file of `size` bytes that is stored as it is. The caller
    /// writes its bytes behind what is pending.
    pub fn begin_store(&mut self, rel_path: &str, size: u64)
        requires
            old(self).written() < u64::MAX,
        ensures
            final(self).has_grown(
                old(self),
                entry_header(rel_path.spec_bytes(), Method::Store, size as nat, size as nat),
                Method::Store,
                size,
                size,
            ),
    {
        let low: u32 = (size % 0x1_0000_0000) as u32;
        self.write_entry_header(rel_path, Method::Store, size, low);
        self.record(Method::Store, size, size);
    }

    /// Takes the bytes that were written since the last time.
    pub fn take_pending(&mut self) -> (bytes: Vec<u8>)
        ensures
            bytes@ == old(self).pending(),
            final(self).pending() == Seq::<u8>::empty(),
            final(self).expected() == old(self).expected(),
            final(self).written() == old(self).written(),
            final(self).limit() == old(self).limit(),
            final(self).shared() == old(self).shared(),
            final(self).numbers() == old(self).numbers(),
            final(self).latest() == old(self).latest(),
    {
        let mut bytes: Vec<u8> = Vec::new();
        core::mem::swap(&mut bytes, &mut self.state.out);
        bytes
    }

    /// Returns the bytes not yet taken, or an error if another number of entries
    /// was written than the header announces.
    pub fn finish(self) -> (r: Result<Vec<u8>, ArchiveError>)
        ensures
            match r {
                Ok(bytes) => self.written() == self.expected() && bytes@ == self.pending(),
                Err(e) => self.written() != self.expected() && e == (ArchiveError::CountMismatch {
                    expected: self.expected(),
                    actual: if self.written() <= u32::MAX {
                        self.written() as u32
                    } else {
                        u32::MAX
                    },
                }),
            },
    {
        if self.state.actual_count != self.state.expected_count as u64 {
            let actual: u32 = if self.state.actual_count <= u32::MAX as u64 {
                self.state.actual_count as u32
            } else {
                u32::MAX
            };
            return Err(ArchiveError::CountMismatch { expected: self.state.expected_count, actual });
        }
        Ok(self.state.out)
    }
}

/// The number of entries that an archive announces.
pub open spec fn read_archive_header(data: Seq<u8>) -> Result<u32, ArchiveError> {
    if data.len() < 10 {
        Err(ArchiveError::TooShort)
    } else if data.take(4) != seq![0x4Du8, 0x43, 0x41, 0x52] {
        Err(ArchiveError::BadMagic)
    } else if data[4] != VERSION {
        Err(ArchiveError::UnsupportedVersion(data[4]))
    } else {
        Ok(le32_value(data.subrange(6, 10)) as u32)
    }
}

/// What comes before the packed bytes of an entry, and where they start.
pub struct EntryHead {
    pub path: Seq<char>,
    pub method: Method,
    pub original: nat,
    pub size: nat,
    pub at: nat,
}

/// The head of entry `index` at place `pos`.
pub open spec fn read_head(data: Seq<u8>, pos: nat, index: usize) -> Result<
    EntryHead,
    ArchiveError,
> {
    if pos + 2 > data.len() {
        Err(ArchiveError::TooShort)
    } else {
        let n = le16_value(data.subrange(pos as int, (pos + 2) as int));
        let fixed = pos + 2 + n;
        if fixed > data.len() {
            Err(ArchiveError::TooShort)
        } else {
            let path = data.subrange((pos + 2) as int, fixed as int);
            if !valid_utf8(path) {
                Err(ArchiveError::InvalidPath(index))
            } else if fixed + 13 > data.len() {
                Err(ArchiveError::TooShort)
            } else {
                match Method::of_byte(data[fixed as int]) {
                    Err(e) => Err(e),
                    Ok(method) => Ok(
                        EntryHead {
                            path: decode_utf8(path),
                            method,
                            original: le64_value(
                                data.subrange((fixed + 1) as int, (fixed + 9) as int),
                            ),
                            size: le32_value(
                                data.subrange((fixed + 9) as int, (fixed + 13) as int),
                            ),
                            at: fixed + 13,
                        },
                    ),
                }
            }
        }
    }
}

/// Entry `index` at place `pos`: its path, how it is packed, what it unpacks to,
/// and the place behind it.
pub open spec fn read_entry(data: Seq<u8>, pos: nat, index: usize) -> Result<
    (Seq<char>, Method, Seq<u8>, nat),
    ArchiveError,
> {
    match read_head(data, pos, index) {
        Err(e) => Err(e),
        Ok(h) => if h.at + h.size > data.len() {
            Err(ArchiveError::TooShort)
        } else {
            match unpacked(h.method, data.subrange(h.at as int, (h.at + h.size) as int)) {
                None => Err(unpack_error(h.method, index)),
                Some(out) => Ok((h.path, h.method, out, h.at + h.size)),
            }
        },
    }
}

/// The place behind what reading the entry at `pos` takes, whether it can be read or
/// not: all of its bytes, those up to the field that cannot be, or all that are left
/// where the data ends too early.
pub open spec fn place_behind(data: Seq<u8>, pos: nat) -> nat {
    if pos + 2 > data.len() {
        data.len()
    } else {
        let fixed = pos + 2 + le16_value(data.subrange(pos as int, (pos + 2) as int));
        if fixed > data.len() {
            data.len()
        } else if !valid_utf8(data.subrange((pos + 2) as int, fixed as int)) {
            fixed
        } else if fixed + 13 > data.len() {
            data.len()
        } else if Method::of_byte(data[fixed as int]) is Err {
            fixed + 13
        } else {
            let end = fixed + 13 + le32_value(
                data.subrange((fixed + 9) as int, (fixed + 13) as int),
            );
            if end > data.len() {
                data.len()
            } else {
                end
            }
        }
    }
}

/// The files of an archive from place `pos` on, `count` of them.
pub open spec fn read_entries(data: Seq<u8>, pos: nat, count: nat, index: nat) -> Result<
    Seq<(Seq<char>, Seq<u8>)>,
    ArchiveError,
>
    decreases count,
{
    if count == 0 {
        Ok(Seq::empty())
    } else {
        match read_entry(data, pos, index as usize) {
            Err(e) => Err(e),
            Ok((path, _, out, next)) => match read_entries(
                data,
                next,
                (count - 1) as nat,
                index + 1,
            ) {
                Err(e) => Err(e),
                Ok(rest) => Ok(seq![(path, out)] + rest),
            },
        }
    }
}

/// The files of an archive, or why the data is not one.
pub open spec fn read_archive(data: Seq<u8>) -> Result<Seq<(Seq<char>, Seq<u8>)>, ArchiveError> {
    match read_archive_header(data) {
        Err(e) => Err(e),
        Ok(count) => read_entries(data, 10, count as nat, 0),
    }
}

/// Returns the number of entries that an archive announces.
pub fn parse_archive_header(data: &[u8]) -> (r: Result<u32, ArchiveError>)
    ensures
        r == read_archive_header(data@),
{
    if data.len() < 10 {
        return Err(ArchiveError::TooShort);
    }
    let magic: [u8; 4] = MAGIC;
    assert(magic@ =~= seq![0x4Du8, 0x43, 0x41, 0x52]);
    assert(data@.subrange(0, 4) =~= data@.take(4));
    if !same(&data[0..4], magic.as_slice()) {
        return Err(ArchiveError::BadMagic);
    }
    if data[4] != VERSION {
        return Err(ArchiveError::UnsupportedVersion(data[4]));
    }
    Ok(read_le32(data, 6))
}

/// What comes before the packed bytes of an entry, without decoding them.
pub struct EntryInfo {
    pub path: String,
    pub method: Method,
    pub original_size: u64,
    pub compressed_size: u64,
}

/// The information is that of the head of an entry.
pub open spec fn is_info(i: EntryInfo, h: EntryHead) -> bool {
    &&& i.path@ == h.path
    &&& i.method == h.method
    &&& i.original_size == h.original
    &&& i.compressed_size == h.size
}

/// Reads the head of entry `index` at place `pos`. The result is what it says
/// and where the packed bytes start.
pub fn parse_entry_head(data: &[u8], pos: usize, index: usize) -> (r: Result<
    (EntryInfo, usize),
    ArchiveError,
>)
    requires
        pos <= data@.len(),
    ensures
        match read_head(data@, pos as nat, index) {
            Ok(h) => r matches Ok((i, at)) && is_info(i, h) && at == h.at && at <= data@.len(),
            Err(e) => r matches Err(err) && err == e,
        },
{
    if data.len() - pos < 2 {
        return Err(ArchiveError::TooShort);
    }
    let n: usize = read_le16(data, pos) as usize;
    let start: usize = pos + 2;
    if data.len() - start < n {
        return Err(ArchiveError::TooShort);
    }
    let fixed: usize = start + n;
    let path: String = match utf8_string(copy_of(&data[start..fixed])) {
        Some(path) => path,
        None => {
            return Err(ArchiveError::InvalidPath(index));
        },
    };
    if data.len() - fixed < 13 {
        return Err(ArchiveError::TooShort);
    }
    let method: Method = match Method::try_from(data[fixed]) {
        Ok(method) => method,
        Err(e) => {
            return Err(e);
        },
    };
    let original_size: u64 = read_le64(data, fixed + 1);
    let compressed_size: u64 = read_le32(data, fixed + 9) as u64;
    Ok((EntryInfo { path, method, original_size, compressed_size }, fixed + 13))
}

/// A file taken out of an archive.
pub struct DecodedEntry {
    pub path: String,
    pub method: Method,
    pub data: Vec<u8>,
}

/// Returns how many bytes the head of an entry takes behind the first two, which
/// hold the length of its path.
pub fn head_rest(first: &[u8]) -> (r: Result<usize, ArchiveError>)
    ensures
        first@.len() < 2 ==> r == Err::<usize, ArchiveError>(ArchiveError::TooShort),
        first@.len() >= 2 ==> r == Ok::<usize, ArchiveError>(
            (le16_value(first@.take(2)) + 13) as usize,
        ),
{
    if first.len() < 2 {
        return Err(ArchiveError::TooShort);
    }
    assert(first@.subrange(0, 2) =~= first@.take(2));
    Ok(read_le16(first, 0) as usize + 13)
}

/// Unpacks entry `index`, given its head and as many of its packed bytes as there
/// are.
pub fn decode_entry(info: EntryInfo, packed: &[u8], index: usize) -> (r: Result<
    DecodedEntry,
    ArchiveError,
>)
    ensures
        packed@.len() < info.compressed_size ==> (r matches Err(e) && e == ArchiveError::TooShort),
        packed@.len() >= info.compressed_size ==> match unpacked(
            info.method,
            packed@.take(info.compressed_size as int),
        ) {
            Some(out) => r matches Ok(e) && e.path@ == info.path@ && e.method == info.method
                && e.data@ == out,
            None => r matches Err(e) && e == unpack_error(info.method, index),
        },
{
    if (packed.len() as u64) < info.compressed_size {
        return Err(ArchiveError::TooShort);
    }
    let size: usize = info.compressed_size as usize;
    assert(packed@.subrange(0, size as int) =~= packed@.take(size as int));
    match decompress_entry(info.method, &packed[0..size], index) {
        Ok(data) => Ok(DecodedEntry { path: info.path, method: info.method, data }),
        Err(e) => Err(e),
    }
}

/// Returns the place behind what reading the entry at `pos` takes.
fn step_over(data: &[u8], pos: usize) -> (end: usize)
    requires
        pos <= data@.len(),
    ensures
        end == place_behind(data@, pos as nat),
        end <= data@.len(),
{
    if data.len() - pos < 2 {
        return data.len();
    }
    let n: usize = read_le16(data, pos) as usize;
    let start: usize = pos + 2;
    if data.len() - start < n {
        return data.len();
    }
    let fixed: usize = start + n;
    if utf8_string(copy_of(&data[start..fixed])).is_none() {
        return fixed;
    }
    if data.len() - fixed < 13 {
        return data.len();
    }
    if Method::try_from(data[fixed]).is_err() {
        return fixed + 13;
    }
    let size: u64 = read_le32(data, fixed + 9) as u64;
    if ((data.len() - fixed - 13) as u64) < size {
        return data.len();
    }
    fixed + 13 + size as usize
}

/// Reads an archive entry by entry.
pub struct ArchiveReader<'a> {
    data: &'a [u8],
    pos: usize,
    remaining: u32,
    total: u32,
    index: usize,
}

impl<'a> ArchiveReader<'a> {
    /// The archive.
    pub closed spec fn bytes(&self) -> Seq<u8> {
        self.data@
    }

    /// Where the next entry starts.
    pub closed spec fn place(&self) -> nat {
        self.pos as nat
    }

    /// How many entries are left.
    pub closed spec fn left(&self) -> nat {
        self.remaining as nat
    }

    /// How many entries the archive announces.
    pub closed spec fn announced(&self) -> u32 {
        self.total
    }

    /// How many entries were read.
    pub closed spec fn done(&self) -> usize {
        self.index
    }

    /// The place lies inside the archive, and the entries read and left are
    /// those announced.
    pub closed spec fn is_sound(&self) -> bool {
        self.pos <= self.data@.len() && self.index + self.remaining == self.total
    }

    /// Opens an archive.
    pub fn new(data: &'a [u8]) -> (r: Result<ArchiveReader<'a>, ArchiveError>)
        ensures
            match read_archive_header(data@) {
                Ok(count) => r matches Ok(reader) && reader.is_sound() && reader.bytes() == data@
                    && reader.place() == 10 && reader.left() == count && reader.announced()
                    == count && reader.done() == 0,
                Err(e) => r matches Err(err) && err == e,
            },
    {
        match parse_archive_header(data) {
            Ok(count) => Ok(
                ArchiveReader { data, pos: 10, remaining: count, total: count, index: 0 },
            ),
            Err(e) => Err(e),
        }
    }

    /// Returns how many entries the archive announces.
    pub fn entry_count(&self) -> (n: u32)
        ensures
            n == self.announced(),
    {
        self.total
    }

    /// Reads and unpacks the next entry; `None` behind the last one. An entry that
    /// cannot be read does not count, and the next call goes on behind what was
    /// read of it.
    pub fn next_entry(&mut self) -> (r: Result<Option<DecodedEntry>, ArchiveError>)
        requires
            old(self).is_sound(),
        ensures
            final(self).is_sound(),
            final(self).bytes() == old(self).bytes(),
            final(self).announced() == old(self).announced(),
            old(self).left() == 0 ==> (r matches Ok(None)) && *final(self) == *old(self),
            old(self).left() > 0 ==> final(self).place() == place_behind(
                old(self).bytes(),
                old(self).place(),
            ) && match read_entry(old(self).bytes(), old(self).place(), old(self).done()) {
                Ok((path, method, out, next)) => r matches Ok(Some(e)) && e.path@ == path
                    && e.method == method && e.data@ == out && final(self).place() == next
                    && final(self).left() == old(self).left() - 1 && final(self).done() == old(
                    self,
                ).done() + 1,
                Err(e) => r matches Err(err) && err == e && final(self).left() == old(self).left()
                    && final(self).done() == old(self).done(),
            },
    {
        if self.remaining == 0 {
            return Ok(None);
        }
        let pos: usize = self.pos;
        let end: usize = step_over(self.data, pos);
        self.pos = end;
        let (info, at) = match parse_entry_head(self.data, pos, self.index) {
            Ok(head) => head,
            Err(e) => {
                return Err(e);
            },
        };
        let ghost size = info.compressed_size as int;
        let n: usize = self.data.len();
        let ghost rest = self.data@.subrange(at as int, n as int);
        proof {
            if at + size <= n {
                assert(rest.take(size) =~= self.data@.subrange(at as int, at + size));
            }
        }
        let entry: DecodedEntry = match decode_entry(info, &self.data[at..n], self.index) {
            Ok(entry) => entry,
            Err(e) => {
                return Err(e);
            },
        };
        self.remaining = self.remaining - 1;
        self.index = self.index + 1;
        Ok(Some(entry))
    }
}

/// What files are called and hold.
pub open spec fn files_of(files: Seq<(String, Vec<u8>)>) -> Seq<(Seq<char>, Seq<u8>)> {
    files.map_values(|f: (String, Vec<u8>)| (f.0@, f.1@))
}

/// Unpacks all files of an archive.
pub fn decompress_archive(data: &[u8]) -> (r: Result<Vec<(String, Vec<u8>)>, ArchiveError>)
    ensures
        match read_archive(data@) {
            Ok(files) => r matches Ok(v) && files_of(v@) == files,
            Err(e) => r matches Err(err) && err == e,
        },
{
    let mut reader: ArchiveReader = match ArchiveReader::new(data) {
        Ok(reader) => reader,
        Err(e) => {
            return Err(e);
        },
    };
    let mut files: Vec<(String, Vec<u8>)> = Vec::new();
    let ghost goal = read_archive(data@);
    proof {
        if let Ok(all) = goal {
            assert(files_of(files@) + all =~= all);
        }
    }
    loop
        invariant
            reader.is_sound(),
            reader.bytes() == data@,
            goal == read_archive(data@),
            goal == (match read_entries(
                data@,
                reader.place(),
                reader.left(),
                reader.done() as nat,
            ) {
                Ok(rest) => Ok(files_of(files@) + rest),
                Err(e) => Err(e),
            }),
        decreases reader.left(),
    {
        match reader.next_entry() {
            Err(e) => {
                return Err(e);
            },
            Ok(None) => {
                proof {
                    assert(files_of(files@) + Seq::<(Seq<char>, Seq<u8>)>::empty() =~= files_of(
                        files@,
                    ));
                }
                return Ok(files);
            },
            Ok(Some(entry)) => {
                let ghost before = files_of(files@);
                let ghost one = (entry.path@, entry.data@);
                files.push((entry.path, entry.data));
                proof {
                    assert(files_of(files@) =~= before.push(one));
                    if let Ok(rest) = read_entries(
                        data@,
                        reader.place(),
                        reader.left(),
                        reader.done() as nat,
                    ) {
                        assert(before + (seq![one] + rest) =~= files_of(files@) + rest);
                    }
                }
            },
        }
    }
}

/// The entries of the files from place `k` on, each with the way it is packed
/// and its packed bytes.
pub open spec fn entries_from(
    files: Seq<(Seq<char>, Seq<u8>)>,
    packs: Seq<(Method, Seq<u8>)>,
    k: int,
) -> Seq<u8>
    decreases files.len() - k,
{
    if k < 0 || k >= files.len() {
        Seq::empty()
    } else {
        entry_bytes(encode_utf8(files[k].0), packs[k].0, files[k].1.len(), packs[k].1)
            + entries_from(files, packs, k + 1)
    }
}

/// Each file is packed so that it unpacks.
pub open spec fn are_packings(
    files: Seq<(Seq<char>, Seq<u8>)>,
    packs: Seq<(Method, Seq<u8>)>,
) -> bool {
    &&& packs.len() == files.len()
    &&& forall|k: int|
        0 <= k < files.len() ==> is_packing((#[trigger] files[k]).1, packs[k].0, packs[k].1)
}

/// Each file is packed as the standard settings ask for.
pub open spec fn are_choices(
    files: Seq<(Seq<char>, Seq<u8>)>,
    packs: Seq<(Method, Seq<u8>)>,
    answers: Answers,
) -> bool {
    &&& packs.len() == files.len()
    &&& forall|k: int|
        0 <= k < files.len() ==> is_choice(
            (#[trigger] files[k]).1,
            DEFAULT_MAX_MEMORY,
            None,
            packs[k].0,
            packs[k].1,
            answers,
        )
}

/// Every path and every file fits its length field.
pub open spec fn files_fit(files: Seq<(Seq<char>, Seq<u8>)>) -> bool {
    forall|k: int|
        0 <= k < files.len() ==> encode_utf8((#[trigger] files[k]).0).len() < 0x1_0000
            && files[k].1.len() < 0x1_0000_0000
}

/// No file grows by being packed.
pub proof fn packing_never_grows(data: Seq<u8>, method: Method, packed: Seq<u8>)
    requires
        is_packing(data, method, packed),
    ensures
        packed.len() <= data.len(),
{
}

/// The head of an entry reads back as it was written.
#[verifier::rlimit(30)]
pub proof fn lemma_head_reads_back(
    data: Seq<u8>,
    pos: nat,
    index: usize,
    path: Seq<char>,
    method: Method,
    original: nat,
    packed: Seq<u8>,
    rest: Seq<u8>,
)
    requires
        pos <= data.len(),
        data.skip(pos as int) == entry_bytes(encode_utf8(path), method, original, packed) + rest,
        encode_utf8(path).len() < 0x1_0000,
        original < 0x1_0000_0000_0000_0000,
        packed.len() < 0x1_0000_0000,
    ensures
        ({
            let at = pos + 15 + encode_utf8(path).len();
            &&& read_head(data, pos, index) == Ok::<EntryHead, ArchiveError>(
                EntryHead { path, method, original, size: packed.len(), at },
            )
            &&& at + packed.len() <= data.len()
            &&& data.subrange(at as int, (at + packed.len()) as int) == packed
            &&& data.skip((at + packed.len()) as int) == rest
        }),
{
    let bytes = encode_utf8(path);
    let n = bytes.len();
    let s = data.skip(pos as int);
    let fixed = pos + 2 + n;
    let at = fixed + 13;
    lemma_le16(n);
    lemma_le64(original);
    lemma_le32(packed.len());
    encode_utf8_valid_utf8(path);
    encode_utf8_decode_utf8(path);
    lemma_entry_parts(bytes, method, original, packed, rest);
    let (p, m, size) = (pos as int, n as int, packed.len() as int);
    lemma_part_of_rest(data, p, 0, 2);
    lemma_part_of_rest(data, p, 2, 2 + m);
    lemma_part_of_rest(data, p, 3 + m, 11 + m);
    lemma_part_of_rest(data, p, 11 + m, 15 + m);
    lemma_part_of_rest(data, p, 15 + m, 15 + m + size);
    assert(data[fixed as int] == s[2 + n as int]);
    assert(data.len() == pos + s.len());
    assert(data.skip((at + packed.len()) as int) =~= s.skip(15 + n as int + packed.len() as int));
}

/// A part of what is left from a place on.
proof fn lemma_part_of_rest(data: Seq<u8>, pos: int, a: int, b: int)
    requires
        0 <= pos <= data.len(),
        0 <= a <= b <= data.len() - pos,
    ensures
        data.skip(pos).subrange(a, b) == data.subrange(pos + a, pos + b),
{
    assert(data.skip(pos).subrange(a, b) =~= data.subrange(pos + a, pos + b));
}

/// A part of a concatenation, and the concatenation in another grouping.
proof fn lemma_part(a: Seq<u8>, b: Seq<u8>, c: Seq<u8>)
    ensures
        a + b + c == a + (b + c),
        (a + b + c).subrange(a.len() as int, (a.len() + b.len()) as int) == b,
        (a + b + c).skip((a.len() + b.len()) as int) == c,
{
    assert(a + b + c =~= a + (b + c));
    assert((a + b + c).subrange(a.len() as int, (a.len() + b.len()) as int) =~= b);
    assert((a + b + c).skip((a.len() + b.len()) as int) =~= c);
}

/// Where the parts of an entry stand.
#[verifier::rlimit(30)]
proof fn lemma_entry_parts(
    path: Seq<u8>,
    method: Method,
    original: nat,
    packed: Seq<u8>,
    rest: Seq<u8>,
)
    requires
        path.len() < 0x1_0000,
        original < 0x1_0000_0000_0000_0000,
        packed.len() < 0x1_0000_0000,
    ensures
        ({
            let s = entry_bytes(path, method, original, packed) + rest;
            let n = path.len() as int;
            &&& s.len() == 15 + n + packed.len() + rest.len()
            &&& s.subrange(0, 2) == le16_bytes(path.len())
            &&& s.subrange(2, 2 + n) == path
            &&& s[2 + n] == method.byte()
            &&& s.subrange(3 + n, 11 + n) == le64_bytes(original)
            &&& s.subrange(11 + n, 15 + n) == le32_bytes(packed.len())
            &&& s.subrange(15 + n, 15 + n + packed.len()) == packed
            &&& s.skip(15 + n + packed.len()) == rest
        }),
{
    let n = path.len() as int;
    let s = entry_bytes(path, method, original, packed) + rest;
    lemma_le16(path.len());
    lemma_le64(original);
    assert(path.len() % 0x1_0000 == path.len());
    assert(lo32(packed.len()) == packed.len());
    let kind = seq![method.byte()];
    // What stands before and behind each part.
    let before_path = le16_bytes(path.len());
    let before_kind = before_path + path;
    let before_original = before_kind + kind;
    let before_size = before_original + le64_bytes(original);
    let before_packed = before_size + le32_bytes(packed.len());
    let from_packed = packed + rest;
    let from_size = le32_bytes(packed.len()) + from_packed;
    let from_original = le64_bytes(original) + from_size;
    let from_kind = kind + from_original;
    let from_path = path + from_kind;
    assert(s == before_packed + packed + rest);
    lemma_part(before_packed, packed, rest);
    lemma_part(before_size, le32_bytes(packed.len()), from_packed);
    lemma_part(before_original, le64_bytes(original), from_size);
    lemma_part(before_kind, kind, from_original);
    lemma_part(before_path, path, from_kind);
    assert(s == before_path + from_path);
    assert(s.subrange(0, 2) =~= before_path);
    assert(s.subrange(2 + n, 3 + n)[0] == s[2 + n]);
}

/// The entries of files read back as the files.
#[verifier::rlimit(30)]
proof fn lemma_entries_read_back(
    data: Seq<u8>,
    pos: nat,
    files: Seq<(Seq<char>, Seq<u8>)>,
    packs: Seq<(Method, Seq<u8>)>,
    k: int,
)
    requires
        pos <= data.len(),
        0 <= k <= files.len(),
        files.len() <= u32::MAX,
        data.skip(pos as int) == entries_from(files, packs, k),
        are_packings(files, packs),
        files_fit(files),
    ensures
        read_entries(data, pos, (files.len() - k) as nat, k as nat) == Ok::<
            Seq<(Seq<char>, Seq<u8>)>,
            ArchiveError,
        >(files.skip(k)),
    decreases files.len() - k,
{
    if k >= files.len() {
        assert(files.skip(k) =~= Seq::empty());
    } else {
        let (path, content) = files[k];
        let (method, packed) = packs[k];
        let rest = entries_from(files, packs, k + 1);
        assert(is_packing(files[k].1, packs[k].0, packs[k].1));
        packing_never_grows(content, method, packed);
        lemma_head_reads_back(
            data,
            pos,
            k as usize,
            path,
            method,
            content.len(),
            packed,
            rest,
        );
        let next = pos + 15 + encode_utf8(path).len() + packed.len();
        lemma_entries_read_back(data, next, files, packs, k + 1);
        assert(files.skip(k) =~= seq![(path, content)] + files.skip(k + 1));
    }
}

/// The archive of files that are packed this way.
pub open spec fn archive_of(
    files: Seq<(Seq<char>, Seq<u8>)>,
    packs: Seq<(Method, Seq<u8>)>,
) -> Seq<u8> {
    archive_header(files.len() as u32) + entries_from(files, packs, 0)
}

/// An archive unpacks to its files, however they are packed.
#[verifier::rlimit(30)]
pub proof fn archive_restores_its_files(
    files: Seq<(Seq<char>, Seq<u8>)>,
    packs: Seq<(Method, Seq<u8>)>,
)
    requires
        files.len() <= u32::MAX,
        are_packings(files, packs),
        files_fit(files),
    ensures
        read_archive(archive_of(files, packs)) == Ok::<Seq<(Seq<char>, Seq<u8>)>, ArchiveError>(
            files,
        ),
{
    let out = archive_of(files, packs);
    assert(out.skip(10) =~= entries_from(files, packs, 0));
    assert(out.take(4) =~= seq![0x4Du8, 0x43, 0x41, 0x52]);
    assert(out.subrange(6, 10) =~= le32_bytes(files.len()));
    lemma_le32(files.len());
    lemma_entries_read_back(out, 10, files, packs, 0);
    assert(files.skip(0) =~= files);
}

/// Packs files into an archive. If every path and every file fits its length
/// field, the archive unpacks to the files.
pub fn compress_archive<J: Judge>(entries: &Vec<(String, Vec<u8>)>, judge: &J) -> (out: Vec<u8>)
    requires
        entries@.len() <= u32::MAX,
        forall|k: int|
            0 <= k < entries@.len() ==> (#[trigger] entries@[k]).1@.len() + 4 <= usize::MAX,
    ensures
        exists|packs: Seq<(Method, Seq<u8>)>| #[trigger]
            are_packings(files_of(entries@), packs) && are_choices(
                files_of(entries@),
                packs,
                judge.answers(),
            ) && out@ == archive_of(files_of(entries@), packs),
        files_fit(files_of(entries@)) ==> read_archive(out@) == Ok::<
            Seq<(Seq<char>, Seq<u8>)>,
            ArchiveError,
        >(files_of(entries@)),
{
    let n: usize = entries.len();
    let ghost files = files_of(entries@);
    let ghost mut packs: Seq<(Method, Seq<u8>)> = Seq::empty();
    let ghost head = archive_header(n as u32);
    let mut w: ArchiveWriter = ArchiveWriter::new(n as u32);
    assert(entries_upto(files, packs, 0) =~= Seq::empty());
    assert(head + entries_upto(files, packs, 0) =~= head);
    let mut k: usize = 0;
    while k < n
        invariant
            n == entries@.len(),
            n <= u32::MAX,
            forall|k: int|
                0 <= k < entries@.len() ==> (#[trigger] entries@[k]).1@.len() + 4 <= usize::MAX,
            files == files_of(entries@),
            k <= n,
            packs.len() == k,
            forall|j: int|
                0 <= j < k ==> is_packing((#[trigger] files[j]).1, packs[j].0, packs[j].1)
                    && is_choice(
                    files[j].1,
                    DEFAULT_MAX_MEMORY,
                    None,
                    packs[j].0,
                    packs[j].1,
                    judge.answers(),
                ),
            w.limit() == DEFAULT_MAX_MEMORY,
            w.limit() == 0x1000_0000,
            w.shared() is None,
            w.expected() == n,
            w.written() == k,
            w.pending() == head + entries_upto(files, packs, k as nat),
        decreases n - k,
    {
        assert(entries@[k as int].1@.len() + 4 <= usize::MAX);
        let ghost before = w;
        let ghost old_packs = packs;
        w.add_file_bytes(entries[k].0.as_str(), entries[k].1.as_slice(), judge);
        proof {
            let data = entries@[k as int].1@;
            let path = encode_utf8(files[k as int].0);
            let (method, packed) = choose|method: Method, packed: Seq<u8>| #[trigger]
                is_packing(data, method, packed) && w.has_grown(
                    &before,
                    entry_bytes(path, method, data.len(), packed),
                    method,
                    data.len() as u64,
                    packed.len() as u64,
                ) && is_choice(
                    data,
                    before.limit(),
                    before.shared(),
                    method,
                    packed,
                    judge.answers(),
                );
            packs = packs.push((method, packed));
            lemma_entries_upto_push(files, old_packs, (method, packed), k as nat);
            let one = entry_bytes(path, method, data.len(), packed);
            assert(head + entries_upto(files, old_packs, k as nat) + one =~= head + (entries_upto(
                files,
                old_packs,
                k as nat,
            ) + one));
        }
        k = k + 1;
    }
    proof {
        lemma_entries_prefix(files, packs, n as nat);
        let all = entries_upto(files, packs, n as nat);
        assert(all + entries_from(files, packs, n as int) =~= all);
        assert(are_packings(files, packs) && are_choices(files, packs, judge.answers()));
    }
    let out: Vec<u8> = match w.finish() {
        Ok(out) => out,
        Err(_) => Vec::new(),
    };
    proof {
        assert(out@ == archive_of(files, packs));
        if files_fit(files) {
            archive_restores_its_files(files, packs);
        }
    }
    out
}

/// The entries of the first `n` files.
spec fn entries_upto(
    files: Seq<(Seq<char>, Seq<u8>)>,
    packs: Seq<(Method, Seq<u8>)>,
    n: nat,
) -> Seq<u8>
    decreases n,
{
    if n == 0 {
        Seq::empty()
    } else {
        entries_upto(files, packs, (n - 1) as nat) + entry_bytes(
            encode_utf8(files[n - 1].0),
            packs[n - 1].0,
            files[n - 1].1.len(),
            packs[n - 1].1,
        )
    }
}

/// One file more is one entry more.
proof fn lemma_entries_upto_push(
    files: Seq<(Seq<char>, Seq<u8>)>,
    packs: Seq<(Method, Seq<u8>)>,
    one: (Method, Seq<u8>),
    n: nat,
)
    requires
        packs.len() == n,
    ensures
        entries_upto(files, packs.push(one), n + 1) == entries_upto(files, packs, n) + entry_bytes(
            encode_utf8(files[n as int].0),
            one.0,
            files[n as int].1.len(),
            one.1,
        ),
{
    lemma_entries_upto_same(files, packs, packs.push(one), n);
}

/// The entries depend on how their own files are packed, and on no others.
proof fn lemma_entries_upto_same(
    files: Seq<(Seq<char>, Seq<u8>)>,
    a: Seq<(Method, Seq<u8>)>,
    b: Seq<(Method, Seq<u8>)>,
    n: nat,
)
    requires
        forall|k: int| 0 <= k < n ==> a[k] == b[k],
    ensures
        entries_upto(files, a, n) == entries_upto(files, b, n),
    decreases n,
{
    if n > 0 {
        lemma_entries_upto_same(files, a, b, (n - 1) as nat);
    }
}

/// What comes before a place and what comes from it on are all entries.
proof fn lemma_entries_prefix(
    files: Seq<(Seq<char>, Seq<u8>)>,
    packs: Seq<(Method, Seq<u8>)>,
    n: nat,
)
    requires
        n <= files.len(),
    ensures
        entries_upto(files, packs, n) + entries_from(files, packs, n as int) == entries_from(
            files,
            packs,
            0,
        ),
    decreases n,
{
    if n == 0 {
        assert(Seq::<u8>::empty() + entries_from(files, packs, 0) =~= entries_from(
            files,
            packs,
            0,
        ));
    } else {
        let k = (n - 1) as nat;
        lemma_entries_prefix(files, packs, k);
        let one = entry_bytes(
            encode_utf8(files[k as int].0),
            packs[k as int].0,
            files[k as int].1.len(),
            packs[k as int].1,
        );
        let rest = entries_from(files, packs, n as int);
        assert(entries_upto(files, packs, k) + one + rest =~= entries_upto(files, packs, k) + (one
            + rest));
    }
}

/// The heads of `count` entries from place `pos` on. The packed bytes are
/// stepped over; the last ones may be cut off.
pub open spec fn read_heads(data: Seq<u8>, pos: nat, count: nat, index: nat) -> Result<
    Seq<EntryHead>,
    ArchiveError,
>
    decreases count,
{
    if count == 0 {
        Ok(Seq::empty())
    } else {
        match read_head(data, pos, index as usize) {
            Err(e) => Err(e),
            Ok(h) => {
                let next = if h.at + h.size < data.len() {
                    h.at + h.size
                } else {
                    data.len()
                };
                match read_heads(data, next, (count - 1) as nat, index + 1) {
                    Err(e) => Err(e),
                    Ok(rest) => Ok(seq![h] + rest),
                }
            },
        }
    }
}

/// The listing is that of these heads.
pub open spec fn are_infos(v: Seq<EntryInfo>, heads: Seq<EntryHead>) -> bool {
    &&& v.len() == heads.len()
    &&& forall|k: int| 0 <= k < v.len() ==> is_info(#[trigger] v[k], heads[k])
}

/// Lists the entries of an archive without unpacking them.
pub fn list_archive(data: &[u8]) -> (r: Result<Vec<EntryInfo>, ArchiveError>)
    ensures
        match read_archive_header(data@) {
            Err(e) => r matches Err(err) && err == e,
            Ok(count) => match read_heads(data@, 10, count as nat, 0) {
                Err(e) => r matches Err(err) && err == e,
                Ok(heads) => r matches Ok(v) && are_infos(v@, heads),
            },
        },
{
    let count: u32 = match parse_archive_header(data) {
        Ok(count) => count,
        Err(e) => {
            return Err(e);
        },
    };
    let mut out: Vec<EntryInfo> = Vec::new();
    let mut pos: usize = 10;
    let ghost goal = read_heads(data@, 10, count as nat, 0);
    let ghost mut heads: Seq<EntryHead> = Seq::empty();
    proof {
        if let Ok(all) = goal {
            assert(heads + all =~= all);
        }
    }
    let mut k: u32 = 0;
    while k < count
        invariant
            k <= count,
            pos <= data@.len(),
            read_archive_header(data@) == Ok::<u32, ArchiveError>(count),
            goal == read_heads(data@, 10, count as nat, 0),
            goal == (match read_heads(data@, pos as nat, (count - k) as nat, k as nat) {
                Ok(rest) => Ok(heads + rest),
                Err(e) => Err(e),
            }),
            are_infos(out@, heads),
        decreases count - k,
    {
        let (info, at) = match parse_entry_head(data, pos, k as usize) {
            Ok(head) => head,
            Err(e) => {
                return Err(e);
            },
        };
        let ghost h = read_head(data@, pos as nat, k as usize).unwrap();
        pos = if info.compressed_size < (data.len() - at) as u64 {
            at + info.compressed_size as usize
        } else {
            data.len()
        };
        out.push(info);
        proof {
            let before = heads;
            heads = heads.push(h);
            if let Ok(rest) = read_heads(
                data@,
                pos as nat,
                (count - k - 1) as nat,
                (k + 1) as nat,
            ) {
                assert(before + (seq![h] + rest) =~= heads + rest);
            }
        }
        k = k + 1;
    }
    proof {
        assert(heads + Seq::<EntryHead>::empty() =~= heads);
    }
    Ok(out)
}

/// How many entries an archive has, how they are packed, and their sizes before
/// and after packing.
#[derive(Debug, Clone, Copy)]
pub struct ArchiveSummary {
    pub file_count: usize,
    pub total_original: u64,
    pub total_compressed: u64,
    pub store_count: usize,
    pub zlib_count: usize,
    pub mucas_count: usize,
}

/// The numbers of `count` entries from place `pos` on, added to `acc`. Paths are
/// stepped over.
pub open spec fn tally_entries(data: Seq<u8>, pos: nat, count: nat, acc: WriteStats) -> Result<
    WriteStats,
    ArchiveError,
>
    decreases count,
{
    if count == 0 {
        Ok(acc)
    } else if pos + 2 > data.len() {
        Err(ArchiveError::TooShort)
    } else {
        let fixed = pos + 2 + le16_value(data.subrange(pos as int, (pos + 2) as int));
        if fixed + 13 > data.len() {
            Err(ArchiveError::TooShort)
        } else {
            match Method::of_byte(data[fixed as int]) {
                Err(e) => Err(e),
                Ok(method) => {
                    let original = le64_value(
                        data.subrange((fixed + 1) as int, (fixed + 9) as int),
                    ) as u64;
                    let size = le32_value(
                        data.subrange((fixed + 9) as int, (fixed + 13) as int),
                    );
                    tally_entries(
                        data,
                        fixed + 13 + size,
                        (count - 1) as nat,
                        with_entry(acc, method, original, size as u64),
                    )
                },
            }
        }
    }
}

/// Sums up an archive without unpacking it.
pub fn archive_summary(data: &[u8]) -> (r: Result<ArchiveSummary, ArchiveError>)
    ensures
        match read_archive_header(data@) {
            Err(e) => r matches Err(err) && err == e,
            Ok(count) => match tally_entries(data@, 10, count as nat, no_stats()) {
                Err(e) => r matches Err(err) && err == e,
                Ok(s) => r matches Ok(sum) && sum.file_count == count && sum.total_original
                    == s.total_original && sum.total_compressed == s.total_compressed
                    && sum.store_count == s.store_count && sum.zlib_count == s.zlib_count
                    && sum.mucas_count == s.mucas_count,
            },
        },
{
    let count: u32 = match parse_archive_header(data) {
        Ok(count) => count,
        Err(e) => {
            return Err(e);
        },
    };
    let mut acc: WriteStats = WriteStats::default();
    let mut pos: u128 = 10;
    let ghost goal = tally_entries(data@, 10, count as nat, no_stats());
    let mut k: u32 = 0;
    while k < count
        invariant
            k <= count,
            pos <= 0x2_0000_0000_0000_0000,
            read_archive_header(data@) == Ok::<u32, ArchiveError>(count),
            goal == tally_entries(data@, 10, count as nat, no_stats()),
            goal == tally_entries(data@, pos as nat, (count - k) as nat, acc),
        decreases count - k,
    {
        if pos + 2 > data.len() as u128 {
            return Err(ArchiveError::TooShort);
        }
        let at: usize = pos as usize;
        let n: u128 = read_le16(data, at) as u128;
        if pos + 2 + n + 13 > data.len() as u128 {
            return Err(ArchiveError::TooShort);
        }
        let fixed: usize = (pos + 2 + n) as usize;
        let method: Method = match Method::try_from(data[fixed]) {
            Ok(method) => method,
            Err(e) => {
                return Err(e);
            },
        };
        let original: u64 = read_le64(data, fixed + 1);
        let size: u32 = read_le32(data, fixed + 9);
        acc.total_original = acc.total_original.saturating_add(original);
        acc.total_compressed = acc.total_compressed.saturating_add(size as u64);
        match method {
            Method::Store => {
                acc.store_count = acc.store_count.saturating_add(1);
            },
            Method::Zlib => {
                acc.zlib_count = acc.zlib_count.saturating_add(1);
            },
            Method::MuCAS => {
                acc.mucas_count = acc.mucas_count.saturating_add(1);
            },
        }
        pos = fixed as u128 + 13 + size as u128;
        k = k + 1;
    }
    Ok(
        ArchiveSummary {
            file_count: count as usize,
            total_original: acc.total_original,
            total_compressed: acc.total_compressed,
            store_count: acc.store_count,
            zlib_count: acc.zlib_count,
            mucas_count: acc.mucas_count,
        },
    )
}

/// The head of an entry tells its file and how it is packed.
pub open spec fn tells(h: EntryHead, file: (Seq<char>, Seq<u8>), pack: (Method, Seq<u8>)) -> bool {
    &&& h.path == file.0
    &&& h.method == pack.0
    &&& h.original == file.1.len()
    &&& h.size == pack.1.len()
}

/// An archive lists its files in their order, with how they are packed and their
/// sizes.
pub proof fn archive_lists_its_files(
    files: Seq<(Seq<char>, Seq<u8>)>,
    packs: Seq<(Method, Seq<u8>)>,
)
    requires
        files.len() <= u32::MAX,
        are_packings(files, packs),
        files_fit(files),
    ensures
        ({
            let data = archive_of(files, packs);
            &&& read_archive_header(data) == Ok::<u32, ArchiveError>(files.len() as u32)
            &&& read_heads(data, 10, files.len(), 0) matches Ok(heads) && heads.len() == files.len()
                && forall|k: int|
                0 <= k < heads.len() ==> tells(#[trigger] heads[k], files[k], packs[k])
        }),
{
    let out = archive_of(files, packs);
    assert(out.skip(10) =~= entries_from(files, packs, 0));
    assert(out.take(4) =~= seq![0x4Du8, 0x43, 0x41, 0x52]);
    assert(out.subrange(6, 10) =~= le32_bytes(files.len()));
    lemma_le32(files.len());
    lemma_heads_read_back(out, 10, files, packs, 0);
}

#[verifier::rlimit(30)]
proof fn lemma_heads_read_back(
    data: Seq<u8>,
    pos: nat,
    files: Seq<(Seq<char>, Seq<u8>)>,
    packs: Seq<(Method, Seq<u8>)>,
    k: int,
)
    requires
        pos <= data.len(),
        0 <= k <= files.len(),
        files.len() <= u32::MAX,
        data.skip(pos as int) == entries_from(files, packs, k),
        are_packings(files, packs),
        files_fit(files),
    ensures
        read_heads(data, pos, (files.len() - k) as nat, k as nat) matches Ok(heads) && heads.len()
            == files.len() - k && forall|j: int|
            0 <= j < heads.len() ==> tells(#[trigger] heads[j], files[k + j], packs[k + j]),
    decreases files.len() - k,
{
    if k < files.len() {
        let (path, content) = files[k];
        let (method, packed) = packs[k];
        let rest = entries_from(files, packs, k + 1);
        assert(is_packing(files[k].1, packs[k].0, packs[k].1));
        packing_never_grows(content, method, packed);
        lemma_head_reads_back(data, pos, k as usize, path, method, content.len(), packed, rest);
        let next = pos + 15 + encode_utf8(path).len() + packed.len();
        lemma_heads_read_back(data, next, files, packs, k + 1);
        let tail = read_heads(data, next, (files.len() - k - 1) as nat, (k + 1) as nat)->Ok_0;
        let all = read_heads(data, pos, (files.len() - k) as nat, k as nat)->Ok_0;
        assert forall|j: int| 0 <= j < all.len() implies tells(
            #[trigger] all[j],
            files[k + j],
            packs[k + j],
        ) by {
            if j > 0 {
                assert(all[j] == tail[j - 1]);
            }
        }
    }
}

/// The numbers of the first `n` files.
pub open spec fn stats_of(
    files: Seq<(Seq<char>, Seq<u8>)>,
    packs: Seq<(Method, Seq<u8>)>,
    n: nat,
) -> WriteStats
    decreases n,
{
    if n == 0 {
        no_stats()
    } else {
        with_entry(
            stats_of(files, packs, (n - 1) as nat),
            packs[n - 1].0,
            files[n - 1].1.len() as u64,
            packs[n - 1].1.len() as u64,
        )
    }
}

/// The summary of an archive counts its files.
pub proof fn summary_counts_the_files(
    files: Seq<(Seq<char>, Seq<u8>)>,
    packs: Seq<(Method, Seq<u8>)>,
)
    requires
        files.len() <= u32::MAX,
        are_packings(files, packs),
        files_fit(files),
    ensures
        tally_entries(archive_of(files, packs), 10, files.len(), no_stats()) == Ok::<
            WriteStats,
            ArchiveError,
        >(stats_of(files, packs, files.len())),
{
    let out = archive_of(files, packs);
    assert(out.skip(10) =~= entries_from(files, packs, 0));
    lemma_tally_reads_back(out, 10, files, packs, 0);
}

proof fn lemma_tally_reads_back(
    data: Seq<u8>,
    pos: nat,
    files: Seq<(Seq<char>, Seq<u8>)>,
    packs: Seq<(Method, Seq<u8>)>,
    k: int,
)
    requires
        pos <= data.len(),
        0 <= k <= files.len(),
        files.len() <= u32::MAX,
        data.skip(pos as int) == entries_from(files, packs, k),
        are_packings(files, packs),
        files_fit(files),
    ensures
        tally_entries(data, pos, (files.len() - k) as nat, stats_of(files, packs, k as nat)) == Ok::<
            WriteStats,
            ArchiveError,
        >(stats_of(files, packs, files.len())),
    decreases files.len() - k,
{
    if k < files.len() {
        let (path, content) = files[k];
        let (method, packed) = packs[k];
        let rest = entries_from(files, packs, k + 1);
        assert(is_packing(files[k].1, packs[k].0, packs[k].1));
        packing_never_grows(content, method, packed);
        lemma_head_reads_back(data, pos, k as usize, path, method, content.len(), packed, rest);
        let next = pos + 15 + encode_utf8(path).len() + packed.len();
        lemma_tally_reads_back(data, next, files, packs, k + 1);
    }
}

} // verus!
