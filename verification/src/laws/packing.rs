//! How files are packed: never larger than need be, and never lost.

use vstd::prelude::*;
use crate::archive::{
    are_choices, by_class, holds, is_choice, is_file_for, is_kind_of, is_packing, is_stored_unread,
    is_worth_a_program, packs_as, settled, the_kind_is_one, unpacked, with_shared, Method,
};
use crate::consensus::Consensus;
use crate::deflate::{zlib_contents, zlib_stream};
use crate::format::{header_of, read_file, MucasFile};
use crate::judge::{tally, Answers};
use crate::laws::kinds::{binary_data_is_near_random, compressed_formats_are_a_kind};
use crate::lz::LzEncoder;
use crate::machine::{execute, Env};
use crate::pipeline::{is_piped, the_pipeline_is_determined};
use crate::sched::{is_compressed_format, is_standard, DataClass};
use crate::synth::draft::Draft;
use crate::synth::refs::{referred, Referred};
use crate::tokens::{toks_bytes, Tok};

verus! {

/// The judge finds the bytes near random.
pub open spec fn looks_random(data: Seq<u8>, answers: Answers) -> bool {
    data.len() > 0 && (answers.random)(tally(data), data.len())
}

/// What is compressed already, larger than the limit or near random is stored as it
/// is.
pub proof fn hopeless_files_are_stored(
    data: Seq<u8>,
    max_memory: usize,
    shared: Option<Consensus>,
    method: Method,
    packed: Seq<u8>,
    answers: Answers,
)
    requires
        is_choice(data, max_memory, shared, method, packed, answers),
        is_compressed_format(data) || data.len() > max_memory || looks_random(data, answers),
    ensures
        method == Method::Store,
        packed == data,
{
}

/// Any other file is packed no larger than its zlib stream and no larger than it is.
/// It is stored only where the stream is not smaller.
pub proof fn packing_is_no_larger_than_zlib(
    data: Seq<u8>,
    max_memory: usize,
    shared: Option<Consensus>,
    method: Method,
    packed: Seq<u8>,
    answers: Answers,
)
    requires
        is_choice(data, max_memory, shared, method, packed, answers),
        !is_compressed_format(data),
        data.len() <= max_memory,
        !looks_random(data, answers),
    ensures
        packed.len() <= zlib_stream(data, 9).len(),
        packed.len() <= data.len(),
        method == Method::Store ==> packed == data,
        method == Method::Zlib ==> packed == zlib_stream(data, 9) && packed.len() < data.len(),
        method == Method::MuCAS ==> packed.len() < data.len(),
        zlib_stream(data, 9).len() < data.len() ==> method != Method::Store,
{
    if settled(data, max_memory, shared is Some, answers.is_random(data)) is None {
        let (class, program) = choose|class: DataClass, program: Option<Seq<u8>>|
            is_kind_of(data, class, answers) && (is_worth_a_program(class) ==> packs_as(
                data,
                class,
                shared,
                program,
                answers,
            )) && (method, packed) == #[trigger] by_class(data, class, program);
        if class == DataClass::Binary {
            binary_data_is_near_random(data, class, answers);
        }
        compressed_formats_are_a_kind(data, class, answers);
    }
}

/// A file of at least 64 KiB, or one that may refer to shared blocks, is packed no
/// larger than as a program either, unless it is prose: logs, JSON and semi-structured
/// data are tried both ways, and the smaller wins.
pub proof fn packing_is_no_larger_than_the_program(
    data: Seq<u8>,
    class: DataClass,
    max_memory: usize,
    shared: Option<Consensus>,
    method: Method,
    packed: Seq<u8>,
    program: Seq<u8>,
    answers: Answers,
)
    requires
        is_choice(data, max_memory, shared, method, packed, answers),
        !is_compressed_format(data),
        data.len() <= max_memory,
        !looks_random(data, answers),
        data.len() >= 0x1_0000 || shared is Some,
        is_kind_of(data, class, answers),
        class != DataClass::UnstructuredText,
        packs_as(data, class, shared, Some(program), answers),
    ensures
        packed.len() <= program.len(),
        program.len() < data.len() && program.len() <= zlib_stream(data, 9).len() ==> method
            == Method::MuCAS && packed == program,
        method == Method::Store ==> program.len() >= data.len() && zlib_stream(data, 9).len()
            >= data.len(),
{
    if class == DataClass::Binary {
        binary_data_is_near_random(data, class, answers);
    }
    compressed_formats_are_a_kind(data, class, answers);
    let (c, p) = choose|class: DataClass, program: Option<Seq<u8>>|
        is_kind_of(data, class, answers) && (is_worth_a_program(class) ==> packs_as(
            data,
            class,
            shared,
            program,
            answers,
        )) && (method, packed) == #[trigger] by_class(data, class, program);
    the_kind_is_one(data, c, class, answers);
    crate::archive_guarantees::lemma_program_is_one(data, class, shared, p, Some(program), answers);
}

/// Prose and, without shared blocks, files below 64 KiB are packed as a zlib stream
/// or stored, never as a program.
pub proof fn prose_and_small_files_are_no_programs(
    data: Seq<u8>,
    class: DataClass,
    max_memory: usize,
    shared: Option<Consensus>,
    method: Method,
    packed: Seq<u8>,
    answers: Answers,
)
    requires
        is_choice(data, max_memory, shared, method, packed, answers),
        is_kind_of(data, class, answers),
        class == DataClass::UnstructuredText || (data.len() < 0x1_0000 && shared is None),
    ensures
        method != Method::MuCAS,
{
    if settled(data, max_memory, shared is Some, answers.is_random(data)) is None {
        let (c, p) = choose|class: DataClass, program: Option<Seq<u8>>|
            is_kind_of(data, class, answers) && (is_worth_a_program(class) ==> packs_as(
                data,
                class,
                shared,
                program,
                answers,
            )) && (method, packed) == #[trigger] by_class(data, class, program);
        the_kind_is_one(data, c, class, answers);
    }
}

/// The instructions of a program after it was made to refer to the shared blocks, if
/// there are any, in the order of their keys.
pub open spec fn referring(d: Draft, shared: Option<Consensus>) -> Seq<Tok> {
    match shared {
        Some(c) => referred(
            Referred { toks: d.toks, blocks: vstd::map::Map::empty(), cost: 0 },
            c.listing(),
            c.listing().len(),
        ).toks,
        None => d.toks,
    }
}

/// A file that is packed as a program is a container of what the pipeline makes of it,
/// after it was made to refer to the shared blocks, if there are any: behind ten bytes
/// stands the zlib stream of a payload that ends with the byte code of that program.
pub proof fn entries_hold_the_program_of_the_pipeline(
    data: Seq<u8>,
    class: DataClass,
    shared: Option<Consensus>,
    packed: Seq<u8>,
    lz: LzEncoder,
    d: Draft,
    hybrid: bool,
    answers: Answers,
)
    requires
        packs_as(data, class, shared, Some(packed), answers),
        is_standard(lz),
        is_piped(class, lz, data, d, hybrid, answers),
    ensures
        packed.len() >= 10,
        exists|front: Seq<u8>| #[trigger]
            zlib_stream(front + toks_bytes(referring(d, shared)), 9) == packed.skip(10),
{
    reveal(packs_as);
    reveal(is_file_for);
    let f = choose|f: MucasFile| #[trigger]
        is_file_for(data, class, shared, f, answers) && f.payload().len() < 0x1_0000_0000
            && f.encodes(packed);
    let (x, b, h) = choose|lz: LzEncoder, b: Draft, h: bool|
        is_standard(lz) && #[trigger] is_piped(class, lz, data, b, h, answers) && holds(
            f,
            with_shared(b, shared).toks,
            b.defs,
            with_shared(b, shared).blocks,
        );
    assert(x == lz);
    the_pipeline_is_determined(class, lz, data, b, h, d, hybrid, answers);
    assert(with_shared(d, shared).toks == referring(d, shared));
    assert(f@.program == toks_bytes(referring(d, shared)));
    let code = f.program@;
    let payload = f.payload();
    let head = header_of(f.flags, payload.len());
    crate::bytes::lemma_le32_len(crate::tokens::lo32(payload.len()));
    assert(head.len() == 10);
    assert(packed.skip(10) =~= zlib_stream(payload, 9));
    let front = payload.take(payload.len() - code.len());
    assert(payload =~= front + code);
    assert(zlib_stream(front + code, 9) == packed.skip(10));
}

/// What packed bytes unpack to: themselves if they are stored, what they inflate to
/// if they are a zlib stream, and what the program in the container yields if they
/// are one.
pub proof fn entries_unpack_by_their_method(packed: Seq<u8>)
    ensures
        unpacked(Method::Store, packed) == Some(packed),
        unpacked(Method::Zlib, packed) == zlib_contents(packed),
        read_file(packed) is Err ==> unpacked(Method::MuCAS, packed) is None,
        read_file(packed) matches Ok(f) ==> {
            let end = execute(f.program, Env { subs: f.subs, consensus: f.consensus });
            &&& end.err is None ==> unpacked(Method::MuCAS, packed) == Some(end.out)
            &&& end.err is Some ==> unpacked(Method::MuCAS, packed) is None
        },
{
}

/// Whatever is packed comes back.
pub proof fn packed_files_come_back(data: Seq<u8>, method: Method, packed: Seq<u8>)
    requires
        is_packing(data, method, packed),
    ensures
        unpacked(method, packed) == Some(data),
        packed.len() <= data.len(),
{
}

/// Without another limit, files up to 256 MiB are packed.
pub proof fn the_standard_limit_is_256_mebibytes(
    files: Seq<(Seq<char>, Seq<u8>)>,
    packs: Seq<(Method, Seq<u8>)>,
    k: int,
    answers: Answers,
)
    requires
        are_choices(files, packs, answers),
        0 <= k < files.len(),
    ensures
        packs.len() == files.len(),
        is_choice(files[k].1, 0x1000_0000, None, packs[k].0, packs[k].1, answers),
{
}

/// Files are stored without being looked at exactly where they are compressed already,
/// above the limit, or of 4 GiB and more.
pub proof fn hopeless_files_are_not_looked_at(size: nat, compressed: bool, limit: nat)
    ensures
        compressed ==> is_stored_unread(size, compressed, limit),
        size >= 0x1_0000_0000 ==> is_stored_unread(size, compressed, limit),
        size > limit ==> is_stored_unread(size, compressed, limit),
        !compressed && size < 0x1_0000_0000 && size <= limit ==> !is_stored_unread(
            size,
            compressed,
            limit,
        ),
{
}

} // verus!
