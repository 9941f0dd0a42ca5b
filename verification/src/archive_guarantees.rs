//! What holds of archives over several calls: reading entry by entry, writing
//! entry by entry, what a summary adds up, and that packing is determined.

use vstd::prelude::*;
use crate::archive::{
    archive_of, are_choices, by_class, holds, is_choice, is_file_for, is_kind_of,
    is_worth_a_program, no_stats, packs_as, read_archive, read_archive_header, read_entries,
    read_entry, read_head, read_heads, settled, tally_entries, the_kind_is_one, with_entry,
    with_shared, ArchiveError, ArchiveWriter, EntryHead, Method, WriteStats, DEFAULT_MAX_MEMORY,
};
use crate::consensus::Consensus;
use crate::format::{payloads_are_determined, MucasFile};
use crate::judge::Answers;
use crate::lz::LzEncoder;
use crate::machine::MAX_OUTPUT_BYTES;
use crate::pipeline::{is_piped, the_pipeline_is_determined};
use crate::sched::{is_standard, DataClass};
use crate::synth::draft::Draft;

verus! {

broadcast use crate::bytes::lemma_le32_bound;

/// What reading an entry gives: its path, how it is packed, its contents, and the
/// place behind it.
pub type Reading = (Seq<char>, Method, Seq<u8>, nat);

/// The place that the reading of entry `k` starts from.
pub open spec fn reading_place(steps: Seq<Reading>, k: int) -> nat {
    if k <= 0 {
        10
    } else {
        steps[k - 1].3
    }
}

/// Step `k` reads entry `k`.
pub open spec fn is_reading(data: Seq<u8>, steps: Seq<Reading>, k: int) -> bool {
    read_entry(data, reading_place(steps, k), k as usize) == Ok::<Reading, ArchiveError>(steps[k])
}

/// Reading an archive entry by entry goes through these steps.
pub open spec fn are_readings(data: Seq<u8>, steps: Seq<Reading>) -> bool {
    forall|k: int| 0 <= k < steps.len() ==> #[trigger] is_reading(data, steps, k)
}

/// The paths and contents that were read.
pub open spec fn files_read(steps: Seq<Reading>) -> Seq<(Seq<char>, Seq<u8>)> {
    Seq::new(steps.len(), |k: int| (steps[k].0, steps[k].2))
}

/// The files behind an entry that is read, put behind it.
pub open spec fn read_after(
    step: Reading,
    rest: Result<Seq<(Seq<char>, Seq<u8>)>, ArchiveError>,
) -> Result<Seq<(Seq<char>, Seq<u8>)>, ArchiveError> {
    match rest {
        Err(e) => Err(e),
        Ok(files) => Ok(seq![(step.0, step.2)] + files),
    }
}

/// Reading several entries is reading one, and then the others.
proof fn lemma_read_one(data: Seq<u8>, pos: nat, count: nat, index: nat, step: Reading)
    requires
        count > 0,
        read_entry(data, pos, index as usize) == Ok::<Reading, ArchiveError>(step),
    ensures
        read_entries(data, pos, count, index) == read_after(
            step,
            read_entries(data, step.3, (count - 1) as nat, index + 1),
        ),
{
}

/// What reading several entries gives where the first cannot be read.
proof fn lemma_read_none(data: Seq<u8>, pos: nat, count: nat, index: nat, e: ArchiveError)
    requires
        count > 0,
        read_entry(data, pos, index as usize) == Err::<Reading, ArchiveError>(e),
    ensures
        read_entries(data, pos, count, index) == Err::<Seq<(Seq<char>, Seq<u8>)>, ArchiveError>(e),
{
}

/// What is left to read after the first `k` steps, if `last` is what reading the
/// rest gives.
proof fn lemma_readings(
    data: Seq<u8>,
    steps: Seq<Reading>,
    count: nat,
    k: nat,
    last: Result<Seq<(Seq<char>, Seq<u8>)>, ArchiveError>,
)
    requires
        are_readings(data, steps),
        k <= steps.len() <= count,
        read_entries(
            data,
            reading_place(steps, steps.len() as int),
            (count - steps.len()) as nat,
            steps.len(),
        ) == last,
    ensures
        last matches Err(e) ==> read_entries(
            data,
            reading_place(steps, k as int),
            (count - k) as nat,
            k,
        ) == last,
        last matches Ok(files) ==> read_entries(
            data,
            reading_place(steps, k as int),
            (count - k) as nat,
            k,
        ) == Ok::<Seq<(Seq<char>, Seq<u8>)>, ArchiveError>(
            files_read(steps).skip(k as int) + files,
        ),
    decreases steps.len() - k,
{
    let files = files_read(steps);
    let part = files.skip(k as int);
    if k < steps.len() {
        let step = steps[k as int];
        assert(is_reading(data, steps, k as int));
        lemma_readings(data, steps, count, k + 1, last);
        lemma_read_one(data, reading_place(steps, k as int), (count - k) as nat, k, step);
        if let Ok(rest) = last {
            assert(seq![(step.0, step.2)] + (files.skip((k + 1) as int) + rest) =~= part + rest);
        }
    } else {
        if let Ok(rest) = last {
            assert(part + rest =~= rest);
        }
    }
}

/// Reading entry by entry until none is left gives the files of the archive, in
/// their order. Where an entry cannot be read, the archive cannot be, and the
/// error is the same.
pub proof fn reading_step_by_step(data: Seq<u8>, steps: Seq<Reading>)
    requires
        are_readings(data, steps),
        read_archive_header(data) is Ok,
        steps.len() <= read_archive_header(data)->Ok_0,
    ensures
        steps.len() == read_archive_header(data)->Ok_0 ==> read_archive(data) == Ok::<
            Seq<(Seq<char>, Seq<u8>)>,
            ArchiveError,
        >(files_read(steps)),
        steps.len() < read_archive_header(data)->Ok_0 && read_entry(
            data,
            reading_place(steps, steps.len() as int),
            steps.len() as usize,
        ) is Err ==> read_archive(data) == Err::<Seq<(Seq<char>, Seq<u8>)>, ArchiveError>(
            read_entry(
                data,
                reading_place(steps, steps.len() as int),
                steps.len() as usize,
            )->Err_0,
        ),
{
    let count = read_archive_header(data)->Ok_0 as nat;
    let n = steps.len();
    let pos = reading_place(steps, n as int);
    if let Err(e) = read_entry(data, pos, n as usize) {
        if n < count {
            lemma_read_none(data, pos, (count - n) as nat, n, e);
        }
    }
    lemma_readings(data, steps, count, 0, read_entries(data, pos, (count - n) as nat, n));
    assert(files_read(steps).skip(0) + Seq::empty() =~= files_read(steps));
}

/// What one call adds to a writer: the bytes, how the entry is packed, and its
/// sizes before and after packing.
pub struct Addition {
    pub bytes: Seq<u8>,
    pub method: Method,
    pub original: u64,
    pub packed: u64,
}

/// The bytes of all additions.
pub open spec fn bytes_added(adds: Seq<Addition>) -> Seq<u8>
    decreases adds.len(),
{
    if adds.len() == 0 {
        Seq::empty()
    } else {
        bytes_added(adds.drop_last()) + adds.last().bytes
    }
}

/// The numbers after all additions.
pub open spec fn numbers_after(s: WriteStats, adds: Seq<Addition>) -> WriteStats
    decreases adds.len(),
{
    if adds.len() == 0 {
        s
    } else {
        let a = adds.last();
        with_entry(numbers_after(s, adds.drop_last()), a.method, a.original, a.packed)
    }
}

/// Each writer is the one before it after one more addition.
pub open spec fn is_writing(ws: Seq<ArchiveWriter>, adds: Seq<Addition>) -> bool {
    &&& ws.len() == adds.len() + 1
    &&& forall|k: int|
        0 <= k < adds.len() ==> (#[trigger] ws[k + 1]).has_grown(
            &ws[k],
            adds[k].bytes,
            adds[k].method,
            adds[k].original,
            adds[k].packed,
        )
}

/// A writer counts one entry for each addition, has the bytes of all of them in
/// their order behind those that it had, and its numbers add them up. One that
/// starts without entries has as many as it expects exactly after so many
/// additions.
pub proof fn writers_count_their_additions(ws: Seq<ArchiveWriter>, adds: Seq<Addition>)
    requires
        is_writing(ws, adds),
    ensures
        ws.last().written() == ws.first().written() + adds.len(),
        ws.last().expected() == ws.first().expected(),
        ws.last().limit() == ws.first().limit(),
        ws.last().shared() == ws.first().shared(),
        ws.last().pending() == ws.first().pending() + bytes_added(adds),
        ws.last().numbers() == numbers_after(ws.first().numbers(), adds),
        adds.len() > 0 ==> ws.last().latest() == Some(adds.last().method),
        ws.first().written() == 0 ==> (ws.last().written() == ws.last().expected() <==> adds.len()
            == ws.first().expected()),
    decreases adds.len(),
{
    if adds.len() == 0 {
        assert(ws.first().pending() + bytes_added(adds) =~= ws.first().pending());
    } else {
        let (v, b) = (ws.drop_last(), adds.drop_last());
        assert forall|k: int| 0 <= k < b.len() implies (#[trigger] v[k + 1]).has_grown(
            &v[k],
            b[k].bytes,
            b[k].method,
            b[k].original,
            b[k].packed,
        ) by {
            assert(v[k + 1] == ws[k + 1] && v[k] == ws[k] && b[k] == adds[k]);
        }
        writers_count_their_additions(v, b);
        let k = adds.len() - 1;
        assert(v.last() == ws[k]);
        assert(ws.last() == ws[k + 1]);
        assert(v.first() == ws.first());
        assert(ws.first().pending() + bytes_added(adds) =~= ws.first().pending() + bytes_added(b)
            + adds.last().bytes);
    }
}

/// How many of the heads are packed in this way.
pub open spec fn packed_with(heads: Seq<EntryHead>, method: Method) -> nat
    decreases heads.len(),
{
    if heads.len() == 0 {
        0
    } else {
        packed_with(heads.drop_first(), method) + if heads[0].method == method {
            1nat
        } else {
            0
        }
    }
}

/// The sum of the sizes before packing.
pub open spec fn original_sum(heads: Seq<EntryHead>) -> nat
    decreases heads.len(),
{
    if heads.len() == 0 {
        0
    } else {
        heads[0].original + original_sum(heads.drop_first())
    }
}

/// The sum of the sizes after packing.
pub open spec fn packed_sum(heads: Seq<EntryHead>) -> nat
    decreases heads.len(),
{
    if heads.len() == 0 {
        0
    } else {
        heads[0].size + packed_sum(heads.drop_first())
    }
}

/// The number, or the largest one if it is larger.
pub open spec fn at_most_u64(n: nat) -> u64 {
    if n <= u64::MAX {
        n as u64
    } else {
        u64::MAX
    }
}

/// The numbers add up the heads.
pub open spec fn adds_up(before: WriteStats, after: WriteStats, heads: Seq<EntryHead>) -> bool {
    &&& after.store_count == before.store_count + packed_with(heads, Method::Store)
    &&& after.zlib_count == before.zlib_count + packed_with(heads, Method::Zlib)
    &&& after.mucas_count == before.mucas_count + packed_with(heads, Method::MuCAS)
    &&& after.total_original == at_most_u64(before.total_original as nat + original_sum(heads))
    &&& after.total_compressed == at_most_u64(before.total_compressed as nat + packed_sum(heads))
}

/// Heads that were read have sizes that fit their fields.
proof fn lemma_head_bounds(data: Seq<u8>, pos: nat, index: usize)
    ensures
        read_head(data, pos, index) matches Ok(h) ==> h.original <= u64::MAX && h.size
            <= u32::MAX,
{
}

/// Counting the entries from `pos` on adds up their heads.
proof fn lemma_tally_heads(
    data: Seq<u8>,
    pos: nat,
    at: nat,
    count: nat,
    index: nat,
    acc: WriteStats,
)
    requires
        read_heads(data, at, count, index) is Ok,
        pos == at || (pos >= data.len() && at >= data.len()),
        acc.store_count + count <= usize::MAX,
        acc.zlib_count + count <= usize::MAX,
        acc.mucas_count + count <= usize::MAX,
    ensures
        tally_entries(data, pos, count, acc) matches Ok(s) && adds_up(
            acc,
            s,
            read_heads(data, at, count, index)->Ok_0,
        ),
        read_heads(data, at, count, index)->Ok_0.len() == count,
    decreases count,
{
    let heads = read_heads(data, at, count, index)->Ok_0;
    if count > 0 {
        let h = read_head(data, at, index as usize)->Ok_0;
        lemma_head_bounds(data, at, index as usize);
        let next = if h.at + h.size < data.len() {
            h.at + h.size
        } else {
            data.len()
        };
        let rest = read_heads(data, next, (count - 1) as nat, index + 1)->Ok_0;
        assert(heads == seq![h] + rest);
        assert(heads.drop_first() =~= rest);
        let more = with_entry(acc, h.method, h.original as u64, h.size as u64);
        lemma_tally_heads(data, h.at + h.size, next, (count - 1) as nat, index + 1, more);
    }
}

proof fn lemma_methods_add_up(heads: Seq<EntryHead>)
    ensures
        packed_with(heads, Method::Store) + packed_with(heads, Method::Zlib) + packed_with(
            heads,
            Method::MuCAS,
        ) == heads.len(),
    decreases heads.len(),
{
    if heads.len() > 0 {
        lemma_methods_add_up(heads.drop_first());
    }
}

/// The summary of an archive that can be listed adds up its listing: it counts
/// the entries of each kind, which are all entries, and sums up their sizes.
pub proof fn summary_adds_up_the_listing(data: Seq<u8>, count: u32)
    requires
        read_heads(data, 10, count as nat, 0) is Ok,
    ensures
        tally_entries(data, 10, count as nat, no_stats()) is Ok,
        ({
            let heads = read_heads(data, 10, count as nat, 0)->Ok_0;
            let s = tally_entries(data, 10, count as nat, no_stats())->Ok_0;
            &&& adds_up(no_stats(), s, heads)
            &&& heads.len() == count
            &&& s.store_count + s.zlib_count + s.mucas_count == count
        }),
{
    lemma_tally_heads(data, 10, 10, count as nat, 0, no_stats());
    lemma_methods_add_up(read_heads(data, 10, count as nat, 0)->Ok_0);
}

/// The container of data of a kind is determined.
proof fn lemma_file_is_one(
    data: Seq<u8>,
    class: DataClass,
    shared: Option<Consensus>,
    f: MucasFile,
    g: MucasFile,
    answers: Answers,
)
    requires
        is_file_for(data, class, shared, f, answers),
        is_file_for(data, class, shared, g, answers),
    ensures
        f@ == g@,
        f.payload() == g.payload(),
{
    reveal(is_file_for);
    let (x, b, b_hybrid) = choose|lz: LzEncoder, d: Draft, hybrid: bool|
        is_standard(lz) && #[trigger] is_piped(class, lz, data, d, hybrid, answers) && holds(
            f,
            with_shared(d, shared).toks,
            d.defs,
            with_shared(d, shared).blocks,
        );
    let (y, c, c_hybrid) = choose|lz: LzEncoder, d: Draft, hybrid: bool|
        is_standard(lz) && #[trigger] is_piped(class, lz, data, d, hybrid, answers) && holds(
            g,
            with_shared(d, shared).toks,
            d.defs,
            with_shared(d, shared).blocks,
        );
    assert(x == y);
    the_pipeline_is_determined(class, x, data, b, b_hybrid, c, c_hybrid, answers);
    payloads_are_determined(f, g);
}

/// The program that data of a kind is packed as is determined.
pub proof fn lemma_program_is_one(
    data: Seq<u8>,
    class: DataClass,
    shared: Option<Consensus>,
    p: Option<Seq<u8>>,
    q: Option<Seq<u8>>,
    answers: Answers,
)
    requires
        packs_as(data, class, shared, p, answers),
        packs_as(data, class, shared, q, answers),
    ensures
        p == q,
{
    reveal(packs_as);
    if data.len() <= MAX_OUTPUT_BYTES {
        let f = choose|f: MucasFile| #[trigger]
            is_file_for(data, class, shared, f, answers) && match p {
                Some(bytes) => f.payload().len() < 0x1_0000_0000 && f.encodes(bytes),
                None => f.payload().len() >= 0x1_0000_0000,
            };
        let g = choose|f: MucasFile| #[trigger]
            is_file_for(data, class, shared, f, answers) && match q {
                Some(bytes) => f.payload().len() < 0x1_0000_0000 && f.encodes(bytes),
                None => f.payload().len() >= 0x1_0000_0000,
            };
        lemma_file_is_one(data, class, shared, f, g, answers);
        assert(f.flags == f@.flags && g.flags == g@.flags);
    }
}

/// How a file is packed is determined, to the byte, by its contents, the settings
/// and the answers.
pub proof fn packing_is_determined(
    data: Seq<u8>,
    max_memory: usize,
    shared: Option<Consensus>,
    m: Method,
    p: Seq<u8>,
    n: Method,
    q: Seq<u8>,
    answers: Answers,
)
    requires
        is_choice(data, max_memory, shared, m, p, answers),
        is_choice(data, max_memory, shared, n, q, answers),
    ensures
        m == n,
        p == q,
{
    if settled(data, max_memory, shared is Some, answers.is_random(data)) is None {
        let (a, x) = choose|class: DataClass, program: Option<Seq<u8>>|
            is_kind_of(data, class, answers) && (is_worth_a_program(class) ==> packs_as(
                data,
                class,
                shared,
                program,
                answers,
            )) && (m, p) == #[trigger] by_class(data, class, program);
        let (b, y) = choose|class: DataClass, program: Option<Seq<u8>>|
            is_kind_of(data, class, answers) && (is_worth_a_program(class) ==> packs_as(
                data,
                class,
                shared,
                program,
                answers,
            )) && (n, q) == #[trigger] by_class(data, class, program);
        the_kind_is_one(data, a, b, answers);
        if is_worth_a_program(a) {
            lemma_program_is_one(data, a, shared, x, y, answers);
        }
    }
}

/// An archive of the same files is the same, to the byte, with the same answers.
pub proof fn archives_are_determined(
    files: Seq<(Seq<char>, Seq<u8>)>,
    p: Seq<(Method, Seq<u8>)>,
    q: Seq<(Method, Seq<u8>)>,
    answers: Answers,
)
    requires
        are_choices(files, p, answers),
        are_choices(files, q, answers),
    ensures
        archive_of(files, p) == archive_of(files, q),
{
    assert forall|k: int| 0 <= k < files.len() implies p[k] == q[k] by {
        let data = files[k].1;
        packing_is_determined(
            data,
            DEFAULT_MAX_MEMORY,
            None,
            p[k].0,
            p[k].1,
            q[k].0,
            q[k].1,
            answers,
        );
    }
    assert(p =~= q);
}

} // verus!
