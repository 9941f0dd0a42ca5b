//! What is told of data before it is compressed, and what follows from it.

use vstd::prelude::*;
use vstd::utf8::{
    codepoint_width_2, decode_utf8, length_of_first_scalar, pop_first_scalar, valid_first_scalar,
    valid_utf8,
};
use crate::archive::is_kind_of;
use crate::bytes::{le32_value, lemma_le32_back};
use crate::judge::{byte_count, tally, Answers};
use crate::lz::{literal_total, match_spans, match_total, parse_covers_the_input, LzEncoder, Piece};
use crate::sched::{
    class_of, grams, has_mark, has_settings, is_compressed_format, is_standard, line_overlaps,
    long_lines, measures, overlap, synthesis_for, utf8_at, utf8_len, utf8_tally, ClassMetrics,
    DataClass,
};
use crate::synth::json::skip_blank;
use crate::synth::rewrite::PatternSynthesizer;
use crate::synth::scan::looks_like_json;

verus! {

broadcast use crate::bytes::lemma_le32_bound;

/// Data is binary exactly where its bytes are near random and fewer than seven in
/// ten of its characters are valid UTF-8.
pub proof fn binary_is_random_and_no_text(m: ClassMetrics, json: bool)
    ensures
        class_of(m, json) == DataClass::Binary <==> m.near_random && m.utf8_valid * 10
            < m.utf8_total * 7,
{
}

/// Data is JSON exactly where it starts like it, is not binary, and more than 85 in a
/// hundred of its characters are valid, or it has none.
pub proof fn json_starts_like_it_and_is_text(m: ClassMetrics, json: bool)
    ensures
        class_of(m, json) == DataClass::JsonArray <==> {
            &&& json
            &&& !(m.near_random && m.utf8_valid * 10 < m.utf8_total * 7)
            &&& m.utf8_total == 0 || m.utf8_valid * 100 > m.utf8_total * 85
        },
{
}

/// Of the other data, logs have lines that are alike and less than 45 in a hundred
/// bytes in literals.
pub proof fn logs_have_alike_lines_and_few_literals(m: ClassMetrics, json: bool)
    requires
        class_of(m, json) != DataClass::Binary,
        class_of(m, json) != DataClass::JsonArray,
    ensures
        class_of(m, json) == DataClass::StructuredLog <==> m.lines_alike && m.literal_bytes * 100
            < m.input_len * 45,
{
}

/// Of what is left, prose has more than 65 in a hundred bytes in literals and
/// references that cover less than ten bytes on average. The rest is
/// semi-structured.
pub proof fn prose_has_many_literals_and_short_references(m: ClassMetrics, json: bool)
    requires
        class_of(m, json) != DataClass::Binary,
        class_of(m, json) != DataClass::JsonArray,
        class_of(m, json) != DataClass::StructuredLog,
    ensures
        class_of(m, json) == DataClass::UnstructuredText || class_of(m, json)
            == DataClass::SemiStructured,
        class_of(m, json) == DataClass::UnstructuredText <==> (m.input_len == 0 || m.literal_bytes
            * 100 > m.input_len * 65) && (m.match_count == 0 || m.match_bytes < 10
            * m.match_count),
{
}

/// The metrics of data and its parse: how many bytes stand in literals and in
/// references, how many references there are, which characters are valid, and what
/// the judge answers on byte counts and on the overlaps of adjacent lines.
pub proof fn metrics_tell_the_parse(
    m: ClassMetrics,
    data: Seq<u8>,
    ps: Seq<Piece>,
    input_len: nat,
    answers: Answers,
)
    requires
        measures(m, data, ps, input_len, answers),
        literal_total(ps) <= usize::MAX,
        match_total(ps) <= usize::MAX,
    ensures
        m.input_len == input_len,
        m.literal_bytes == literal_total(ps),
        m.match_bytes == match_total(ps),
        m.match_count == match_spans(ps).len(),
        m.utf8_valid == utf8_tally(data, 0).0,
        m.utf8_total == utf8_tally(data, 0).1,
        data.len() == 0 ==> !m.near_random,
        data.len() > 0 ==> m.near_random == (answers.random)(tally(data), data.len()),
        line_overlaps(data).len() == 0 ==> !m.lines_alike,
        line_overlaps(data).len() > 0 ==> m.lines_alike == (answers.alike)(line_overlaps(data)),
{
    reveal(measures);
}

/// What is counted of bytes: how often each of the 256 occurs. Each byte counts
/// once, and counts of two parts add up.
pub proof fn byte_counts_add_up(a: Seq<u8>, b: Seq<u8>, x: int)
    requires
        0 <= x < 256,
    ensures
        byte_count(a + b, x, (a + b).len()) == byte_count(a, x, a.len()) + byte_count(
            b,
            x,
            b.len(),
        ),
        byte_count(a.push(x as u8), x, a.len() + 1) == byte_count(a, x, a.len()) + 1,
        byte_count(Seq::<u8>::empty(), x, 0) == 0,
        forall|y: u8| y != x ==> #[trigger] byte_count(a.push(y), x, a.len() + 1) == byte_count(
            a,
            x,
            a.len(),
        ),
        tally(a).len() == 256,
        a.len() <= usize::MAX ==> tally(a)[x] == byte_count(a, x, a.len()),
{
    lemma_count_front(a, b, x, a.len());
    lemma_count_both(a, b, x, b.len());
    lemma_count_front(a, seq![x as u8], x, a.len());
    assert(a.push(x as u8) =~= a + seq![x as u8]);
    assert forall|y: u8| y != x implies #[trigger] byte_count(a.push(y), x, a.len() + 1)
        == byte_count(a, x, a.len()) by {
        lemma_count_front(a, seq![y], x, a.len());
        assert(a.push(y) =~= a + seq![y]);
    }
    lemma_count_bound(a, x, a.len());
}

proof fn lemma_count_bound(a: Seq<u8>, x: int, n: nat)
    ensures
        byte_count(a, x, n) <= n,
    decreases n,
{
    if n > 0 {
        lemma_count_bound(a, x, (n - 1) as nat);
    }
}

proof fn lemma_count_front(a: Seq<u8>, b: Seq<u8>, x: int, n: nat)
    requires
        n <= a.len(),
    ensures
        byte_count(a + b, x, n) == byte_count(a, x, n),
    decreases n,
{
    if n > 0 {
        lemma_count_front(a, b, x, (n - 1) as nat);
        assert((a + b)[n - 1] == a[n - 1]);
    }
}

proof fn lemma_count_both(a: Seq<u8>, b: Seq<u8>, x: int, n: nat)
    requires
        n <= b.len(),
    ensures
        byte_count(a + b, x, a.len() + n) == byte_count(a, x, a.len()) + byte_count(b, x, n),
    decreases n,
{
    if n > 0 {
        lemma_count_both(a, b, x, (n - 1) as nat);
        assert((a + b)[a.len() + n - 1] == b[n - 1]);
    } else {
        lemma_count_front(a, b, x, a.len());
    }
}

/// A valid character at the front is one that starts at its place.
proof fn lemma_first_character(data: Seq<u8>, i: int)
    requires
        0 <= i < data.len(),
        valid_first_scalar(data.skip(i)),
    ensures
        utf8_at(data, i),
        utf8_len(data[i]) == length_of_first_scalar(data.skip(i)),
{
    let s = data.skip(i);
    assert(s[0] == data[i]);
    if 0xC0 <= s[0] <= 0xDF {
        assert(s[1] == data[i + 1]);
        let (a, b) = (s[0], s[1]);
        assert(a < 0xC2 && a >= 0xC0 ==> (((a & 0x1F) as u32) << 6 | (b & 0x3f) as u32) < 0x80)
            by (bit_vector);
        assert(codepoint_width_2(a, b) == ((a & 0x1F) as u32) << 6 | (b & 0x3f) as u32);
    } else if 0xE0 <= s[0] <= 0xEF {
        assert(s[1] == data[i + 1] && s[2] == data[i + 2]);
    } else if s[0] >= 0xF0 {
        assert(s[1] == data[i + 1] && s[2] == data[i + 2] && s[3] == data[i + 3]);
        let (a, b, c, d) = (s[0], s[1], s[2], s[3]);
        assert(a > 0xF4 && a <= 0xF7 ==> (((a & 0x07) as u32) << 18 | ((b & 0x3f) as u32) << 12 | ((
        c & 0x3f) as u32) << 6 | (d & 0x3f) as u32) > 0x10ffff) by (bit_vector);
    }
}

/// Text that is valid UTF-8 counts its characters, and all of them as valid.
pub proof fn valid_text_counts_its_characters(data: Seq<u8>, i: int)
    requires
        0 <= i <= data.len(),
        valid_utf8(data.skip(i)),
    ensures
        utf8_tally(data, i) == (
            decode_utf8(data.skip(i)).len(),
            decode_utf8(data.skip(i)).len(),
        ),
    decreases data.len() - i,
{
    let s = data.skip(i);
    if i < data.len() {
        assert(s.len() > 0);
        lemma_first_character(data, i);
        let n = length_of_first_scalar(s);
        assert(pop_first_scalar(s) =~= data.skip(i + n));
        valid_text_counts_its_characters(data, i + n);
    }
}

/// A byte that can stand neither alone nor at the front of a character counts by
/// itself, and as not valid.
pub proof fn stray_bytes_are_not_valid(data: Seq<u8>, i: int)
    requires
        0 <= i < data.len(),
        0x80 <= data[i] <= 0xC1 || data[i] >= 0xF5,
    ensures
        utf8_tally(data, i).0 == utf8_tally(data, i + 1).0,
        utf8_tally(data, i).1 == utf8_tally(data, i + 1).1 + 1,
{
}

/// A character that is cut short, or that other bytes go on, counts its first byte
/// as not valid.
pub proof fn broken_characters_are_not_valid(data: Seq<u8>, i: int, n: int, j: int)
    requires
        0 <= i < data.len(),
        0xC2 <= data[i] <= 0xDF ==> n == 2,
        0xE0 <= data[i] <= 0xEF ==> n == 3,
        0xF0 <= data[i] <= 0xF4 ==> n == 4,
        0xC2 <= data[i] <= 0xF4,
        i < j < i + n,
        j >= data.len() || data[j] < 0x80 || data[j] > 0xBF,
    ensures
        utf8_tally(data, i).0 == utf8_tally(data, i + 1).0,
        utf8_tally(data, i).1 == utf8_tally(data, i + 1).1 + 1,
{
}

/// Text that is valid UTF-8 is never taken for binary data.
pub proof fn valid_text_is_never_binary(data: Seq<u8>, class: DataClass, answers: Answers)
    requires
        is_kind_of(data, class, answers),
        valid_utf8(data),
    ensures
        class != DataClass::Binary,
{
    reveal(is_kind_of);
    reveal(measures);
    assert(data.skip(0) =~= data);
    valid_text_counts_its_characters(data, 0);
}

/// Data that the judge does not find near random is never taken for binary data.
pub proof fn binary_data_is_near_random(data: Seq<u8>, class: DataClass, answers: Answers)
    requires
        is_kind_of(data, class, answers),
        class == DataClass::Binary,
    ensures
        data.len() > 0,
        (answers.random)(tally(data), data.len()),
        !valid_utf8(data),
{
    reveal(is_kind_of);
    reveal(measures);
    if valid_utf8(data) {
        valid_text_is_never_binary(data, class, answers);
    }
}

/// Data is told to be compressed already by its first bytes: those of JPEG, PNG,
/// ZIP, 7z, RAR, gzip, Ogg, FLAC, Git pack and EXE files, and the fifth to eighth of
/// an MP4 file. No other data is.
pub proof fn compressed_formats_are_told_by_their_marks(d: Seq<u8>)
    ensures
        is_compressed_format(d) <==> {
            ||| d.len() >= 3 && d[0] == 0xFF && d[1] == 0xD8 && d[2] == 0xFF
            ||| d.len() >= 8 && d[0] == 0x89 && d[1] == 0x50 && d[2] == 0x4E && d[3] == 0x47 && d[4]
                == 0x0D && d[5] == 0x0A && d[6] == 0x1A && d[7] == 0x0A
            ||| d.len() >= 8 && d[4] == 0x66 && d[5] == 0x74 && d[6] == 0x79 && d[7] == 0x70
            ||| d.len() >= 4 && d[0] == 0x50 && d[1] == 0x4B && d[2] == 0x03 && d[3] == 0x04
            ||| d.len() >= 6 && d[0] == 0x37 && d[1] == 0x7A && d[2] == 0xBC && d[3] == 0xAF && d[4]
                == 0x27 && d[5] == 0x1C
            ||| d.len() >= 6 && d[0] == 0x52 && d[1] == 0x61 && d[2] == 0x72 && d[3] == 0x21 && d[4]
                == 0x1A && d[5] == 0x07
            ||| d.len() >= 2 && d[0] == 0x1F && d[1] == 0x8B
            ||| d.len() >= 4 && d[0] == 0x4F && d[1] == 0x67 && d[2] == 0x67 && d[3] == 0x53
            ||| d.len() >= 4 && d[0] == 0x66 && d[1] == 0x4C && d[2] == 0x61 && d[3] == 0x43
            ||| d.len() >= 4 && d[0] == 0x50 && d[1] == 0x41 && d[2] == 0x43 && d[3] == 0x4B
            ||| d.len() >= 2 && d[0] == 0x4D && d[1] == 0x5A
        },
{
    lemma_mark(d, 0, seq![0xFFu8, 0xD8, 0xFF]);
    lemma_mark(d, 0, seq![0x89u8, 0x50, 0x4E, 0x47, 0x0D, 0x0A, 0x1A, 0x0A]);
    lemma_mark(d, 4, seq![0x66u8, 0x74, 0x79, 0x70]);
    lemma_mark(d, 0, seq![0x50u8, 0x4B, 0x03, 0x04]);
    lemma_mark(d, 0, seq![0x37u8, 0x7A, 0xBC, 0xAF, 0x27, 0x1C]);
    lemma_mark(d, 0, seq![0x52u8, 0x61, 0x72, 0x21, 0x1A, 0x07]);
    lemma_mark(d, 0, seq![0x1Fu8, 0x8B]);
    lemma_mark(d, 0, seq![0x4Fu8, 0x67, 0x67, 0x53]);
    lemma_mark(d, 0, seq![0x66u8, 0x4C, 0x61, 0x43]);
    lemma_mark(d, 0, seq![0x50u8, 0x41, 0x43, 0x4B]);
    lemma_mark(d, 0, seq![0x4Du8, 0x5A]);
}

/// A mark stands byte by byte.
proof fn lemma_mark(d: Seq<u8>, at: int, mark: Seq<u8>)
    requires
        0 <= at,
        mark.len() <= 8,
    ensures
        has_mark(d, at, mark) <==> at + mark.len() <= d.len() && (mark.len() > 0 ==> d[at]
            == mark[0]) && (mark.len() > 1 ==> d[at + 1] == mark[1]) && (mark.len() > 2 ==> d[at
            + 2] == mark[2]) && (mark.len() > 3 ==> d[at + 3] == mark[3]) && (mark.len() > 4
            ==> d[at + 4] == mark[4]) && (mark.len() > 5 ==> d[at + 5] == mark[5]) && (mark.len()
            > 6 ==> d[at + 6] == mark[6]) && (mark.len() > 7 ==> d[at + 7] == mark[7]),
{
    if at + mark.len() <= d.len() {
        let part = d.subrange(at, at + mark.len());
        assert forall|k: int| 0 <= k < mark.len() implies #[trigger] part[k] == d[at + k] by {}
        if part == mark {
            assert forall|k: int| 0 <= k < mark.len() implies d[at + k] == #[trigger] mark[k] by {
                assert(part[k] == mark[k]);
            }
        } else if mark.len() <= 8 {
            assert(!(part =~= mark));
        }
    }
}

/// Data that is compressed already is of that kind, whatever else it looks like, and
/// no other data is.
pub proof fn compressed_formats_are_a_kind(data: Seq<u8>, class: DataClass, answers: Answers)
    requires
        is_kind_of(data, class, answers),
    ensures
        class == DataClass::AlreadyCompressed <==> is_compressed_format(data),
{
    reveal(is_kind_of);
}

/// Blanks in front of data do not matter for whether it looks like JSON. Behind them
/// it opens an object, or an array and an object.
pub proof fn json_opens_an_object(blanks: Seq<u8>, rest: Seq<u8>)
    requires
        forall|i: int|
            0 <= i < blanks.len() ==> {
                ||| #[trigger] blanks[i] == 0x20
                ||| blanks[i] == 0x09
                ||| blanks[i] == 0x0D
                ||| blanks[i] == 0x0A
            },
        rest.len() > 0 ==> rest[0] != 0x20 && rest[0] != 0x09 && rest[0] != 0x0D && rest[0] != 0x0A,
    ensures
        looks_like_json(blanks + rest) <==> rest.len() > 0 && (rest[0] == 0x7B || (rest[0] == 0x5B
            && rest.len() > 1 && rest[1] == 0x7B)),
{
    lemma_blanks(blanks, rest, 0);
    let s = blanks + rest;
    let f = blanks.len() as int;
    if rest.len() > 0 {
        assert(s[f] == rest[0]);
        if rest.len() > 1 {
            assert(s[f + 1] == rest[1]);
        }
    }
}

proof fn lemma_blanks(blanks: Seq<u8>, rest: Seq<u8>, i: int)
    requires
        0 <= i <= blanks.len(),
        forall|i: int|
            0 <= i < blanks.len() ==> {
                ||| #[trigger] blanks[i] == 0x20
                ||| blanks[i] == 0x09
                ||| blanks[i] == 0x0D
                ||| blanks[i] == 0x0A
            },
        rest.len() > 0 ==> rest[0] != 0x20 && rest[0] != 0x09 && rest[0] != 0x0D && rest[0] != 0x0A,
    ensures
        skip_blank(blanks + rest, i, true) == blanks.len(),
    decreases blanks.len() - i,
{
    let s = blanks + rest;
    if i < blanks.len() {
        assert(s[i] == blanks[i]);
        lemma_blanks(blanks, rest, i + 1);
    } else if rest.len() > 0 {
        assert(s[i] == rest[0]);
    }
}

/// What is synthesized of which kind: everything of logs, JSON and semi-structured
/// data, differences of prose, and nothing of binary and compressed data.
pub proof fn kinds_are_synthesized_as_they_need(p: PatternSynthesizer, class: DataClass)
    ensures
        class == DataClass::Binary || class == DataClass::AlreadyCompressed <==> synthesis_for(
            class,
        ) is None,
        synthesis_for(class) is Some && has_settings(p, synthesis_for(class)->0) ==> {
            &&& p.enable_map
            &&& class == DataClass::UnstructuredText ==> !p.enable_loop && !p.enable_macro
                && !p.enable_scan
            &&& class != DataClass::UnstructuredText ==> p.enable_loop && p.enable_macro
                && p.enable_scan
        },
{
}

/// Data is cut into lines at line feeds, and lines of less than four bytes are left
/// out: the lines of a line, a line feed and more are the line, if it is long enough,
/// and the lines of the rest.
pub proof fn lines_are_cut_at_line_feeds(line: Seq<u8>, rest: Seq<u8>)
    requires
        forall|i: int| 0 <= i < line.len() ==> line[i] != 10,
    ensures
        long_lines(line + seq![10u8] + rest, 0, 0) == (if line.len() >= 4 {
            seq![line]
        } else {
            Seq::<Seq<u8>>::empty()
        }) + long_lines(rest, 0, 0),
        long_lines(line, 0, 0) == (if line.len() >= 4 {
            seq![line]
        } else {
            Seq::<Seq<u8>>::empty()
        }),
{
    let s = line + seq![10u8] + rest;
    let n = line.len() as int;
    lemma_line_walk(s, 0, 0, n);
    assert(s[n] == 10);
    assert(s.subrange(0, n) =~= line);
    assert(s.skip(n + 1) =~= rest);
    lemma_lines_moved(s, rest, n + 1, 0, 0);
    lemma_line_walk(line, 0, 0, n);
    assert(line.subrange(0, n) =~= line);
}

proof fn lemma_line_walk(s: Seq<u8>, from: int, i: int, n: int)
    requires
        0 <= i <= n <= s.len(),
        forall|k: int| i <= k < n ==> s[k] != 10,
    ensures
        long_lines(s, from, i) == long_lines(s, from, n),
    decreases n - i,
{
    if i < n {
        lemma_line_walk(s, from, i + 1, n);
    }
}

proof fn lemma_lines_moved(s: Seq<u8>, rest: Seq<u8>, at: int, from: int, i: int)
    requires
        0 <= at <= s.len(),
        s.skip(at) == rest,
        0 <= from <= i <= rest.len(),
    ensures
        long_lines(s, at + from, at + i) == long_lines(rest, from, i),
    decreases rest.len() - i,
{
    if i < rest.len() {
        assert(s[at + i] == rest[i]);
        assert(s.subrange(at + from, at + i) =~= rest.subrange(from, i));
        lemma_lines_moved(s, rest, at, if rest[i] == 10 {
            i + 1
        } else {
            from
        }, i + 1);
    } else {
        assert(s.subrange(at + from, s.len() as int) =~= rest.subrange(from, rest.len() as int));
    }
}

/// Adjacent lines are compared, each with the next.
pub proof fn adjacent_lines_are_compared(data: Seq<u8>, k: int)
    requires
        0 <= k,
        k + 1 < long_lines(data, 0, 0).len(),
    ensures
        line_overlaps(data).len() == long_lines(data, 0, 0).len() - 1,
        line_overlaps(data)[k] == overlap(long_lines(data, 0, 0)[k], long_lines(data, 0, 0)[k + 1]),
{
}

/// Four bytes that stand in a line.
pub open spec fn stands_in(s: Seq<u8>, four: Seq<u8>) -> bool {
    four.len() == 4 && exists|p: int|
        0 <= p && p + 4 <= s.len() && #[trigger] s.subrange(p, p + 4) == four
}

/// What the overlap of two lines counts: the runs of four bytes that stand in both,
/// and those that stand in one or the other.
pub proof fn overlaps_count_runs_of_four_bytes(a: Seq<u8>, b: Seq<u8>, four: Seq<u8>)
    requires
        four.len() == 4,
    ensures
        grams(a).contains(le32_value(four) as u32) <==> stands_in(a, four),
        overlap(a, b).0 == grams(a).intersect(grams(b)).len(),
        overlap(a, b).1 == grams(a).union(grams(b)).len(),
        forall|other: Seq<u8>|
            other.len() == 4 && other != four ==> #[trigger] le32_value(other) != le32_value(four),
{
    lemma_le32_back(four);
    if grams(a).contains(le32_value(four) as u32) {
        let p = choose|p: int|
            0 <= p && p + 4 <= a.len() && le32_value(four) as u32 == le32_value(
                #[trigger] a.subrange(p, p + 4),
            );
        lemma_le32_back(a.subrange(p, p + 4));
    }
    if stands_in(a, four) {
        let p = choose|p: int|
            0 <= p && p + 4 <= a.len() && #[trigger] a.subrange(p, p + 4) == four;
        assert(le32_value(a.subrange(p, p + 4)) == le32_value(four) as u32);
    }
    assert forall|other: Seq<u8>|
        other.len() == 4 && other != four implies #[trigger] le32_value(other) != le32_value(
        four,
    ) by {
        lemma_le32_back(other);
    }
}

/// Text that is valid UTF-8 and starts like JSON is JSON, unless it starts like a
/// compressed format.
pub proof fn text_that_starts_like_json_is_json(data: Seq<u8>, class: DataClass, answers: Answers)
    requires
        is_kind_of(data, class, answers),
        !is_compressed_format(data),
        looks_like_json(data),
        valid_utf8(data),
    ensures
        class == DataClass::JsonArray,
{
    reveal(is_kind_of);
    reveal(measures);
    assert(data.skip(0) =~= data);
    valid_text_counts_its_characters(data, 0);
}

/// Of other text, logs are told by the judge on adjacent lines and by literals of less
/// than 45 in a hundred bytes of the standard parse, and prose by literals of more than
/// 65 in a hundred and references of less than ten bytes on average. The rest is
/// semi-structured.
pub proof fn other_text_is_told_by_its_parse(
    data: Seq<u8>,
    class: DataClass,
    lz: LzEncoder,
    answers: Answers,
)
    requires
        is_kind_of(data, class, answers),
        !is_compressed_format(data),
        !looks_like_json(data),
        valid_utf8(data),
        is_standard(lz),
        data.len() + 4 <= usize::MAX,
    ensures
        ({
            let ps = lz.parse(data);
            let log = line_overlaps(data).len() > 0 && (answers.alike)(line_overlaps(data))
                && literal_total(ps) * 100 < data.len() * 45;
            let prose = (data.len() == 0 || literal_total(ps) * 100 > data.len() * 65) && (
            match_spans(ps).len() == 0 || match_total(ps) < 10 * match_spans(ps).len());
            &&& log ==> class == DataClass::StructuredLog
            &&& !log && prose ==> class == DataClass::UnstructuredText
            &&& !log && !prose ==> class == DataClass::SemiStructured
        }),
{
    reveal(is_kind_of);
    reveal(measures);
    assert(data.skip(0) =~= data);
    valid_text_counts_its_characters(data, 0);
    parse_covers_the_input(&lz, data);
    let (x, m) = choose|lz: LzEncoder, m: ClassMetrics|
        is_standard(lz) && #[trigger] measures(m, data, lz.parse(data), data.len(), answers)
            && class == (if is_compressed_format(data) {
            DataClass::AlreadyCompressed
        } else {
            class_of(m, looks_like_json(data))
        });
    assert(x == lz);
}

} // verus!
