//! Telling kinds of data apart, and choosing how to compress each.

use std::collections::HashSet;
use vstd::prelude::*;
use crate::bytes::{le32_value, read_le32};
use crate::judge::{byte_counts, pairs_of, Answers, Judge};
use crate::lz::{
    literal_total, match_spans, match_total, parse_restores_the_input, pieces, LzAnalysis,
    LzEncoder, LzToken, Piece,
};
use crate::machine::MAX_OUTPUT_BYTES;
use crate::synth::draft::Draft;
use crate::synth::program::SynthProgram;
use crate::synth::rewrite::{parsed, PatternSynthesizer};
use crate::synth::scan::{looks_json, looks_like_json};
use crate::synth::token::capped;

verus! {

broadcast use vstd::std_specs::hash::group_hash_axioms;

/// Kinds of data.
#[derive(Debug, Clone, Copy, PartialEq, Eq, Structural)]
pub enum DataClass {
    /// Repetitive records or log lines.
    StructuredLog,
    /// JSON objects, one per line or in an array.
    JsonArray,
    /// Configuration, markup and the like.
    SemiStructured,
    /// Prose.
    UnstructuredText,
    /// Close to random bytes.
    Binary,
    /// A format that is compressed already.
    AlreadyCompressed,
}

/// `mark` stands at place `at`.
pub open spec fn has_mark(data: Seq<u8>, at: int, mark: Seq<u8>) -> bool {
    at + mark.len() <= data.len() && data.subrange(at, at + mark.len()) == mark
}

/// The data starts as a JPEG, PNG, MP4, ZIP, 7z, RAR, gzip, Ogg, FLAC, Git pack
/// or EXE file does.
pub open spec fn is_compressed_format(data: Seq<u8>) -> bool {
    ||| has_mark(data, 0, seq![0xFFu8, 0xD8, 0xFF])
    ||| has_mark(data, 0, seq![0x89u8, 0x50, 0x4E, 0x47, 0x0D, 0x0A, 0x1A, 0x0A])
    ||| has_mark(data, 4, seq![0x66u8, 0x74, 0x79, 0x70])
    ||| has_mark(data, 0, seq![0x50u8, 0x4B, 0x03, 0x04])
    ||| has_mark(data, 0, seq![0x37u8, 0x7A, 0xBC, 0xAF, 0x27, 0x1C])
    ||| has_mark(data, 0, seq![0x52u8, 0x61, 0x72, 0x21, 0x1A, 0x07])
    ||| has_mark(data, 0, seq![0x1Fu8, 0x8B])
    ||| has_mark(data, 0, seq![0x4Fu8, 0x67, 0x67, 0x53])
    ||| has_mark(data, 0, seq![0x66u8, 0x4C, 0x61, 0x43])
    ||| has_mark(data, 0, seq![0x50u8, 0x41, 0x43, 0x4B])
    ||| has_mark(data, 0, seq![0x4Du8, 0x5A])
}

fn marked(data: &[u8], at: usize, mark: &[u8]) -> (r: bool)
    requires
        at <= 4,
    ensures
        r == has_mark(data@, at as int, mark@),
{
    if data.len() < at || data.len() - at < mark.len() {
        return false;
    }
    crate::bytes::same(&data[at..at + mark.len()], mark)
}

/// Returns whether the data starts as a compressed format does. The first twelve
/// bytes decide.
pub fn is_already_compressed(data: &[u8]) -> (r: bool)
    ensures
        r == is_compressed_format(data@),
{
    let jpeg: [u8; 3] = [0xFF, 0xD8, 0xFF];
    let png: [u8; 8] = [0x89, 0x50, 0x4E, 0x47, 0x0D, 0x0A, 0x1A, 0x0A];
    let mp4: [u8; 4] = [0x66, 0x74, 0x79, 0x70];
    let zip: [u8; 4] = [0x50, 0x4B, 0x03, 0x04];
    let seven: [u8; 6] = [0x37, 0x7A, 0xBC, 0xAF, 0x27, 0x1C];
    let rar: [u8; 6] = [0x52, 0x61, 0x72, 0x21, 0x1A, 0x07];
    let gzip: [u8; 2] = [0x1F, 0x8B];
    let ogg: [u8; 4] = [0x4F, 0x67, 0x67, 0x53];
    let flac: [u8; 4] = [0x66, 0x4C, 0x61, 0x43];
    let pack: [u8; 4] = [0x50, 0x41, 0x43, 0x4B];
    let exe: [u8; 2] = [0x4D, 0x5A];
    proof {
        assert(jpeg@ =~= seq![0xFFu8, 0xD8, 0xFF]);
        assert(png@ =~= seq![0x89u8, 0x50, 0x4E, 0x47, 0x0D, 0x0A, 0x1A, 0x0A]);
        assert(mp4@ =~= seq![0x66u8, 0x74, 0x79, 0x70]);
        assert(zip@ =~= seq![0x50u8, 0x4B, 0x03, 0x04]);
        assert(seven@ =~= seq![0x37u8, 0x7A, 0xBC, 0xAF, 0x27, 0x1C]);
        assert(rar@ =~= seq![0x52u8, 0x61, 0x72, 0x21, 0x1A, 0x07]);
        assert(gzip@ =~= seq![0x1Fu8, 0x8B]);
        assert(ogg@ =~= seq![0x4Fu8, 0x67, 0x67, 0x53]);
        assert(flac@ =~= seq![0x66u8, 0x4C, 0x61, 0x43]);
        assert(pack@ =~= seq![0x50u8, 0x41, 0x43, 0x4B]);
        assert(exe@ =~= seq![0x4Du8, 0x5A]);
    }
    marked(data, 0, jpeg.as_slice()) || marked(data, 0, png.as_slice()) || marked(
        data,
        4,
        mp4.as_slice(),
    ) || marked(data, 0, zip.as_slice()) || marked(data, 0, seven.as_slice()) || marked(
        data,
        0,
        rar.as_slice(),
    ) || marked(data, 0, gzip.as_slice()) || marked(data, 0, ogg.as_slice()) || marked(
        data,
        0,
        flac.as_slice(),
    ) || marked(data, 0, pack.as_slice()) || marked(data, 0, exe.as_slice())
}

/// What is measured of the data and its parse.
#[derive(Debug, Clone, Copy)]
pub struct ClassMetrics {
    /// Bytes of the input, and how many of them stand in literals.
    pub input_len: usize,
    pub literal_bytes: usize,
    /// Back references, and how many bytes they cover together.
    pub match_count: usize,
    pub match_bytes: usize,
    /// Characters of the data, and how many of them are valid UTF-8.
    pub utf8_total: usize,
    pub utf8_valid: usize,
    /// Whether adjacent lines are alike.
    pub lines_alike: bool,
    /// Whether the bytes are close to random.
    pub near_random: bool,
}

impl ClassMetrics {
    /// Fewer than seven in ten characters are valid UTF-8.
    pub open spec fn is_not_text(self) -> bool {
        10 * self.utf8_valid < 7 * self.utf8_total
    }

    /// More than 85 in a hundred characters are valid UTF-8.
    pub open spec fn is_text(self) -> bool {
        self.utf8_total == 0 || 20 * self.utf8_valid > 17 * self.utf8_total
    }

    /// Literals hold less than 45 in a hundred bytes.
    pub open spec fn has_few_literals(self) -> bool {
        20 * self.literal_bytes < 9 * self.input_len
    }

    /// Literals hold more than 65 in a hundred bytes.
    pub open spec fn has_many_literals(self) -> bool {
        self.input_len == 0 || 20 * self.literal_bytes > 13 * self.input_len
    }

    /// Back references cover less than ten bytes on average.
    pub open spec fn has_short_matches(self) -> bool {
        self.match_count == 0 || self.match_bytes < 10 * self.match_count
    }
}

/// The kind of data with these metrics, which starts like JSON or not.
pub open spec fn class_of(m: ClassMetrics, json: bool) -> DataClass {
    if m.near_random && m.is_not_text() {
        DataClass::Binary
    } else if json && m.is_text() {
        DataClass::JsonArray
    } else if m.lines_alike && m.has_few_literals() {
        DataClass::StructuredLog
    } else if m.has_many_literals() && m.has_short_matches() {
        DataClass::UnstructuredText
    } else {
        DataClass::SemiStructured
    }
}

/// Returns the kind of data with these metrics.
pub fn classify(metrics: &ClassMetrics) -> (class: DataClass)
    ensures
        class == class_of(*metrics, false),
{
    classify_from_metrics(metrics, false)
}

/// Returns the kind of the data, which has these metrics. Formats that are
/// compressed already come first.
pub fn classify_with_data(metrics: &ClassMetrics, data: &[u8]) -> (class: DataClass)
    ensures
        class == (if is_compressed_format(data@) {
            DataClass::AlreadyCompressed
        } else {
            class_of(*metrics, looks_like_json(data@))
        }),
{
    if is_already_compressed(data) {
        return DataClass::AlreadyCompressed;
    }
    classify_from_metrics(metrics, looks_json(data))
}

fn classify_from_metrics(m: &ClassMetrics, json: bool) -> (class: DataClass)
    ensures
        class == class_of(*m, json),
{
    if m.near_random && 10 * (m.utf8_valid as u128) < 7 * (m.utf8_total as u128) {
        return DataClass::Binary;
    }
    if json && (m.utf8_total == 0 || 20 * (m.utf8_valid as u128) > 17 * (m.utf8_total as u128)) {
        return DataClass::JsonArray;
    }
    if m.lines_alike && 20 * (m.literal_bytes as u128) < 9 * (m.input_len as u128) {
        return DataClass::StructuredLog;
    }
    if (m.input_len == 0 || 20 * (m.literal_bytes as u128) > 13 * (m.input_len as u128)) && (
    m.match_count == 0 || (m.match_bytes as u128) < 10 * (m.match_count as u128)) {
        return DataClass::UnstructuredText;
    }
    DataClass::SemiStructured
}

/// How long the UTF-8 sequence is that a byte starts, or zero if it starts none.
pub open spec fn utf8_len(b: u8) -> nat {
    if b < 0x80 {
        1
    } else if 0xC2 <= b <= 0xDF {
        2
    } else if 0xE0 <= b <= 0xEF {
        3
    } else if 0xF0 <= b <= 0xF4 {
        4
    } else {
        0
    }
}

/// A complete sequence starts at `i`: its first byte and as many continuation
/// bytes as that asks for.
pub open spec fn utf8_at(data: Seq<u8>, i: int) -> bool {
    &&& utf8_len(data[i]) > 0
    &&& i + utf8_len(data[i]) <= data.len()
    &&& forall|j: int|
        i < j < i + utf8_len(data[i]) ==> 0x80 <= #[trigger] data[j] <= 0xBF
}

/// The characters from `i` on, and how many of them are valid. What is not valid
/// counts byte by byte.
pub open spec fn utf8_tally(data: Seq<u8>, i: int) -> (nat, nat)
    decreases data.len() - i,
{
    if i < 0 || i >= data.len() {
        (0, 0)
    } else if utf8_at(data, i) {
        let rest = utf8_tally(data, i + utf8_len(data[i]));
        (rest.0 + 1, rest.1 + 1)
    } else {
        let rest = utf8_tally(data, i + 1);
        (rest.0, rest.1 + 1)
    }
}

/// Returns how many characters are valid UTF-8, and how many there are.
pub fn utf8_counts(data: &[u8]) -> (r: (usize, usize))
    ensures
        (r.0 as nat, r.1 as nat) == utf8_tally(data@, 0),
{
    let mut valid: usize = 0;
    let mut total: usize = 0;
    let mut i: usize = 0;
    while i < data.len()
        invariant
            i <= data@.len(),
            valid <= i,
            total <= i,
            valid + utf8_tally(data@, i as int).0 == utf8_tally(data@, 0).0,
            total + utf8_tally(data@, i as int).1 == utf8_tally(data@, 0).1,
        decreases data@.len() - i,
    {
        let b: u8 = data[i];
        let len: usize = if b < 0x80 {
            1
        } else if b >= 0xC2 && b <= 0xDF {
            2
        } else if b >= 0xE0 && b <= 0xEF {
            3
        } else if b >= 0xF0 && b <= 0xF4 {
            4
        } else {
            0
        };
        let mut good: bool = len > 0 && len <= data.len() - i;
        if good {
            let mut j: usize = 1;
            while j < len
                invariant
                    1 <= j <= len,
                    i + len <= data.len(),
                    good == (forall|k: int| i < k < i + j ==> 0x80 <= #[trigger] data@[k] <= 0xBF),
                decreases len - j,
            {
                if data[i + j] < 0x80 || data[i + j] > 0xBF {
                    good = false;
                }
                j = j + 1;
            }
        }
        assert(good == utf8_at(data@, i as int));
        total = total + 1;
        if good {
            valid = valid + 1;
            i = i + len;
        } else {
            i = i + 1;
        }
    }
    (valid, total)
}

/// The line from `from` to `to`, if it has at least four bytes.
pub open spec fn long_line(data: Seq<u8>, from: int, to: int) -> Seq<Seq<u8>> {
    if to - from >= 4 {
        seq![data.subrange(from, to)]
    } else {
        Seq::empty()
    }
}

/// The lines of at least four bytes, going on at `i` in a line that starts at
/// `from`.
pub open spec fn long_lines(data: Seq<u8>, from: int, i: int) -> Seq<Seq<u8>>
    decreases data.len() - i,
{
    if i < 0 || i >= data.len() {
        long_line(data, from, data.len() as int)
    } else if data[i] == 10 {
        long_line(data, from, i) + long_lines(data, i + 1, i + 1)
    } else {
        long_lines(data, from, i + 1)
    }
}

/// The substrings of four bytes, each as a number.
pub open spec fn grams(s: Seq<u8>) -> Set<u32> {
    Set::new(
        |g: u32|
            exists|p: int|
                0 <= p && p + 4 <= s.len() && g == le32_value(#[trigger] s.subrange(p, p + 4)),
    )
}

/// How many substrings of four bytes two lines have in common, and how many
/// different ones they have together.
pub open spec fn overlap(a: Seq<u8>, b: Seq<u8>) -> (nat, nat) {
    (grams(a).intersect(grams(b)).len(), grams(a).union(grams(b)).len())
}

/// Collects the substrings of four bytes.
fn collect_grams(s: &[u8]) -> (set: HashSet<u32>)
    ensures
        set@ == grams(s@),
{
    let mut set: HashSet<u32> = HashSet::new();
    let mut p: usize = 0;
    while p <= s.len() && s.len() - p >= 4
        invariant
            p <= s@.len(),
            forall|g: u32| #[trigger]
                set@.contains(g) <==> exists|q: int|
                    0 <= q < p && q + 4 <= s@.len() && g == le32_value(
                        #[trigger] s@.subrange(q, q + 4),
                    ),
        decreases s.len() - p,
    {
        let ghost before = set@;
        let g: u32 = read_le32(s, p);
        set.insert(g);
        assert forall|x: u32| #[trigger] set@.contains(x) <==> exists|q: int|
            0 <= q < p + 1 && q + 4 <= s@.len() && x == le32_value(
                #[trigger] s@.subrange(q, q + 4),
            ) by {
            if x == g {
                assert(x == le32_value(s@.subrange(p as int, p + 4)));
            } else {
                assert(set@.contains(x) <==> before.contains(x));
                if before.contains(x) {
                    let q = choose|q: int|
                        0 <= q < p && q + 4 <= s@.len() && x == le32_value(
                            #[trigger] s@.subrange(q, q + 4),
                        );
                    assert(x == le32_value(s@.subrange(q, q + 4)));
                }
            }
        }
        p = p + 1;
    }
    proof {
        assert forall|g: u32| #[trigger] set@.contains(g) <==> grams(s@).contains(g) by {
            if grams(s@).contains(g) {
                let q = choose|q: int|
                    0 <= q && q + 4 <= s@.len() && g == le32_value(
                        #[trigger] s@.subrange(q, q + 4),
                    );
                assert(q < p);
                assert(g == le32_value(s@.subrange(q, q + 4)));
            }
        }
        assert(set@ =~= grams(s@));
    }
    set
}

/// Returns how many substrings of four bytes two lines have in common, and how
/// many different ones they have together.
pub fn gram_overlap(a: &[u8], b: &[u8]) -> (r: (usize, usize))
    ensures
        (r.0 as nat, r.1 as nat) == overlap(a@, b@),
{
    let sa: HashSet<u32> = collect_grams(a);
    let sb: HashSet<u32> = collect_grams(b);
    let mut both: HashSet<u32> = HashSet::new();
    let mut all: HashSet<u32> = collect_grams(b);
    let mut p: usize = 0;
    while p <= a.len() && a.len() - p >= 4
        invariant
            p <= a@.len(),
            sa@ == grams(a@),
            sb@ == grams(b@),
            forall|g: u32| #[trigger] both@.contains(g) ==> sa@.contains(g) && sb@.contains(g),
            forall|g: u32| #[trigger] all@.contains(g) ==> sa@.contains(g) || sb@.contains(g),
            forall|g: u32| #[trigger] sb@.contains(g) ==> all@.contains(g),
            forall|q: int|
                0 <= q < p && q + 4 <= a@.len() ==> {
                    let g = le32_value(#[trigger] a@.subrange(q, q + 4)) as u32;
                    all@.contains(g) && (sb@.contains(g) ==> both@.contains(g))
                },
        decreases a.len() - p,
    {
        let g: u32 = read_le32(a, p);
        assert(sa@.contains(g)) by {
            assert(g == le32_value(a@.subrange(p as int, p + 4)));
        }
        if sb.contains(&g) {
            both.insert(g);
        }
        all.insert(g);
        p = p + 1;
    }
    proof {
        assert forall|g: u32| sa@.contains(g) implies all@.contains(g) && (sb@.contains(g)
            ==> both@.contains(g)) by {
            let q = choose|q: int|
                0 <= q && q + 4 <= a@.len() && g == le32_value(#[trigger] a@.subrange(q, q + 4));
            assert(q < p);
        }
        assert(both@ =~= grams(a@).intersect(grams(b@)));
        assert(all@ =~= grams(a@).union(grams(b@)));
    }
    (both.len(), all.len())
}

/// The overlaps of adjacent lines.
pub open spec fn line_overlaps(data: Seq<u8>) -> Seq<(nat, nat)> {
    let lines = long_lines(data, 0, 0);
    Seq::new(
        if lines.len() == 0 {
            0
        } else {
            (lines.len() - 1) as nat
        },
        |k: int| overlap(lines[k], lines[k + 1]),
    )
}

/// Returns where the lines of at least four bytes stand.
fn find_long_lines(data: &[u8]) -> (spans: Vec<(usize, usize)>)
    ensures
        spans@.len() == long_lines(data@, 0, 0).len(),
        forall|k: int|
            0 <= k < spans@.len() ==> (#[trigger] spans@[k]).0 <= spans@[k].1 <= data@.len()
                && long_lines(data@, 0, 0)[k] == data@.subrange(
                spans@[k].0 as int,
                spans@[k].1 as int,
            ),
{
    let ghost all = long_lines(data@, 0, 0);
    let mut spans: Vec<(usize, usize)> = Vec::new();
    let ghost mut found: Seq<Seq<u8>> = Seq::empty();
    let mut from: usize = 0;
    let mut i: usize = 0;
    assert(found + all =~= all);
    while i < data.len()
        invariant
            from <= i <= data@.len(),
            all == long_lines(data@, 0, 0),
            found + long_lines(data@, from as int, i as int) == all,
            spans@.len() == found.len(),
            forall|k: int|
                0 <= k < spans@.len() ==> (#[trigger] spans@[k]).0 <= spans@[k].1 <= data@.len()
                    && found[k] == data@.subrange(spans@[k].0 as int, spans@[k].1 as int),
        decreases data.len() - i,
    {
        if data[i] == 10 {
            let ghost rest = long_lines(data@, i + 1, i + 1);
            let ghost before = found;
            if i - from >= 4 {
                spans.push((from, i));
                proof {
                    found = found.push(data@.subrange(from as int, i as int));
                }
            }
            assert(before + (long_line(data@, from as int, i as int) + rest) =~= found + rest);
            from = i + 1;
        }
        i = i + 1;
    }
    if data.len() - from >= 4 {
        spans.push((from, data.len()));
        proof {
            found = found.push(data@.subrange(from as int, data@.len() as int));
        }
    }
    assert(found =~= all);
    spans
}

/// Returns the overlaps of adjacent lines.
pub fn adjacent_overlaps(data: &[u8]) -> (out: Vec<(usize, usize)>)
    ensures
        pairs_of(out@) == line_overlaps(data@),
{
    let spans: Vec<(usize, usize)> = find_long_lines(data);
    let ghost lines = long_lines(data@, 0, 0);
    let ghost goal = line_overlaps(data@);
    let mut out: Vec<(usize, usize)> = Vec::new();
    if spans.len() > 0 {
        let mut k: usize = 0;
        while k < spans.len() - 1
            invariant
                spans@.len() > 0,
                k <= spans@.len() - 1,
                lines == long_lines(data@, 0, 0),
                goal == line_overlaps(data@),
                spans@.len() == lines.len(),
                forall|k: int|
                    0 <= k < spans@.len() ==> (#[trigger] spans@[k]).0 <= spans@[k].1
                        <= data@.len() && lines[k] == data@.subrange(
                        spans@[k].0 as int,
                        spans@[k].1 as int,
                    ),
                out@.len() == k,
                forall|j: int|
                    0 <= j < k ==> ((#[trigger] out@[j]).0 as nat, out@[j].1 as nat) == goal[j],
            decreases spans.len() - k,
        {
            let (a0, a1) = spans[k];
            let (b0, b1) = spans[k + 1];
            assert(spans@[k as int].1 <= data.len());
            assert(spans@[k + 1].1 <= data.len());
            out.push(gram_overlap(&data[a0..a1], &data[b0..b1]));
            k = k + 1;
        }
    }
    assert(pairs_of(out@) =~= goal);
    out
}

/// The metrics are those of the data and its parse, with these answers. Data with
/// fewer than two long lines has none alike.
#[verifier::opaque]
pub open spec fn measures(
    m: ClassMetrics,
    data: Seq<u8>,
    ps: Seq<Piece>,
    input_len: nat,
    answers: Answers,
) -> bool {
    &&& m.input_len == input_len
    &&& m.literal_bytes == capped(literal_total(ps))
    &&& m.match_count == match_spans(ps).len()
    &&& m.match_bytes == capped(match_total(ps))
    &&& (m.utf8_valid as nat, m.utf8_total as nat) == utf8_tally(data, 0)
    &&& m.near_random == answers.is_random(data)
    &&& m.lines_alike == (line_overlaps(data).len() > 0 && (answers.alike)(line_overlaps(data)))
}

/// Returns how many bytes the back references cover together, or `usize::MAX`
/// if that is more than a `usize` can say.
fn sum_matches(a: &LzAnalysis) -> (n: usize)
    ensures
        n == capped(match_total(a.pieces())),
{
    let mut n: usize = 0;
    let mut i: usize = 0;
    while i < a.tokens.len()
        invariant
            i <= a.tokens@.len(),
            n == capped(match_total(a.pieces().take(i as int))),
        decreases a.tokens.len() - i,
    {
        assert(a.pieces().take(i + 1).drop_last() =~= a.pieces().take(i as int));
        if let LzToken::Match { length, .. } = &a.tokens[i] {
            n = n.saturating_add(*length);
        }
        i = i + 1;
    }
    assert(a.pieces().take(i as int) =~= a.pieces());
    n
}

impl ClassMetrics {
    /// Measures the data and its parse. `judge` answers what takes real numbers.
    pub fn compute<J: Judge>(data: &[u8], analysis: &LzAnalysis, judge: &J) -> (m: ClassMetrics)
        ensures
            measures(m, data@, analysis.pieces(), analysis.input_len as nat, judge.answers()),
    {
        reveal(measures);
        let (utf8_valid, utf8_total) = utf8_counts(data);
        let overlaps: Vec<(usize, usize)> = adjacent_overlaps(data);
        let lines_alike: bool = if overlaps.len() == 0 {
            false
        } else {
            judge.lines_alike(&overlaps)
        };
        let near_random: bool = if data.len() == 0 {
            false
        } else {
            judge.near_random(&byte_counts(data), data.len())
        };
        ClassMetrics {
            input_len: analysis.input_len,
            literal_bytes: analysis.literal_bytes(),
            match_count: analysis.match_count(),
            match_bytes: sum_matches(analysis),
            utf8_total,
            utf8_valid,
            lines_alike,
            near_random,
        }
    }
}

/// How data of a kind is synthesized: all rewritings for structured data,
/// differences only for prose, and none for data that is random or compressed.
pub open spec fn synthesis_for(class: DataClass) -> Option<(bool, bool, bool, bool)> {
    match class {
        DataClass::StructuredLog => Some((true, true, true, true)),
        DataClass::JsonArray => Some((true, true, true, true)),
        DataClass::SemiStructured => Some((true, true, true, true)),
        DataClass::UnstructuredText => Some((false, false, true, false)),
        DataClass::Binary => None,
        DataClass::AlreadyCompressed => None,
    }
}

/// Returns the synthesizer for data of a kind, or `None` where there is nothing
/// to synthesize.
pub fn synthesizer_for(class: DataClass) -> (r: Option<PatternSynthesizer>)
    ensures
        match synthesis_for(class) {
            Some((l, m, d, s)) => r matches Some(p) && p.enable_loop == l && p.enable_macro == m
                && p.enable_map == d && p.enable_scan == s,
            None => r is None,
        },
{
    match class {
        DataClass::StructuredLog | DataClass::JsonArray | DataClass::SemiStructured => Some(
            PatternSynthesizer::new(),
        ),
        DataClass::UnstructuredText => Some(
            PatternSynthesizer {
                enable_loop: false,
                enable_macro: false,
                enable_map: true,
                enable_scan: false,
            },
        ),
        DataClass::Binary | DataClass::AlreadyCompressed => None,
    }
}

/// The synthesizer has these settings.
pub open spec fn has_settings(p: PatternSynthesizer, s: (bool, bool, bool, bool)) -> bool {
    p.enable_loop == s.0 && p.enable_macro == s.1 && p.enable_map == s.2 && p.enable_scan == s.3
}

/// The program is what the synthesizer for the kind makes of the parse, or the
/// parse itself where there is none.
pub open spec fn is_scheduled(class: DataClass, a: Draft, b: Draft, answers: Answers) -> bool {
    match synthesis_for(class) {
        Some(s) => exists|p: PatternSynthesizer|
            has_settings(p, s) && #[trigger] p.is_result(a, b, answers),
        None => a == b,
    }
}

/// Compresses by kind: parse, tell the kind, synthesize.
pub struct AdaptiveScheduler {
    lz: LzEncoder,
}

/// The standard parse settings.
pub open spec fn is_standard(lz: LzEncoder) -> bool {
    &&& lz.window == crate::lz::WINDOW_SIZE
    &&& lz.min_match == crate::lz::MIN_MATCH
    &&& lz.max_match == crate::lz::MAX_MATCH
    &&& lz.max_chain == 64
}

/// What the scheduler makes of an input, with the sizes of the parse and of the
/// program.
pub struct CompressResult {
    pub data_class: DataClass,
    pub lz_len: usize,
    pub synth_len: usize,
    pub program: SynthProgram,
    pub metrics: ClassMetrics,
}

impl Default for AdaptiveScheduler {
    fn default() -> (s: AdaptiveScheduler)
        ensures
            is_standard(s.encoder()),
    {
        AdaptiveScheduler { lz: LzEncoder::new() }
    }
}

impl AdaptiveScheduler {
    #[verifier::type_invariant]
    closed spec fn inv(self) -> bool {
        is_standard(self.lz)
    }

    /// The parse settings.
    pub closed spec fn encoder(&self) -> LzEncoder {
        self.lz
    }

    /// Returns a scheduler with the standard parse settings.
    pub fn new() -> (s: AdaptiveScheduler)
        ensures
            is_standard(s.encoder()),
    {
        AdaptiveScheduler::default()
    }

    /// Compresses `data` into a program, and returns it with the kind of data.
    pub fn compress<J: Judge>(&self, data: &[u8], judge: &J) -> (r: (SynthProgram, DataClass))
        requires
            data@.len() + 4 <= usize::MAX,
        ensures
            is_standard(self.encoder()),
            data@.len() <= MAX_OUTPUT_BYTES ==> r.0.restores(data@),
            r.0.ids_ok(),
            r.0.input_len == data@.len(),
            r.0.consensus@ == vstd::map::Map::<Seq<u8>, Seq<u8>>::empty(),
            is_scheduled(r.1, start_of(self.encoder(), data@), r.0.draft(), judge.answers()),
            is_compressed_format(data@) ==> r.1 == DataClass::AlreadyCompressed,
            !is_compressed_format(data@) ==> exists|m: ClassMetrics| #[trigger]
                measures(m, data@, self.encoder().parse(data@), data@.len(), judge.answers()) && r.1
                    == class_of(m, looks_like_json(data@)),
    {
        proof {
            use_type_invariant(self);
        }
        let analysis: LzAnalysis = self.lz.analyze(data);
        let metrics: ClassMetrics = ClassMetrics::compute(data, &analysis, judge);
        let class: DataClass = classify_with_data(&metrics, data);
        let prog: SynthProgram = schedule(&self.lz, data, &analysis, class, judge);
        (prog, class)
    }

    /// Compresses `data` and reports the sizes and the metrics. Here the kind is
    /// told from the metrics alone.
    pub fn compress_verbose<J: Judge>(&self, data: &[u8], judge: &J) -> (r: CompressResult)
        requires
            data@.len() + 4 <= usize::MAX,
        ensures
            is_standard(self.encoder()),
            data@.len() <= MAX_OUTPUT_BYTES ==> r.program.restores(data@),
            r.program.ids_ok(),
            r.program.input_len == data@.len(),
            is_scheduled(
                r.data_class,
                start_of(self.encoder(), data@),
                r.program.draft(),
                judge.answers(),
            ),
            measures(
                r.metrics,
                data@,
                self.encoder().parse(data@),
                data@.len(),
                judge.answers(),
            ),
            r.data_class == class_of(r.metrics, false),
            r.lz_len == crate::tokens::toks_bytes(
                start_of(self.encoder(), data@).toks,
            ).len(),
            r.synth_len == capped(r.program.total_size()),
    {
        proof {
            use_type_invariant(self);
        }
        let analysis: LzAnalysis = self.lz.analyze(data);
        let metrics: ClassMetrics = ClassMetrics::compute(data, &analysis, judge);
        let class: DataClass = classify(&metrics);
        let lz_len: usize = analysis.to_program().len();
        let program: SynthProgram = schedule(&self.lz, data, &analysis, class, judge);
        let synth_len: usize = program.total_encoded_len();
        CompressResult { data_class: class, lz_len, synth_len, program, metrics }
    }
}

/// The program of the parse of an input.
pub open spec fn start_of(lz: LzEncoder, data: Seq<u8>) -> Draft {
    Draft {
        toks: crate::lz::piece_toks(lz.parse(data)),
        defs: vstd::map::Map::empty(),
        next: 0,
    }
}

/// Synthesizes the program of a parse as its kind asks for.
fn schedule<J: Judge>(
    lz: &LzEncoder,
    data: &[u8],
    analysis: &LzAnalysis,
    class: DataClass,
    judge: &J,
) -> (prog: SynthProgram)
    requires
        lz.suits(data@.len()),
        analysis.input_len == data@.len(),
        analysis.pieces() == lz.parse(data@),
    ensures
        prog.ids_ok(),
        prog.input_len == data@.len(),
        prog.consensus@ == vstd::map::Map::<Seq<u8>, Seq<u8>>::empty(),
        is_scheduled(class, start_of(*lz, data@), prog.draft(), judge.answers()),
        data@.len() <= MAX_OUTPUT_BYTES ==> prog.restores(data@),
{
    proof {
        assert(parsed(analysis) == start_of(*lz, data@));
        if data@.len() <= MAX_OUTPUT_BYTES {
            parse_restores_the_input(
                lz,
                data@,
                start_of(*lz, data@).env(vstd::map::Map::<Seq<u8>, Seq<u8>>::empty()),
            );
        }
    }
    match synthesizer_for(class) {
        Some(synth) => {
            let prog: SynthProgram = synth.synthesize(analysis, judge);
            assert(has_settings(synth, synthesis_for(class)->0));
            prog
        },
        None => {
            let prog: SynthProgram = SynthProgram::from_analysis(analysis);
            assert(prog.draft() == start_of(*lz, data@));
            prog
        },
    }
}

} // verus!
