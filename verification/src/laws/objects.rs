//! Lines with JSON objects become scans, and which bytes become which values.

use vstd::prelude::*;
use crate::laws::tables::{
    lemma_differs, lemma_ends_front, lemma_ends_none, lemma_part_is_no_longer, some_column_differs,
};
use crate::synth::delimited::{ends_of, lemma_line_ends, line, line_start};
use crate::synth::json::{
    alike, back_start, cells, front_end, gaps, is_longest_run, lemma_value_spans, line_gaps,
    nest_end, number_end, object_open, object_span, objects_at, objects_table, pairs_from, pairs_of,
    run_fires, skip_blank, string_end, value_end, value_spans, word_at, Pair,
};
use crate::synth::table::lit_or_nothing;
use crate::tokens::{size_is_exact, sizes_are_exact, tok_bytes, toks_bytes, Tok};

verus! {

/// From `i` on there is the rest of a string: a backslash takes the next byte with it,
/// and the first quote that is not taken so is the last byte.
pub open spec fn closes_string(f: Seq<u8>, i: int) -> bool
    decreases f.len() + 1 - i,
{
    if i < 0 || i >= f.len() {
        false
    } else if f[i] == 0x22 {
        i + 1 == f.len()
    } else if f[i] == 0x5C {
        closes_string(f, i + 2)
    } else {
        closes_string(f, i + 1)
    }
}

/// A string in quotes on one line.
pub open spec fn is_string(f: Seq<u8>) -> bool {
    &&& f.len() >= 2
    &&& f[0] == 0x22
    &&& closes_string(f, 1)
    &&& forall|i: int| 0 <= i < f.len() ==> #[trigger] f[i] != 0x0A
}

/// A number: it starts with a digit or a minus, and holds no comma, bracket, brace or
/// blank.
pub open spec fn is_number(f: Seq<u8>) -> bool {
    &&& f.len() >= 1
    &&& f[0] == 0x2D || 0x30 <= f[0] <= 0x39
    &&& forall|i: int|
        0 <= i < f.len() ==> #[trigger] f[i] != 0x2C && f[i] != 0x7D && f[i] != 0x5D && f[i] != 0x20
            && f[i] != 0x09 && f[i] != 0x0D && f[i] != 0x0A
}

/// How many more brackets are opened than closed among the first `n` bytes.
pub open spec fn brackets_open(f: Seq<u8>, open: u8, close: u8, n: int) -> int
    decreases n,
{
    if n <= 0 {
        0
    } else {
        brackets_open(f, open, close, n - 1) + if f[n - 1] == open {
            1int
        } else if f[n - 1] == close {
            -1int
        } else {
            0
        }
    }
}

/// A nested value without strings on one line: brackets are open from its first byte
/// to its last, which closes them.
pub open spec fn is_nested(f: Seq<u8>, open: u8, close: u8) -> bool {
    &&& f.len() >= 2
    &&& f[0] == open
    &&& forall|i: int| 0 <= i < f.len() ==> #[trigger] f[i] != 0x0A && f[i] != 0x22
    &&& forall|n: int| 0 < n < f.len() ==> #[trigger] brackets_open(f, open, close, n) >= 1
    &&& brackets_open(f, open, close, f.len() as int) == 0
}

/// A value: a string, a number, an array, an object, or one of the three words.
pub open spec fn is_value(f: Seq<u8>) -> bool {
    ||| is_string(f)
    ||| is_nested(f, 0x5B, 0x5D)
    ||| is_nested(f, 0x7B, 0x7D)
    ||| is_number(f)
    ||| f == seq![0x74u8, 0x72, 0x75, 0x65]
    ||| f == seq![0x66u8, 0x61, 0x6C, 0x73, 0x65]
    ||| f == seq![0x6Eu8, 0x75, 0x6C, 0x6C]
}

/// Spaces and tabs.
pub open spec fn is_space(f: Seq<u8>) -> bool {
    forall|i: int| 0 <= i < f.len() ==> #[trigger] f[i] == 0x20 || f[i] == 0x09
}

/// How objects are written: which keys they have, and what stands behind colons and
/// commas.
pub struct Shape {
    pub keys: Seq<Seq<u8>>,
    pub after_colon: Seq<u8>,
    pub after_comma: Seq<u8>,
}

impl Shape {
    /// Keys are strings, and what stands behind colons and commas is blank.
    pub open spec fn ok(self) -> bool {
        &&& self.keys.len() >= 1
        &&& forall|k: int| 0 <= k < self.keys.len() ==> is_string(#[trigger] self.keys[k])
        &&& is_space(self.after_colon)
        &&& is_space(self.after_comma)
    }

    /// What stands before value `k`: the brace or the comma, the key and the colon;
    /// behind the last value the brace and the line feed.
    pub open spec fn before(self, k: int) -> Seq<u8> {
        if k >= self.keys.len() {
            seq![0x7Du8, 0x0A]
        } else if k <= 0 {
            seq![0x7Bu8] + self.keys[0] + seq![0x3Au8] + self.after_colon
        } else {
            seq![0x2Cu8] + self.after_comma + self.keys[k] + seq![0x3Au8] + self.after_colon
        }
    }

    /// The line from what stands before value `k` on.
    pub open spec fn line_from(self, vals: Seq<Seq<u8>>, k: int) -> Seq<u8>
        decreases self.keys.len() - k,
    {
        if k < 0 || k >= self.keys.len() {
            self.before(self.keys.len() as int)
        } else {
            self.before(k) + vals[k] + self.line_from(vals, k + 1)
        }
    }

    /// A line with an object of these values.
    pub open spec fn line(self, vals: Seq<Seq<u8>>) -> Seq<u8> {
        self.line_from(vals, 0)
    }

    /// Lines with objects of these values.
    pub open spec fn text(self, rows: Seq<Seq<Seq<u8>>>) -> Seq<u8>
        decreases rows.len(),
    {
        if rows.len() == 0 {
            Seq::empty()
        } else {
            self.text(rows.drop_last()) + self.line(rows.last())
        }
    }

    /// Where value `k` starts.
    pub open spec fn start(self, vals: Seq<Seq<u8>>, k: int) -> int
        decreases k,
    {
        (if k <= 0 {
            0
        } else {
            self.start(vals, k - 1) + vals[k - 1].len()
        }) + self.before(k).len()
    }
}

/// `part` stands at `at`.
spec fn has(s: Seq<u8>, at: int, part: Seq<u8>) -> bool {
    0 <= at && at + part.len() <= s.len() && s.subrange(at, at + part.len()) == part
}

proof fn lemma_has_split(s: Seq<u8>, at: int, a: Seq<u8>, b: Seq<u8>)
    requires
        has(s, at, a + b),
    ensures
        has(s, at, a),
        has(s, at + a.len(), b),
{
    let whole = s.subrange(at, at + (a + b).len());
    assert(s.subrange(at, at + a.len()) =~= whole.subrange(0, a.len() as int));
    assert(whole.subrange(0, a.len() as int) =~= a);
    assert(s.subrange(at + a.len(), at + a.len() + b.len()) =~= whole.subrange(
        a.len() as int,
        (a + b).len() as int,
    ));
    assert(whole.subrange(a.len() as int, (a + b).len() as int) =~= b);
}

proof fn lemma_has_at(s: Seq<u8>, at: int, part: Seq<u8>, i: int)
    requires
        has(s, at, part),
        0 <= i < part.len(),
    ensures
        s[at + i] == part[i],
{
    assert(s.subrange(at, at + part.len())[i] == s[at + i]);
}

proof fn lemma_string_walk(s: Seq<u8>, at: int, f: Seq<u8>, i: int)
    requires
        has(s, at, f),
        0 <= i < f.len(),
        closes_string(f, i),
    ensures
        string_end(s, at + i) == Some(at + f.len()),
    decreases f.len() - i,
{
    lemma_has_at(s, at, f, i);
    if f[i] == 0x22 {
    } else if f[i] == 0x5C {
        assert(closes_string(f, i + 2));
        assert(i + 2 < f.len());
        lemma_string_walk(s, at, f, i + 2);
    } else {
        assert(closes_string(f, i + 1));
        assert(i + 1 < f.len());
        lemma_string_walk(s, at, f, i + 1);
    }
}

proof fn lemma_number_stops(s: Seq<u8>, at: int, f: Seq<u8>, i: int)
    requires
        has(s, at, f),
        is_number(f),
        0 <= i <= f.len(),
        at + f.len() == s.len() || {
            let b = s[at + f.len()];
            b == 0x2C || b == 0x7D || b == 0x5D || b == 0x20 || b == 0x09 || b == 0x0D || b == 0x0A
        },
    ensures
        number_end(s, at + i) == at + f.len(),
    decreases f.len() - i,
{
    if i < f.len() {
        lemma_has_at(s, at, f, i);
        assert(f[i] != 0x2C);
        lemma_number_stops(s, at, f, i + 1);
    }
}

proof fn lemma_nested_walk(s: Seq<u8>, at: int, f: Seq<u8>, open: u8, close: u8, n: int)
    requires
        has(s, at, f),
        is_nested(f, open, close),
        open != close,
        0 <= n < f.len(),
    ensures
        nest_end(
            s,
            at + n,
            open,
            close,
            brackets_open(f, open, close, n) as nat,
            false,
        ) == Some(at + f.len()),
    decreases f.len() - n,
{
    lemma_has_at(s, at, f, n);
    let here = brackets_open(f, open, close, n);
    let next = brackets_open(f, open, close, n + 1);
    assert(f[n] != 0x22);
    if n == 0 {
        assert(here == 0);
    }
    if n + 1 < f.len() {
        assert(next >= 1);
        lemma_nested_walk(s, at, f, open, close, n + 1);
    } else {
        assert(next == 0);
        assert(here >= 1 || n == 0);
    }
}

/// A value ends where it ends, if what follows a number ends it.
proof fn lemma_value(s: Seq<u8>, at: int, f: Seq<u8>)
    requires
        has(s, at, f),
        is_value(f),
        at + f.len() < s.len(),
        is_number(f) ==> ({
            let b = s[at + f.len()];
            b == 0x2C || b == 0x7D || b == 0x5D || b == 0x20 || b == 0x09 || b == 0x0D || b == 0x0A
        }),
    ensures
        f.len() >= 1,
        value_end(s, at) == Some(at + f.len()),
{
    if is_string(f) {
        lemma_has_at(s, at, f, 0);
        lemma_string_walk(s, at, f, 1);
    } else if is_nested(f, 0x5B, 0x5D) {
        lemma_has_at(s, at, f, 0);
        lemma_nested_walk(s, at, f, 0x5B, 0x5D, 0);
    } else if is_nested(f, 0x7B, 0x7D) {
        lemma_has_at(s, at, f, 0);
        lemma_nested_walk(s, at, f, 0x7B, 0x7D, 0);
    } else if is_number(f) {
        lemma_has_at(s, at, f, 0);
        lemma_number_stops(s, at, f, 0);
    } else {
        lemma_has_at(s, at, f, 0);
        assert(word_at(s, at, f));
    }
}

proof fn lemma_space(s: Seq<u8>, at: int, f: Seq<u8>, i: int, wide: bool)
    requires
        has(s, at, f),
        is_space(f),
        0 <= i <= f.len(),
        at + f.len() < s.len(),
        s[at + f.len()] != 0x20,
        s[at + f.len()] != 0x09,
        s[at + f.len()] != 0x0D,
        s[at + f.len()] != 0x0A,
    ensures
        skip_blank(s, at + i, wide) == at + f.len(),
    decreases f.len() - i,
{
    if i < f.len() {
        lemma_has_at(s, at, f, i);
        lemma_space(s, at, f, i + 1, wide);
    }
}

proof fn lemma_value_first(f: Seq<u8>)
    requires
        is_value(f),
    ensures
        f.len() >= 1,
        f[0] != 0x20 && f[0] != 0x09 && f[0] != 0x0D && f[0] != 0x0A,
        forall|i: int| 0 <= i < f.len() ==> #[trigger] f[i] != 0x0A,
{
}

/// What stands at the front of the line from value `k` on.
proof fn lemma_line_from(sh: Shape, vals: Seq<Seq<u8>>, k: int)
    requires
        sh.ok(),
        0 <= k <= sh.keys.len(),
    ensures
        ({
            let f = sh.line_from(vals, k);
            &&& f.len() >= 2
            &&& k == 0 ==> f[0] == 0x7B
            &&& 0 < k < sh.keys.len() ==> f[0] == 0x2C
            &&& k == sh.keys.len() ==> f[0] == 0x7D
        }),
{
    if k < sh.keys.len() {
        assert(is_string(sh.keys[k]));
        assert(is_string(sh.keys[0]));
        let f = sh.line_from(vals, k);
        assert(f[0] == sh.before(k)[0]);
    }
}

/// The pairs of an object from pair `k` on.
spec fn pairs_at(sh: Shape, vals: Seq<Seq<u8>>, k: int) -> Seq<(int, int)> {
    Seq::new(
        (sh.keys.len() - k) as nat,
        |j: int| (sh.start(vals, k + j), sh.start(vals, k + j) + vals[k + j].len()),
    )
}

/// Reading the pairs from pair `k` on finds their values.
#[verifier::rlimit(60)]
proof fn lemma_pairs(sh: Shape, vals: Seq<Seq<u8>>, s: Seq<u8>, k: int, at: int)
    requires
        sh.ok(),
        vals.len() == sh.keys.len(),
        forall|j: int| 0 <= j < vals.len() ==> is_value(#[trigger] vals[j]),
        0 <= k < sh.keys.len(),
        has(s.push(0x0A), at, sh.line_from(vals, k)),
        at + sh.line_from(vals, k).len() == s.len() + 1,
        at + sh.before(k).len() == sh.start(vals, k),
    ensures
        pairs_from(s, at + 1) matches Some(ps) && ps.len() == sh.keys.len() - k && forall|j: int|
            0 <= j < ps.len() ==> (#[trigger] ps[j]).from == sh.start(vals, k + j) && ps[j].to
                == sh.start(vals, k + j) + vals[k + j].len() && s.subrange(
                ps[j].key_from,
                ps[j].key_to,
            ) == sh.keys[k + j],
    decreases sh.keys.len() - k,
{
    let t = s.push(0x0A);
    let n = sh.keys.len();
    let (b, v, rest) = (sh.before(k), vals[k], sh.line_from(vals, k + 1));
    let key = sh.keys[k];
    assert(is_string(key));
    assert(is_value(v));
    lemma_value_first(v);
    lemma_line_from(sh, vals, k + 1);
    assert(sh.line_from(vals, k) == b + v + rest);
    lemma_has_split(t, at, b + v, rest);
    lemma_has_split(t, at, b, v);
    let from = at + b.len();
    let to = from + v.len();
    assert(from == sh.start(vals, k));
    assert(has(t, to, rest));
    lemma_has_at(t, to, rest, 0);
    assert(to < s.len());
    let blank = if k == 0 {
        Seq::<u8>::empty()
    } else {
        sh.after_comma
    };
    let open = b[0];
    assert(b =~= seq![open] + (blank + (key + (seq![0x3Au8] + sh.after_colon))));
    lemma_has_split(t, at, seq![open], blank + (key + (seq![0x3Au8] + sh.after_colon)));
    lemma_has_split(t, at + 1, blank, key + (seq![0x3Au8] + sh.after_colon));
    let kf = at + 1 + blank.len();
    lemma_has_split(t, kf, key, seq![0x3Au8] + sh.after_colon);
    let kt = kf + key.len();
    lemma_has_split(t, kt, seq![0x3Au8], sh.after_colon);
    lemma_has_at(t, kt, seq![0x3Au8], 0);
    lemma_has_at(t, kf, key, 0);
    assert(from == kt + 1 + sh.after_colon.len());
    // All of this stands before the line feed.
    assert(has(s, at + 1, blank)) by {
        assert(s.subrange(at + 1, kf) =~= t.subrange(at + 1, kf));
    }
    assert(has(s, kf, key)) by {
        assert(s.subrange(kf, kt) =~= t.subrange(kf, kt));
    }
    assert(has(s, kt + 1, sh.after_colon)) by {
        assert(s.subrange(kt + 1, from) =~= t.subrange(kt + 1, from));
    }
    assert(has(s, from, v)) by {
        assert(s.subrange(from, to) =~= t.subrange(from, to));
    }
    assert(s[kf] == 0x22 && s[kt] == 0x3A);
    lemma_has_at(s, from, v, 0);
    assert(s[to] == rest[0]);
    lemma_space(s, at + 1, blank, 0, true);
    lemma_string_walk(s, kf, key, 1);
    assert(skip_blank(s, kt, false) == kt);
    lemma_space(s, kt + 1, sh.after_colon, 0, false);
    lemma_value(s, from, v);
    assert(skip_blank(s, to, true) == to);
    let pair = Pair { key_from: kf, key_to: kt, from, to };
    if k + 1 < n {
        assert(s[to] == 0x2C);
        assert(sh.start(vals, k + 1) == sh.start(vals, k) + vals[k].len() + sh.before(
            k + 1,
        ).len());
        assert(to + rest.len() == s.len() + 1);
        lemma_pairs(sh, vals, s, k + 1, to);
        let more = pairs_from(s, to + 1)->0;
        let ps = seq![pair] + more;
        assert(pairs_from(s, at + 1) == Some(ps));
        assert forall|j: int| 0 <= j < ps.len() implies (#[trigger] ps[j]).from == sh.start(
            vals,
            k + j,
        ) && ps[j].to == sh.start(vals, k + j) + vals[k + j].len() && s.subrange(
            ps[j].key_from,
            ps[j].key_to,
        ) == sh.keys[k + j] by {
            if j > 0 {
                assert(ps[j] == more[j - 1]);
                assert(k + 1 + (j - 1) == k + j);
            }
        }
    } else {
        assert(s[to] == 0x7D);
        assert(pairs_from(s, at + 1) == Some(seq![pair]));
    }
}

proof fn lemma_start_total(sh: Shape, vals: Seq<Seq<u8>>, k: int)
    requires
        sh.ok(),
        vals.len() == sh.keys.len(),
        0 <= k <= sh.keys.len(),
    ensures
        sh.start(vals, k) - sh.before(k).len() + sh.line_from(vals, k).len() == sh.line(vals).len(),
        has(sh.line(vals), sh.start(vals, k) - sh.before(k).len(), sh.line_from(vals, k)),
        k < sh.keys.len() ==> has(sh.line(vals), sh.start(vals, k), vals[k]),
        has(sh.line(vals), sh.start(vals, k) - sh.before(k).len(), sh.before(k)),
    decreases k,
{
    let s = sh.line(vals);
    let at = sh.start(vals, k) - sh.before(k).len();
    if k == 0 {
        assert(s.subrange(0, s.len() as int) =~= s);
    } else {
        lemma_start_total(sh, vals, k - 1);
        let before = sh.start(vals, k - 1) - sh.before(k - 1).len();
        let (b, v, rest) = (sh.before(k - 1), vals[k - 1], sh.line_from(vals, k));
        assert(sh.line_from(vals, k - 1) == b + v + rest);
        lemma_has_split(s, before, b + v, rest);
        assert((b + v).len() == b.len() + v.len());
    }
    if k < sh.keys.len() {
        let (b, v, rest) = (sh.before(k), vals[k], sh.line_from(vals, k + 1));
        assert(sh.line_from(vals, k) == b + v + rest);
        lemma_has_split(s, at, b + v, rest);
        lemma_has_split(s, at, b, v);
    }
}

/// A line with an object is read as its values: each value is a cell, whatever stands
/// around it, and what stands around the values is made of the keys alone.
#[verifier::rlimit(60)]
pub proof fn lines_are_read_as_their_values(sh: Shape, vals: Seq<Seq<u8>>)
    requires
        sh.ok(),
        vals.len() == sh.keys.len(),
        forall|j: int| 0 <= j < vals.len() ==> is_value(#[trigger] vals[j]),
    ensures
        ({
            let s = sh.line(vals);
            &&& value_spans(s) is Some
            &&& cells(s, value_spans(s)->0) == vals
            &&& gaps(s, value_spans(s)->0) == Seq::new(
                sh.keys.len() + 1,
                |k: int| sh.before(k),
            )
            &&& object_open(s) == 1
        }),
{
    let s = sh.line(vals);
    let n = sh.keys.len() as int;
    lemma_start_total(sh, vals, n);
    lemma_start_total(sh, vals, 0);
    lemma_line_from(sh, vals, 0);
    assert(sh.line_from(vals, n) == sh.before(n));
    let e = s.len() - 1;
    lemma_has_at(s, s.len() - 2, sh.before(n), 0);
    lemma_has_at(s, s.len() - 2, sh.before(n), 1);
    assert(s[e - 1] == 0x7D && s[e] == 0x0A && s[0] == 0x7B);
    assert(front_end(s, 0) == 0);
    assert(back_start(s, s.len() as int) == back_start(s, e));
    assert(back_start(s, e) == e);
    assert(object_span(s) == Some((0int, e)));
    let obj = s.subrange(0, e);
    assert(obj.push(0x0A) =~= s);
    assert(obj[0] == 0x7B);
    assert(skip_blank(obj, 0, true) == 0);
    lemma_pairs(sh, vals, obj, 0, 0);
    let ps = pairs_from(obj, 1)->0;
    assert(pairs_of(obj) == Some(ps));
    let spans = value_spans(s)->0;
    assert(spans =~= ps.map_values(|p: Pair| (p.from + 0, p.to + 0)));
    assert forall|k: int| 0 <= k < n implies (#[trigger] spans[k]).0 == sh.start(vals, k)
        && spans[k].1 == sh.start(vals, k) + vals[k].len() by {
        assert(ps[k].from == sh.start(vals, 0 + k));
    }
    assert(cells(s, spans) =~= vals) by {
        assert forall|k: int| 0 <= k < n implies #[trigger] cells(s, spans)[k] == vals[k] by {
            lemma_start_total(sh, vals, k);
            assert(spans[k].0 == sh.start(vals, k));
        }
    }
    let around = gaps(s, spans);
    let want = Seq::new(sh.keys.len() + 1, |k: int| sh.before(k));
    assert forall|k: int| 0 <= k < n + 1 implies #[trigger] around[k] == want[k] by {
        lemma_start_total(sh, vals, k);
        if k > 0 {
            assert(spans[k - 1].0 == sh.start(vals, k - 1));
        }
        if k < n {
            assert(spans[k].0 == sh.start(vals, k));
        } else {
            assert(sh.start(vals, n) == s.len());
        }
    }
    assert(around =~= want);
}

/// Every row has a value for each key.
pub open spec fn are_objects(sh: Shape, rows: Seq<Seq<Seq<u8>>>) -> bool {
    forall|r: int|
        0 <= r < rows.len() ==> (#[trigger] rows[r]).len() == sh.keys.len() && forall|c: int|
            0 <= c < sh.keys.len() ==> is_value(#[trigger] rows[r][c])
}

proof fn lemma_no_feed(sh: Shape, vals: Seq<Seq<u8>>, k: int)
    requires
        sh.ok(),
        vals.len() == sh.keys.len(),
        forall|j: int| 0 <= j < vals.len() ==> is_value(#[trigger] vals[j]),
        0 <= k <= sh.keys.len(),
    ensures
        sh.line_from(vals, k).len() >= 2,
        sh.line_from(vals, k).last() == 0x0A,
        forall|i: int|
            0 <= i < sh.line_from(vals, k).len() - 1 ==> #[trigger] sh.line_from(vals, k)[i]
                != 0x0A,
    decreases sh.keys.len() - k,
{
    if k < sh.keys.len() {
        lemma_no_feed(sh, vals, k + 1);
        let (b, v, rest) = (sh.before(k), vals[k], sh.line_from(vals, k + 1));
        let f = sh.line_from(vals, k);
        assert(is_value(v));
        lemma_value_first(v);
        let key = sh.keys[k];
        assert(is_string(key));
        assert(is_string(sh.keys[0]));
        assert forall|i: int| 0 <= i < b.len() implies #[trigger] b[i] != 0x0A by {
            if k == 0 {
                let a = 1 + key.len();
                if 1 <= i < a {
                    assert(b[i] == key[i - 1]);
                } else if i > a {
                    assert(b[i] == sh.after_colon[i - a - 1]);
                }
            } else {
                let m = sh.after_comma.len();
                let a = 1 + m + key.len();
                if 1 <= i < 1 + m {
                    assert(b[i] == sh.after_comma[i - 1]);
                } else if 1 + m <= i < a {
                    assert(b[i] == key[i - 1 - m]);
                } else if i > a {
                    assert(b[i] == sh.after_colon[i - a - 1]);
                }
            }
        }
        assert forall|i: int| 0 <= i < f.len() - 1 implies #[trigger] f[i] != 0x0A by {
            if i < b.len() {
                assert(f[i] == b[i]);
            } else if i < b.len() + v.len() {
                assert(f[i] == v[i - b.len()]);
            } else {
                assert(f[i] == rest[i - b.len() - v.len()]);
            }
        }
    }
}

/// Where the lines of objects stand.
proof fn lemma_object_lines(sh: Shape, rows: Seq<Seq<Seq<u8>>>)
    requires
        sh.ok(),
        are_objects(sh, rows),
    ensures
        ({
            let s = sh.text(rows);
            &&& ends_of(s).len() == rows.len()
            &&& rows.len() > 0 ==> ends_of(s).last() == s.len()
            &&& forall|k: int| 0 <= k < rows.len() ==> #[trigger] line(s, k) == sh.line(rows[k])
        }),
    decreases rows.len(),
{
    let s = sh.text(rows);
    if rows.len() > 0 {
        let front = rows.drop_last();
        assert forall|r: int| 0 <= r < front.len() implies (#[trigger] front[r]).len()
            == sh.keys.len() && forall|c: int|
            0 <= c < sh.keys.len() ==> is_value(#[trigger] front[r][c]) by {
            assert(front[r] == rows[r]);
        }
        lemma_object_lines(sh, front);
        let t = sh.text(front);
        let row = rows.last();
        assert(rows[rows.len() - 1] == row);
        let more = sh.line(row);
        lemma_no_feed(sh, row, 0);
        let m = t.len();
        let n = (s.len() - 1) as nat;
        lemma_ends_front(t, more, m);
        assert forall|i: int| m <= i < n implies s[i] != 10 by {
            assert(s[i] == more[i - m]);
        }
        lemma_ends_none(s, m, n);
        assert(s[n as int] == more.last());
        assert(ends_of(s) == ends_of(t).push(s.len() as int));
        lemma_line_ends(t, t.len());
        let ends = ends_of(s);
        assert forall|k: int| 0 <= k < rows.len() implies #[trigger] line(s, k) == sh.line(
            rows[k],
        ) by {
            if k > 0 {
                assert(ends[k - 1] == ends_of(t)[k - 1]);
            }
            if k < front.len() {
                assert(ends[k] == ends_of(t)[k]);
                assert(line_start(s, k) == line_start(t, k));
                if k > 0 {
                    assert(ends_of(t)[k - 1] < ends_of(t)[k]);
                }
                assert(line(s, k) =~= line(t, k));
                assert(line(t, k) == sh.line(front[k]));
            } else {
                assert(line_start(s, k) == m);
                assert(line(s, k) =~= more);
            }
        }
    }
}

/// What stands around the values of every line.
spec fn all_before(sh: Shape) -> Seq<Seq<u8>> {
    Seq::new(sh.keys.len() + 1, |k: int| sh.before(k))
}

/// Every line is read as its values, and they are alike.
proof fn lemma_objects_alike(sh: Shape, rows: Seq<Seq<Seq<u8>>>)
    requires
        sh.ok(),
        are_objects(sh, rows),
        rows.len() >= 1,
    ensures
        objects_at(sh.text(rows), 0, rows.len() as int),
        objects_table(sh.text(rows), 0, rows.len() as int).rows == rows,
{
    let s = sh.text(rows);
    let n = rows.len() as int;
    lemma_object_lines(sh, rows);
    let want = all_before(sh);
    assert forall|k: int| 0 <= k < n implies #[trigger] line_gaps(s, k) == Some(want) && cells(
        line(s, k),
        value_spans(line(s, k))->0,
    ) == rows[k] by {
        assert(line(s, k) == sh.line(rows[k]));
        lines_are_read_as_their_values(sh, rows[k]);
        assert(want =~= Seq::new(sh.keys.len() + 1, |k: int| sh.before(k)));
    }
    assert(line_gaps(s, 0) == Some(want));
    assert(alike(s, 0, n));
    let g = objects_table(s, 0, n);
    assert forall|r: int| 0 <= r < n implies #[trigger] g.rows[r] == rows[r] by {
        assert(line_gaps(s, 0 + r) == Some(want));
    }
    assert(g.rows =~= rows);
}

/// What the table has around its fields.
proof fn lemma_objects_around(sh: Shape, rows: Seq<Seq<Seq<u8>>>)
    requires
        sh.ok(),
        are_objects(sh, rows),
        rows.len() >= 1,
    ensures
        ({
            let g = objects_table(sh.text(rows), 0, rows.len() as int);
            &&& g.width() == sh.keys.len()
            &&& g.lead.len() == 2
            &&& g.lead[0] + g.lead[1] == sh.before(0)
            &&& forall|c: int|
                0 <= c < g.between.len() ==> #[trigger] g.between[c] == sh.before(c + 1)
            &&& g.close == seq![0x7Du8, 0x0A]
        }),
{
    let s = sh.text(rows);
    let g = objects_table(s, 0, rows.len() as int);
    lemma_object_lines(sh, rows);
    let first = line(s, 0);
    let vals = rows[0];
    assert(first == sh.line(vals));
    lines_are_read_as_their_values(sh, vals);
    let spans = value_spans(first)->0;
    let want = all_before(sh);
    assert(gaps(first, spans) =~= want);
    assert(cells(first, spans).len() == vals.len());
    assert(spans.len() == sh.keys.len());
    assert(gaps(first, spans)[0] == want[0]);
    lemma_value_spans(first);
    assert(1 <= spans[0].0 < first.len());
    assert(g.lead[0] + g.lead[1] =~= first.subrange(0, spans[0].0));
    assert forall|c: int| 0 <= c < g.between.len() implies #[trigger] g.between[c] == sh.before(
        c + 1,
    ) by {
        assert(gaps(first, spans)[c + 1] == want[c + 1]);
    }
    assert(gaps(first, spans)[sh.keys.len() as int] == want[sh.keys.len() as int]);
}

/// Lines with objects of the same keys read as the table of their values.
pub proof fn objects_read_as_their_values(sh: Shape, rows: Seq<Seq<Seq<u8>>>)
    requires
        sh.ok(),
        are_objects(sh, rows),
        rows.len() >= 1,
    ensures
        ({
            let s = sh.text(rows);
            let n = rows.len() as int;
            let g = objects_table(s, 0, n);
            &&& objects_at(s, 0, n)
            &&& ends_of(s).len() == n
            &&& line_start(s, 0) == 0
            &&& line_start(s, n) == s.len()
            &&& g.rows == rows
            &&& g.width() == sh.keys.len()
            &&& g.lead.len() == 2
            &&& g.lead[0] + g.lead[1] == sh.before(0)
            &&& forall|c: int|
                0 <= c < g.between.len() ==> #[trigger] g.between[c] == sh.before(c + 1)
            &&& g.close == seq![0x7Du8, 0x0A]
        }),
{
    lemma_object_lines(sh, rows);
    lemma_objects_alike(sh, rows);
    lemma_objects_around(sh, rows);
}

/// Lines with JSON objects become a scan whatever their keys and values are: if there
/// are at least ten, they have the same keys in the same order, some value differs
/// between them, and the template and the scan, with four bytes for the template, are
/// shorter than the lines as a literal. They become none if one of these fails.
#[verifier::rlimit(60)]
pub proof fn lines_of_objects_become_a_scan(sh: Shape, rows: Seq<Seq<Seq<u8>>>, id: u32)
    requires
        sh.ok(),
        are_objects(sh, rows),
        rows.len() >= 1,
        tok_bytes(Tok::Lit { data: sh.text(rows) }).len() <= usize::MAX,
    ensures
        ({
            let s = sh.text(rows);
            let n = rows.len() as int;
            let g = objects_table(s, 0, n);
            run_fires(s, id, 0, n) <==> {
                &&& n >= 10
                &&& some_column_differs(rows, sh.keys.len())
                &&& toks_bytes(g.template()).len() + 4 + tok_bytes(g.scan(id)).len() < tok_bytes(
                    Tok::Lit { data: s },
                ).len()
            }
        }),
{
    let s = sh.text(rows);
    let n = rows.len() as int;
    let g = objects_table(s, 0, n);
    objects_read_as_their_values(sh, rows);
    lemma_differs(g);
    assert(is_longest_run(s, 0, n)) by {
        assert forall|a: int, l: int| #[trigger] objects_at(s, a, l) implies l < n || (l == n && a
            >= 0) by {}
    }
    sizes_are_exact(g.template());
    size_is_exact(g.scan(id));
    size_is_exact(Tok::Lit { data: s });
    assert(s.subrange(0, s.len() as int) =~= s);
    assert(s.take(0) =~= Seq::<u8>::empty());
    assert(s.skip(s.len() as int) =~= Seq::<u8>::empty());
    sizes_are_exact(Seq::<Tok>::empty());
    assert(toks_bytes(Seq::<Tok>::empty()).len() == 0);
}

/// Of any data those lines become a scan that are the longest run of lines that hold
/// objects with the same bytes around their values, and the first of that length: if
/// there are at least ten, some value differs, and both the lines and the whole get
/// shorter. Nothing else does.
#[verifier::rlimit(60)]
pub proof fn the_longest_run_of_objects_becomes_a_scan(data: Seq<u8>, id: u32, s: int, l: int)
    requires
        data.len() + 16 <= usize::MAX,
        0 <= s,
        1 <= l,
        s + l <= ends_of(data).len(),
        forall|k: int|
            s <= k < s + l ==> #[trigger] line_gaps(data, k) is Some && line_gaps(data, k)
                == line_gaps(data, s),
        forall|a: int, n: int|
            0 <= a && 1 <= n && a + n <= ends_of(data).len() && (n > l || (n == l && a < s))
                ==> #[trigger] lines_differ(data, a, n),
    ensures
        ({
            let g = objects_table(data, s, l);
            let (from, to) = (line_start(data, s), line_start(data, s + l));
            let cost = toks_bytes(g.template()).len() + 4 + tok_bytes(g.scan(id)).len();
            run_fires(data, id, s, l) <==> {
                &&& l >= 10
                &&& some_column_differs(g.rows, g.width())
                &&& cost < tok_bytes(Tok::Lit { data: data.subrange(from, to) }).len()
                &&& toks_bytes(lit_or_nothing(data.take(from))).len() + cost + toks_bytes(
                    lit_or_nothing(data.skip(to)),
                ).len() < tok_bytes(Tok::Lit { data }).len()
            }
        }),
{
    let g = objects_table(data, s, l);
    let (from, to) = (line_start(data, s), line_start(data, s + l));
    lemma_line_ends(data, data.len());
    assert(0 <= from <= to <= data.len()) by {
        if s > 0 {
            assert(ends_of(data)[s - 1] < ends_of(data)[s + l - 1]);
        }
        assert(ends_of(data)[s + l - 1] >= 1);
    }
    assert(objects_at(data, s, l));
    assert(is_longest_run(data, s, l)) by {
        assert forall|a: int, n: int| #[trigger] objects_at(data, a, n) implies n < l || (n == l
            && a >= s) by {
            if n > l || (n == l && a < s) {
                assert(lines_differ(data, a, n));
            }
        }
    }
    lemma_differs(g);
    sizes_are_exact(g.template());
    size_is_exact(g.scan(id));
    size_is_exact(Tok::Lit { data });
    size_is_exact(Tok::Lit { data: data.subrange(from, to) });
    sizes_are_exact(lit_or_nothing(data.take(from)));
    sizes_are_exact(lit_or_nothing(data.skip(to)));
    lemma_part_is_no_longer(data, from, to);
    lemma_part_is_no_longer(data, 0, data.len() as int);
    assert(data.subrange(0, data.len() as int) =~= data);
}

/// Some of the `n` lines from line `a` on hold no object, or one with other bytes
/// around its values.
pub open spec fn lines_differ(data: Seq<u8>, a: int, n: int) -> bool {
    exists|k: int|
        a <= k < a + n && (#[trigger] line_gaps(data, k) is None || line_gaps(data, k) != line_gaps(
            data,
            a,
        ))
}

/// Brackets, commas and blanks around the object of a line are no part of it.
pub proof fn objects_stand_between_brackets_and_commas(
    front: Seq<u8>,
    obj: Seq<u8>,
    back: Seq<u8>,
)
    requires
        forall|i: int|
            0 <= i < front.len() ==> {
                ||| #[trigger] front[i] == 0x5B
                ||| front[i] == 0x2C
                ||| front[i] == 0x20
                ||| front[i] == 0x09
                ||| front[i] == 0x0D
                ||| front[i] == 0x0A
            },
        forall|i: int|
            0 <= i < back.len() ==> {
                ||| #[trigger] back[i] == 0x5D
                ||| back[i] == 0x2C
                ||| back[i] == 0x20
                ||| back[i] == 0x09
                ||| back[i] == 0x0D
                ||| back[i] == 0x0A
            },
        obj.len() >= 2,
        obj[0] == 0x7B,
        obj.last() == 0x7D,
    ensures
        object_span(front + obj + back) == Some(
            (front.len() as int, (front.len() + obj.len()) as int),
        ),
{
    let s = front + obj + back;
    lemma_front_pads(s, front, 0);
    assert(s[front.len() as int] == obj[0]);
    let e = (front.len() + obj.len()) as int;
    assert(s[e - 1] == obj.last());
    lemma_back_pads(s, back, e, back.len() as int);
}

proof fn lemma_front_pads(s: Seq<u8>, front: Seq<u8>, i: int)
    requires
        0 <= i <= front.len() < s.len(),
        forall|i: int| 0 <= i < front.len() ==> #[trigger] s[i] == front[i],
        forall|i: int|
            0 <= i < front.len() ==> {
                ||| #[trigger] front[i] == 0x5B
                ||| front[i] == 0x2C
                ||| front[i] == 0x20
                ||| front[i] == 0x09
                ||| front[i] == 0x0D
                ||| front[i] == 0x0A
            },
        s[front.len() as int] == 0x7B,
    ensures
        front_end(s, i) == front.len(),
    decreases front.len() - i,
{
    if i < front.len() {
        assert(s[i] == front[i]);
        lemma_front_pads(s, front, i + 1);
    }
}

proof fn lemma_back_pads(s: Seq<u8>, back: Seq<u8>, e: int, n: int)
    requires
        0 < e,
        0 <= n <= back.len(),
        s.len() == e + back.len(),
        forall|i: int| 0 <= i < back.len() ==> s[e + i] == #[trigger] back[i],
        forall|i: int|
            0 <= i < back.len() ==> {
                ||| #[trigger] back[i] == 0x5D
                ||| back[i] == 0x2C
                ||| back[i] == 0x20
                ||| back[i] == 0x09
                ||| back[i] == 0x0D
                ||| back[i] == 0x0A
            },
        s[e - 1] == 0x7D,
    ensures
        back_start(s, e + n) == e,
    decreases n,
{
    if n > 0 {
        assert(s[e + (n - 1)] == back[n - 1]);
        lemma_back_pads(s, back, e, n - 1);
    }
}

/// A nested value ends with the bracket that closes it, however deep others nest in it
/// and whatever stands behind it.
pub proof fn nested_values_end_with_their_bracket(
    before: Seq<u8>,
    f: Seq<u8>,
    behind: Seq<u8>,
    open: u8,
    close: u8,
)
    requires
        open == 0x5B && close == 0x5D || open == 0x7B && close == 0x7D,
        is_nested(f, open, close),
    ensures
        value_end(before + f + behind, before.len() as int) == Some(
            (before.len() + f.len()) as int,
        ),
{
    let s = before + f + behind;
    let at = before.len() as int;
    assert(s.subrange(at, at + f.len()) =~= f);
    assert(s[at] == open);
    lemma_nested_walk(s, at, f, open, close, 0);
}

/// Brackets in strings do not count: a nested value goes on behind a string in it as if
/// the string were not there.
pub proof fn brackets_in_strings_do_not_count(
    before: Seq<u8>,
    f: Seq<u8>,
    behind: Seq<u8>,
    open: u8,
    close: u8,
    depth: nat,
)
    requires
        f.len() >= 2,
        f[0] == 0x22,
        closes_string(f, 1),
    ensures
        nest_end(before + f + behind, before.len() as int, open, close, depth, false) == nest_end(
            before + f + behind,
            (before.len() + f.len()) as int,
            open,
            close,
            depth,
            false,
        ),
{
    let s = before + f + behind;
    let at = before.len() as int;
    assert(s.subrange(at, at + f.len()) =~= f);
    assert(s[at] == 0x22);
    lemma_string_in_nest(s, at, f, 1, open, close, depth);
}

proof fn lemma_string_in_nest(
    s: Seq<u8>,
    at: int,
    f: Seq<u8>,
    i: int,
    open: u8,
    close: u8,
    depth: nat,
)
    requires
        has(s, at, f),
        0 <= i < f.len(),
        closes_string(f, i),
    ensures
        nest_end(s, at + i, open, close, depth, true) == nest_end(
            s,
            at + f.len(),
            open,
            close,
            depth,
            false,
        ),
    decreases f.len() - i,
{
    lemma_has_at(s, at, f, i);
    if f[i] == 0x22 {
    } else if f[i] == 0x5C {
        assert(closes_string(f, i + 2));
        assert(i + 2 < f.len());
        lemma_string_in_nest(s, at, f, i + 2, open, close, depth);
    } else {
        assert(closes_string(f, i + 1));
        assert(i + 1 < f.len());
        lemma_string_in_nest(s, at, f, i + 1, open, close, depth);
    }
}

/// An object is read as its pairs: as many as it has keys, each with its key, quotes
/// and all, and its value.
pub proof fn objects_are_read_as_their_pairs(sh: Shape, vals: Seq<Seq<u8>>)
    requires
        sh.ok(),
        vals.len() == sh.keys.len(),
        forall|j: int| 0 <= j < vals.len() ==> is_value(#[trigger] vals[j]),
    ensures
        ({
            let obj = sh.line(vals).drop_last();
            pairs_of(obj) matches Some(ps) && ps.len() == sh.keys.len() && forall|j: int|
                0 <= j < ps.len() ==> obj.subrange((#[trigger] ps[j]).key_from, ps[j].key_to)
                    == sh.keys[j] && obj.subrange(ps[j].from, ps[j].to) == vals[j]
        }),
{
    let s = sh.line(vals);
    let n = sh.keys.len() as int;
    lemma_start_total(sh, vals, n);
    lemma_start_total(sh, vals, 0);
    lemma_line_from(sh, vals, 0);
    assert(sh.line_from(vals, n) == sh.before(n));
    lemma_has_at(s, s.len() - 2, sh.before(n), 1);
    let obj = s.drop_last();
    assert(obj.push(0x0A) =~= s);
    assert(obj[0] == 0x7B);
    assert(skip_blank(obj, 0, true) == 0);
    lemma_pairs(sh, vals, obj, 0, 0);
    let ps = pairs_from(obj, 1)->0;
    assert forall|j: int| 0 <= j < ps.len() implies obj.subrange(
        (#[trigger] ps[j]).key_from,
        ps[j].key_to,
    ) == sh.keys[j] && obj.subrange(ps[j].from, ps[j].to) == vals[j] by {
        lemma_start_total(sh, vals, j);
        assert(ps[j].from == sh.start(vals, 0 + j));
        lemma_start_total(sh, vals, j + 1);
        assert(obj.subrange(ps[j].from, ps[j].to) =~= s.subrange(ps[j].from, ps[j].to));
    }
}

/// A string ends with the first quote that no backslash takes with it, whatever stands
/// behind it. One without such a quote does not end.
pub proof fn strings_end_with_their_quote(before: Seq<u8>, f: Seq<u8>, behind: Seq<u8>)
    requires
        f.len() >= 1,
        f[0] == 0x22,
    ensures
        closes_string(f, 1) ==> string_end(before + f + behind, before.len() as int + 1) == Some(
            (before.len() + f.len()) as int,
        ) && value_end(before + f + behind, before.len() as int) == Some(
            (before.len() + f.len()) as int,
        ),
        (forall|i: int| 1 <= i < f.len() ==> f[i] != 0x22) ==> string_end(
            before + f,
            before.len() as int + 1,
        ) is None,
{
    let s = before + f + behind;
    let at = before.len() as int;
    if closes_string(f, 1) {
        assert(s.subrange(at, at + f.len()) =~= f);
        assert(s[at] == 0x22);
        assert(1 < f.len());
        lemma_string_walk(s, at, f, 1);
    }
    if forall|i: int| 1 <= i < f.len() ==> f[i] != 0x22 {
        assert forall|i: int| at + 1 <= i < (before + f).len() implies (before + f)[i] != 0x22 by {
            assert((before + f)[i] == f[i - at]);
        }
        lemma_open_string(before + f, at + 1);
    }
}

proof fn lemma_open_string(s: Seq<u8>, i: int)
    requires
        0 <= i,
        forall|k: int| i <= k < s.len() ==> s[k] != 0x22,
    ensures
        string_end(s, i) is None,
    decreases s.len() + 1 - i,
{
    if i < s.len() {
        if s[i] == 0x5C {
            lemma_open_string(s, i + 2);
        } else {
            lemma_open_string(s, i + 1);
        }
    }
}

/// A number ends before a comma, a closing bracket or brace, a blank, or the end.
pub proof fn numbers_end_before_what_follows(before: Seq<u8>, f: Seq<u8>, behind: Seq<u8>)
    requires
        is_number(f),
        behind.len() == 0 || behind[0] == 0x2C || behind[0] == 0x7D || behind[0] == 0x5D
            || behind[0] == 0x20 || behind[0] == 0x09 || behind[0] == 0x0D || behind[0] == 0x0A,
    ensures
        value_end(before + f + behind, before.len() as int) == Some(
            (before.len() + f.len()) as int,
        ),
{
    let s = before + f + behind;
    let at = before.len() as int;
    assert(s.subrange(at, at + f.len()) =~= f);
    assert(s[at] == f[0]);
    if behind.len() > 0 {
        assert(s[at + f.len()] == behind[0]);
    }
    lemma_number_stops(s, at, f, 0);
}

/// Spaces, tabs and line breaks.
pub open spec fn is_blank_or_break(f: Seq<u8>) -> bool {
    forall|i: int|
        0 <= i < f.len() ==> #[trigger] f[i] == 0x20 || f[i] == 0x09 || f[i] == 0x0D || f[i] == 0x0A
}

proof fn lemma_breaks(s: Seq<u8>, at: int, f: Seq<u8>, i: int)
    requires
        has(s, at, f),
        is_blank_or_break(f),
        0 <= i <= f.len(),
        at + f.len() < s.len(),
        s[at + f.len()] != 0x20,
        s[at + f.len()] != 0x09,
        s[at + f.len()] != 0x0D,
        s[at + f.len()] != 0x0A,
    ensures
        skip_blank(s, at + i, true) == at + f.len(),
    decreases f.len() - i,
{
    if i < f.len() {
        lemma_has_at(s, at, f, i);
        assert(f[i] == 0x20 || f[i] == 0x09 || f[i] == 0x0D || f[i] == 0x0A);
        lemma_breaks(s, at, f, i + 1);
    }
}

/// How one pair is written: blanks and line breaks may stand around it, spaces and tabs
/// around its colon.
pub struct PairText {
    pub front: Seq<u8>,
    pub key: Seq<u8>,
    pub before_colon: Seq<u8>,
    pub after_colon: Seq<u8>,
    pub value: Seq<u8>,
    pub back: Seq<u8>,
}

impl PairText {
    /// The key is a string, the value a value, and blank is what should be.
    pub open spec fn ok(self) -> bool {
        &&& is_blank_or_break(self.front)
        &&& is_string(self.key)
        &&& is_space(self.before_colon)
        &&& is_space(self.after_colon)
        &&& is_value(self.value)
        &&& is_blank_or_break(self.back)
    }

    /// The bytes of the pair.
    pub open spec fn bytes(self) -> Seq<u8> {
        self.front + self.key + self.before_colon + seq![0x3Au8] + self.after_colon + self.value
            + self.back
    }

    /// Where the value starts when the pair stands at `at`.
    pub open spec fn value_from(self, at: int) -> int {
        at + self.front.len() + self.key.len() + self.before_colon.len() + 1
            + self.after_colon.len()
    }
}

/// A pair is read where it stands, whatever is blank around it. A brace behind it ends
/// the object, a comma has the pairs behind it follow, and anything else spoils the
/// object. An object whose brace comes at once has no pairs.
#[verifier::rlimit(60)]
pub proof fn pairs_are_read_between_blanks(before: Seq<u8>, p: PairText, behind: Seq<u8>)
    requires
        p.ok(),
        behind.len() >= 1,
        behind[0] != 0x20 && behind[0] != 0x09 && behind[0] != 0x0D && behind[0] != 0x0A,
        is_number(p.value) && p.back.len() == 0 ==> behind[0] == 0x2C || behind[0] == 0x7D,
    ensures
        ({
            let s = before + p.bytes() + behind;
            let at = before.len() as int;
            let pair = Pair {
                key_from: at + p.front.len(),
                key_to: at + p.front.len() + p.key.len(),
                from: p.value_from(at),
                to: p.value_from(at) + p.value.len(),
            };
            pairs_from(s, at) == (if behind[0] == 0x7D {
                Some(seq![pair])
            } else if behind[0] == 0x2C {
                match pairs_from(s, at + p.bytes().len() + 1) {
                    Some(more) => Some(seq![pair] + more),
                    None => None,
                }
            } else {
                None
            })
        }),
{
    let s = before + p.bytes() + behind;
    let at = before.len() as int;
    let kf = at + p.front.len();
    let kt = kf + p.key.len();
    let colon = kt + p.before_colon.len();
    let from = p.value_from(at);
    let to = from + p.value.len();
    let end = at + p.bytes().len();
    assert(has(s, at, p.bytes())) by {
        assert(s.subrange(at, end) =~= p.bytes());
    }
    let x1 = p.front + p.key;
    let x2 = x1 + p.before_colon;
    let x3 = x2 + seq![0x3Au8];
    let x4 = x3 + p.after_colon;
    let x5 = x4 + p.value;
    lemma_has_split(s, at, x5, p.back);
    lemma_has_split(s, at, x4, p.value);
    lemma_has_split(s, at, x3, p.after_colon);
    lemma_has_split(s, at, x2, seq![0x3Au8]);
    lemma_has_split(s, at, x1, p.before_colon);
    lemma_has_split(s, at, p.front, p.key);
    assert(s[end] == behind[0]);
    lemma_value_first(p.value);
    lemma_has_at(s, kf, p.key, 0);
    lemma_has_at(s, colon, seq![0x3Au8], 0);
    lemma_has_at(s, from, p.value, 0);
    lemma_breaks(s, at, p.front, 0);
    lemma_string_walk(s, kf, p.key, 1);
    lemma_space(s, kt, p.before_colon, 0, false);
    lemma_space(s, colon + 1, p.after_colon, 0, false);
    if p.back.len() > 0 {
        lemma_has_at(s, to, p.back, 0);
    }
    lemma_value(s, from, p.value);
    lemma_breaks(s, to, p.back, 0);
}

/// An object is empty if only blanks and line breaks stand before its brace, and spoilt
/// if something else than a key does.
pub proof fn empty_objects_have_no_pairs(before: Seq<u8>, blank: Seq<u8>, behind: Seq<u8>)
    requires
        is_blank_or_break(blank),
        behind.len() >= 1,
        behind[0] != 0x20 && behind[0] != 0x09 && behind[0] != 0x0D && behind[0] != 0x0A,
    ensures
        ({
            let s = before + blank + behind;
            &&& behind[0] == 0x7D ==> pairs_from(s, before.len() as int) == Some(
                Seq::<Pair>::empty(),
            )
            &&& behind[0] != 0x7D && behind[0] != 0x22 ==> pairs_from(s, before.len() as int)
                is None
        }),
{
    let s = before + blank + behind;
    let at = before.len() as int;
    assert(has(s, at, blank)) by {
        assert(s.subrange(at, at + blank.len()) =~= blank);
    }
    assert(s[at + blank.len()] == behind[0]);
    lemma_breaks(s, at, blank, 0);
}

} // verus!
