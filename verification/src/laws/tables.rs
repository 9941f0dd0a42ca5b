//! Rows of delimited fields become scans, and which bytes become which fields.

use vstd::prelude::*;
use crate::leb::lemma_leb_size;
use crate::synth::delimited::{
    columns, cut, delimiters, delimiters_of, ends_in_crlf, ends_of, field_start, is_longest,
    lemma_line_ends, lemma_without_return, line_body, line_ends, line_start, line_text, lines_fire,
    lines_table, same_run,
};
use crate::synth::table::{lit_or_nothing, Grid};
use crate::tokens::{lo32, size_is_exact, sizes_are_exact, tok_bytes, tok_size, toks_bytes, Tok};

verus! {

/// From `i` on there is the rest of a quoted field: quotes in it are doubled, and the
/// last byte is the closing one.
pub open spec fn closes_quote(f: Seq<u8>, i: int) -> bool
    decreases f.len() - i,
{
    if i < 0 || i >= f.len() {
        false
    } else if f[i] == 0x22 {
        i + 1 == f.len() || (f[i + 1] == 0x22 && closes_quote(f, i + 2))
    } else {
        closes_quote(f, i + 1)
    }
}

/// A field of delimited text: it holds neither delimiters nor quotes, or it stands in
/// quotes. It does not reach past its line.
pub open spec fn is_field(f: Seq<u8>, d: u8) -> bool {
    &&& forall|i: int| 0 <= i < f.len() ==> #[trigger] f[i] != 0x0A && f[i] != 0x0D
    &&& {
        ||| forall|i: int| 0 <= i < f.len() ==> #[trigger] f[i] != d && f[i] != 0x22
        ||| f.len() > 0 && f[0] == 0x22 && closes_quote(f, 1)
    }
}

/// The fields of a row with delimiters between them.
pub open spec fn joined(row: Seq<Seq<u8>>, d: u8) -> Seq<u8>
    decreases row.len(),
{
    if row.len() == 0 {
        Seq::empty()
    } else if row.len() == 1 {
        row[0]
    } else {
        row[0] + seq![d] + joined(row.drop_first(), d)
    }
}

/// What ends a row.
pub open spec fn row_end(crlf: bool) -> Seq<u8> {
    if crlf {
        seq![0x0Du8, 0x0A]
    } else {
        seq![0x0Au8]
    }
}

/// Rows of delimited text, each on its line.
pub open spec fn text_of(rows: Seq<Seq<Seq<u8>>>, d: u8, crlf: bool) -> Seq<u8>
    decreases rows.len(),
{
    if rows.len() == 0 {
        Seq::empty()
    } else {
        text_of(rows.drop_last(), d, crlf) + joined(rows.last(), d) + row_end(crlf)
    }
}

/// Every row has `w` fields, and they are fields of delimited text.
pub open spec fn are_rows(rows: Seq<Seq<Seq<u8>>>, w: nat, d: u8) -> bool {
    forall|r: int|
        0 <= r < rows.len() ==> (#[trigger] rows[r]).len() == w && forall|c: int|
            0 <= c < w ==> is_field(#[trigger] rows[r][c], d)
}

proof fn lemma_quoted_walk(s: Seq<u8>, d: u8, at: int, f: Seq<u8>, i: int)
    requires
        0 <= at,
        at + f.len() <= s.len(),
        s.subrange(at, at + f.len()) == f,
        0 <= i < f.len(),
        closes_quote(f, i),
        at + f.len() < s.len() ==> s[at + f.len()] != 0x22,
    ensures
        delimiters(s, d, at + i, true) == delimiters(s, d, at + f.len(), false),
    decreases f.len() - i,
{
    assert(s[at + i] == f[i]);
    if f[i] == 0x22 {
        if i + 1 < f.len() {
            assert(s[at + i + 1] == f[i + 1]);
            assert(closes_quote(f, i + 2));
            assert(i + 2 < f.len());
            lemma_quoted_walk(s, d, at, f, i + 2);
        }
    } else {
        assert(closes_quote(f, i + 1));
        assert(i + 1 < f.len());
        lemma_quoted_walk(s, d, at, f, i + 1);
    }
}

proof fn lemma_plain_walk(s: Seq<u8>, d: u8, at: int, f: Seq<u8>, i: int)
    requires
        0 <= at,
        at + f.len() <= s.len(),
        s.subrange(at, at + f.len()) == f,
        0 <= i <= f.len(),
        forall|i: int| 0 <= i < f.len() ==> #[trigger] f[i] != d && f[i] != 0x22,
    ensures
        delimiters(s, d, at + i, false) == delimiters(s, d, at + f.len(), false),
    decreases f.len() - i,
{
    if i < f.len() {
        assert(s[at + i] == f[i]);
        lemma_plain_walk(s, d, at, f, i + 1);
    }
}

/// No delimiter is found inside a field.
proof fn lemma_field_walk(s: Seq<u8>, d: u8, at: int, f: Seq<u8>)
    requires
        0 <= at,
        at + f.len() <= s.len(),
        s.subrange(at, at + f.len()) == f,
        is_field(f, d),
        at + f.len() < s.len() ==> s[at + f.len()] != 0x22,
    ensures
        delimiters(s, d, at, false) == delimiters(s, d, at + f.len(), false),
{
    if forall|i: int| 0 <= i < f.len() ==> #[trigger] f[i] != d && f[i] != 0x22 {
        lemma_plain_walk(s, d, at, f, 0);
    } else {
        assert(s[at] == f[0]);
        lemma_quoted_walk(s, d, at, f, 1);
    }
}

/// Where field `k` of a row starts that starts at `at`.
spec fn start_of(row: Seq<Seq<u8>>, k: int, at: int) -> int
    decreases k,
{
    if k <= 0 {
        at
    } else {
        start_of(row, k - 1, at) + row[k - 1].len() + 1
    }
}

proof fn lemma_start_shift(row: Seq<Seq<u8>>, k: int, at: int)
    requires
        row.len() > 0,
        0 <= k < row.len() - 1,
    ensures
        start_of(row.drop_first(), k, at + row[0].len() + 1) == start_of(row, k + 1, at),
    decreases k,
{
    if k > 0 {
        lemma_start_shift(row, k - 1, at);
        assert(row.drop_first()[k - 1] == row[k]);
    } else {
        assert(start_of(row, 0, at) == at);
    }
}

/// The delimiters of joined fields stand behind the fields.
proof fn lemma_joined(s: Seq<u8>, row: Seq<Seq<u8>>, d: u8, at: int)
    requires
        row.len() > 0,
        0 <= at <= s.len(),
        s.skip(at) == joined(row, d),
        d != 0x22,
        forall|c: int| 0 <= c < row.len() ==> is_field(#[trigger] row[c], d),
    ensures
        delimiters(s, d, at, false).len() == row.len() - 1,
        forall|k: int|
            0 <= k < row.len() - 1 ==> #[trigger] delimiters(s, d, at, false)[k] == start_of(
                row,
                k,
                at,
            ) + row[k].len(),
        forall|k: int|
            0 <= k < row.len() ==> {
                let from = #[trigger] start_of(row, k, at);
                &&& at <= from
                &&& from + row[k].len() <= s.len()
                &&& s.subrange(from, from + row[k].len()) == row[k]
            },
        start_of(row, row.len() - 1, at) + row.last().len() == s.len(),
    decreases row.len(),
{
    let f = row[0];
    let n = f.len() as int;
    let tail = s.skip(at);
    assert(start_of(row, 0, at) == at);
    if row.len() == 1 {
        assert(s.subrange(at, at + n) =~= tail);
        lemma_field_walk(s, d, at, f);
    } else {
        let rest = row.drop_first();
        let next = at + n + 1;
        assert(tail.len() == n + 1 + joined(rest, d).len());
        assert(s.subrange(at, at + n) =~= f) by {
            assert(tail.subrange(0, n) =~= f);
            assert(s.subrange(at, at + n) =~= tail.subrange(0, n));
        }
        assert(s[at + n] == tail[n]);
        assert(tail[n] == d);
        assert(s.skip(next) =~= joined(rest, d)) by {
            assert(tail.skip(n + 1) =~= joined(rest, d));
            assert(s.skip(next) =~= tail.skip(n + 1));
        }
        assert forall|c: int| 0 <= c < rest.len() implies is_field(#[trigger] rest[c], d) by {
            assert(rest[c] == row[c + 1]);
        }
        lemma_joined(s, rest, d, next);
        lemma_field_walk(s, d, at, f);
        let all = delimiters(s, d, at, false);
        let others = delimiters(s, d, next, false);
        assert(all =~= seq![at + n] + others);
        assert forall|k: int| 0 <= k < row.len() - 1 implies #[trigger] all[k] == start_of(
            row,
            k,
            at,
        ) + row[k].len() by {
            if k > 0 {
                lemma_start_shift(row, k - 1, at);
                assert(others[k - 1] == start_of(rest, k - 1, next) + rest[k - 1].len());
                assert(rest[k - 1] == row[k]);
            }
        }
        assert forall|k: int| 0 <= k < row.len() implies {
            let from = #[trigger] start_of(row, k, at);
            &&& at <= from
            &&& from + row[k].len() <= s.len()
            &&& s.subrange(from, from + row[k].len()) == row[k]
        } by {
            if k > 0 {
                lemma_start_shift(row, k - 1, at);
                assert(rest[k - 1] == row[k]);
                assert(start_of(rest, k - 1, next) == start_of(row, k, at));
            }
        }
        lemma_start_shift(row, row.len() - 2, at);
        assert(rest.last() == row.last());
    }
}

/// A line is cut into its fields at the delimiters outside quotes: joining fields and
/// cutting the line gives the fields back, quotes and all.
pub proof fn lines_are_cut_into_their_fields(row: Seq<Seq<u8>>, d: u8)
    requires
        row.len() > 0,
        d != 0x22,
        forall|c: int| 0 <= c < row.len() ==> is_field(#[trigger] row[c], d),
    ensures
        delimiters_of(joined(row, d), d).len() == row.len() - 1,
        cut(joined(row, d), delimiters_of(joined(row, d), d)) == row,
{
    let s = joined(row, d);
    assert(s.skip(0) =~= s);
    lemma_joined(s, row, d, 0);
    let places = delimiters_of(s, d);
    let fields = cut(s, places);
    assert forall|c: int| 0 <= c < row.len() implies #[trigger] fields[c] == row[c] by {
        let from = start_of(row, c, 0);
        if c > 0 {
            assert(places[c - 1] == start_of(row, c - 1, 0) + row[c - 1].len());
        }
        assert(field_start(places, c) == from);
        if c < row.len() - 1 {
            assert(places[c] == from + row[c].len());
        }
    }
    assert(fields =~= row);
}

/// A row holds no line end.
proof fn lemma_no_line_end(row: Seq<Seq<u8>>, d: u8)
    requires
        d != 0x0A,
        d != 0x0D,
        forall|c: int| 0 <= c < row.len() ==> is_field(#[trigger] row[c], d),
    ensures
        forall|i: int|
            0 <= i < joined(row, d).len() ==> #[trigger] joined(row, d)[i] != 0x0A && joined(
                row,
                d,
            )[i] != 0x0D,
    decreases row.len(),
{
    if row.len() >= 1 {
        assert(is_field(row[0], d));
    }
    if row.len() > 1 {
        let rest = row.drop_first();
        assert forall|c: int| 0 <= c < rest.len() implies is_field(#[trigger] rest[c], d) by {
            assert(rest[c] == row[c + 1]);
        }
        lemma_no_line_end(rest, d);
        let (f, t, s) = (row[0], joined(rest, d), joined(row, d));
        assert forall|i: int| 0 <= i < s.len() implies #[trigger] s[i] != 0x0A && s[i] != 0x0D by {
            if i < f.len() {
                assert(s[i] == f[i]);
            } else if i > f.len() {
                assert(s[i] == t[i - f.len() - 1]);
            }
        }
    }
}

pub proof fn lemma_ends_front(a: Seq<u8>, b: Seq<u8>, n: nat)
    requires
        n <= a.len(),
    ensures
        line_ends(a + b, n) == line_ends(a, n),
    decreases n,
{
    if n > 0 {
        lemma_ends_front(a, b, (n - 1) as nat);
        assert((a + b)[n - 1] == a[n - 1]);
    }
}

/// Bytes without a line feed add no line end.
pub proof fn lemma_ends_none(s: Seq<u8>, m: nat, n: nat)
    requires
        m <= n <= s.len(),
        forall|i: int| m <= i < n ==> s[i] != 10,
    ensures
        line_ends(s, n) == line_ends(s, m),
    decreases n,
{
    if m < n {
        lemma_ends_none(s, m, (n - 1) as nat);
    }
}

/// Where the lines of rows stand.
#[verifier::rlimit(60)]
proof fn lemma_text_lines(rows: Seq<Seq<Seq<u8>>>, w: nat, d: u8, crlf: bool)
    requires
        are_rows(rows, w, d),
        d != 0x0A,
        d != 0x0D,
    ensures
        ({
            let s = text_of(rows, d, crlf);
            &&& ends_of(s).len() == rows.len()
            &&& rows.len() > 0 ==> ends_of(s).last() == s.len()
            &&& forall|k: int|
                0 <= k < rows.len() ==> 0 <= line_start(s, k) <= #[trigger] ends_of(s)[k] - 1 <= s.len()
                    && line_body(s, k) == joined(rows[k], d) + (if crlf {
                    seq![0x0Du8]
                } else {
                    Seq::<u8>::empty()
                })
        }),
    decreases rows.len(),
{
    let s = text_of(rows, d, crlf);
    if rows.len() > 0 {
        let front = rows.drop_last();
        assert forall|r: int| 0 <= r < front.len() implies (#[trigger] front[r]).len() == w
            && forall|c: int| 0 <= c < w ==> is_field(#[trigger] front[r][c], d) by {
            assert(front[r] == rows[r]);
        }
        lemma_text_lines(front, w, d, crlf);
        let t = text_of(front, d, crlf);
        let row = rows.last();
        assert(rows[rows.len() - 1] == row);
        lemma_no_line_end(row, d);
        let body = joined(row, d) + (if crlf {
            seq![0x0Du8]
        } else {
            Seq::<u8>::empty()
        });
        let more = body + seq![0x0Au8];
        assert(s =~= t + more);
        let m = t.len();
        let n = (m + body.len()) as nat;
        lemma_ends_front(t, more, m);
        assert forall|i: int| m <= i < n implies s[i] != 10 by {
            assert(s[i] == body[i - m]);
            if i - m < joined(row, d).len() {
                assert(body[i - m] == joined(row, d)[i - m]);
            }
        }
        lemma_ends_none(s, m, n);
        assert(s[n as int] == 10);
        assert(s.len() == n + 1);
        assert(ends_of(s) == ends_of(t).push(s.len() as int));
        let ends = ends_of(s);
        assert forall|k: int| 0 <= k < rows.len() implies 0 <= line_start(s, k) <= #[trigger] ends[k]
            - 1 <= s.len() && line_body(s, k) == joined(rows[k], d) + (if crlf {
            seq![0x0Du8]
        } else {
            Seq::<u8>::empty()
        }) by {
            if k < front.len() {
                assert(ends[k] == ends_of(t)[k]);
                if k > 0 {
                    assert(ends[k - 1] == ends_of(t)[k - 1]);
                }
                assert(line_start(s, k) == line_start(t, k));
                lemma_line_ends(t, t.len());
                assert(line_body(s, k) =~= line_body(t, k));
                assert(front[k] == rows[k]);
            } else {
                if k > 0 {
                    assert(ends[k - 1] == ends_of(t)[k - 1]);
                }
                assert(line_start(s, k) == m);
                assert(line_body(s, k) =~= body);
            }
        }
    }
}

/// Text of delimited rows reads as the table of its fields: whatever the number of
/// columns and rows, every line is a row, every field a cell, and the line ends,
/// line feeds or carriage returns and line feeds, belong to no field.
pub proof fn delimited_text_reads_as_its_rows(
    rows: Seq<Seq<Seq<u8>>>,
    w: nat,
    d: u8,
    crlf: bool,
)
    requires
        rows.len() >= 1,
        w >= 2,
        are_rows(rows, w, d),
        d != 0x0A,
        d != 0x0D,
        d != 0x22,
    ensures
        ({
            let s = text_of(rows, d, crlf);
            let n = rows.len() as int;
            let g = lines_table(s, d, 0, n);
            &&& columns(s, d).len() == n
            &&& forall|k: int| 0 <= k < n ==> #[trigger] columns(s, d)[k] == w - 1
            &&& line_start(s, 0) == 0
            &&& line_start(s, n) == s.len()
            &&& g.rows == rows
            &&& g.lead == Seq::<Seq<u8>>::empty()
            &&& g.between.len() == w - 1
            &&& forall|c: int| 0 <= c < w - 1 ==> #[trigger] g.between[c] == seq![d]
            &&& g.close == row_end(crlf)
        }),
{
    let s = text_of(rows, d, crlf);
    let n = rows.len() as int;
    lemma_text_lines(rows, w, d, crlf);
    let g = lines_table(s, d, 0, n);
    assert forall|k: int| 0 <= k < n implies {
        let body = #[trigger] line_body(s, k);
        &&& delimiters_of(body, d).len() == w - 1
        &&& body.len() > 0
        &&& body.last() == 0x0D <==> crlf
        &&& cut(line_text(s, k, crlf), delimiters_of(line_text(s, k, crlf), d)) == rows[k]
    } by {
        let row = rows[k];
        let text = joined(row, d);
        assert(ends_of(s)[k] == ends_of(s)[k]);
        assert(line_body(s, k) == text + (if crlf {
            seq![0x0Du8]
        } else {
            Seq::<u8>::empty()
        }));
        lines_are_cut_into_their_fields(row, d);
        lemma_no_line_end(row, d);
        assert(text.len() > 0);
        if crlf {
            let body = line_body(s, k);
            assert(body.drop_last() =~= text);
            lemma_without_return(body, d, 0, false);
        } else {
            assert(line_body(s, k) =~= text);
            assert(text[text.len() - 1] != 0x0D);
        }
    }
    assert forall|k: int| 0 <= k < n implies #[trigger] columns(s, d)[k] == w - 1 by {
        let body = line_body(s, k);
        assert(delimiters_of(body, d).len() == w - 1);
    }
    if crlf {
        assert(ends_in_crlf(s, d, 0, n));
    } else {
        assert(line_body(s, 0).last() != 0x0D);
        assert(!ends_in_crlf(s, d, 0, n));
    }
    assert(g.rows =~= rows) by {
        assert forall|r: int| 0 <= r < n implies #[trigger] g.rows[r] == rows[r] by {
            let body = line_body(s, r);
        }
    }
}

/// Some column differs between rows.
pub open spec fn some_column_differs(rows: Seq<Seq<Seq<u8>>>, w: nat) -> bool {
    exists|c: int, q: int, r: int|
        0 <= c < w && 0 <= q < rows.len() && 0 <= r < rows.len() && (#[trigger] rows[q][c])
            != (#[trigger] rows[r][c])
}

/// A table varies where some column differs.
pub proof fn lemma_differs(g: Grid)
    requires
        g.rows.len() >= 1,
    ensures
        some_column_differs(g.rows, g.width()) <==> g.varies(),
{
    if some_column_differs(g.rows, g.width()) {
        let (c, q, r) = choose|c: int, q: int, r: int|
            0 <= c < g.width() && 0 <= q < g.rows.len() && 0 <= r < g.rows.len() && (
            #[trigger] g.rows[q][c]) != (#[trigger] g.rows[r][c]);
        if g.is_fixed(c) {
            assert(g.rows[q][c] == g.rows[0][c]);
            assert(g.rows[r][c] == g.rows[0][c]);
        }
    }
    if g.varies() {
        let c = choose|c: int| 0 <= c < g.width() && !g.is_fixed(c);
        let r = choose|r: int| 0 <= r < g.rows.len() && (#[trigger] g.rows[r])[c] != g.rows[0][c];
        assert(g.rows[r][c] != g.rows[0][c]);
    }
}

/// Rows of delimited text become a scan whatever the number of their columns is: if
/// there are at least ten of them, they have two fields or more, some column differs
/// between rows, and the template and the scan, with four bytes for the template, are
/// shorter than the rows as a literal. They become none if one of these fails.
pub proof fn rows_of_delimited_text_become_a_scan(
    rows: Seq<Seq<Seq<u8>>>,
    w: nat,
    d: u8,
    crlf: bool,
    id: u32,
)
    requires
        rows.len() >= 1,
        w >= 2,
        are_rows(rows, w, d),
        d != 0x0A,
        d != 0x0D,
        d != 0x22,
        tok_bytes(Tok::Lit { data: text_of(rows, d, crlf) }).len() <= usize::MAX,
    ensures
        ({
            let s = text_of(rows, d, crlf);
            let n = rows.len() as int;
            let g = lines_table(s, d, 0, n);
            lines_fire(s, d, id, 0, n) <==> {
                &&& n >= 10
                &&& some_column_differs(rows, w)
                &&& toks_bytes(g.template()).len() + 4 + tok_bytes(g.scan(id)).len() < tok_bytes(
                    Tok::Lit { data: s },
                ).len()
            }
        }),
{
    let s = text_of(rows, d, crlf);
    let n = rows.len() as int;
    let g = lines_table(s, d, 0, n);
    let cols = columns(s, d);
    delimited_text_reads_as_its_rows(rows, w, d, crlf);
    assert(cols[0] == w - 1);
    assert(same_run(cols, 0, n));
    assert(g.width() == w);
    sizes_are_exact(g.template());
    size_is_exact(g.scan(id));
    size_is_exact(Tok::Lit { data: s });
    assert(s.subrange(0, s.len() as int) =~= s);
    assert(s.take(0) =~= Seq::<u8>::empty());
    assert(s.skip(s.len() as int) =~= Seq::<u8>::empty());
    assert(toks_bytes(Seq::<Tok>::empty()).len() == 0);
    sizes_are_exact(Seq::<Tok>::empty());
    lemma_differs(g);
}

/// Not all of the `n` numbers from place `a` on are the same.
pub open spec fn numbers_differ(cols: Seq<nat>, a: int, n: int) -> bool {
    exists|k: int| a <= k < a + n && #[trigger] cols[k] != cols[a]
}

proof fn lemma_is_longest(cols: Seq<nat>, s: int, l: int)
    requires
        0 <= s,
        1 <= l,
        s + l <= cols.len(),
        forall|k: int| s <= k < s + l ==> #[trigger] cols[k] == cols[s],
        forall|a: int, n: int|
            0 <= a && 1 <= n && a + n <= cols.len() && (n > l || (n == l && a < s))
                ==> #[trigger] numbers_differ(cols, a, n),
    ensures
        is_longest(cols, s, l),
{
    assert(same_run(cols, s, l));
    assert forall|a: int, n: int| #[trigger] same_run(cols, a, n) implies n < l || (n == l && a
        >= s) by {
        if n > l || (n == l && a < s) {
            assert(numbers_differ(cols, a, n));
            let k = choose|k: int| a <= k < a + n && #[trigger] cols[k] != cols[a];
        }
    }
}

/// Of any data those lines become a scan that are the longest run with the same
/// number of delimiters, and the first of that length: if that number is not zero,
/// there are at least ten lines, some field differs, and both the rows and the whole
/// get shorter. Nothing else does.
#[verifier::rlimit(30)]
pub proof fn the_longest_run_of_lines_becomes_a_scan(
    data: Seq<u8>,
    d: u8,
    id: u32,
    s: int,
    l: int,
)
    requires
        data.len() + 16 <= usize::MAX,
        0 <= s,
        1 <= l,
        s + l <= ends_of(data).len(),
        forall|k: int| s <= k < s + l ==> #[trigger] columns(data, d)[k] == columns(data, d)[s],
        forall|a: int, n: int|
            0 <= a && 1 <= n && a + n <= ends_of(data).len() && (n > l || (n == l && a < s))
                ==> #[trigger] numbers_differ(columns(data, d), a, n),
    ensures
        ({
            let g = lines_table(data, d, s, l);
            let (from, to) = (line_start(data, s), line_start(data, s + l));
            let cost = toks_bytes(g.template()).len() + 4 + tok_bytes(g.scan(id)).len();
            lines_fire(data, d, id, s, l) <==> {
                &&& l >= 10
                &&& columns(data, d)[s] >= 1
                &&& some_column_differs(g.rows, g.width())
                &&& cost < tok_bytes(Tok::Lit { data: data.subrange(from, to) }).len()
                &&& toks_bytes(lit_or_nothing(data.take(from))).len() + cost + toks_bytes(
                    lit_or_nothing(data.skip(to)),
                ).len() < tok_bytes(Tok::Lit { data }).len()
            }
        }),
{
    let g = lines_table(data, d, s, l);
    let (from, to) = (line_start(data, s), line_start(data, s + l));
    let cols = columns(data, d);
    lemma_line_ends(data, data.len());
    assert(0 <= from <= to <= data.len()) by {
        if s > 0 {
            assert(ends_of(data)[s - 1] < ends_of(data)[s + l - 1]);
        }
        assert(ends_of(data)[s + l - 1] >= 1);
    }
    lemma_is_longest(cols, s, l);
    sizes_are_exact(g.template());
    size_is_exact(g.scan(id));
    size_is_exact(Tok::Lit { data });
    size_is_exact(Tok::Lit { data: data.subrange(from, to) });
    sizes_are_exact(lit_or_nothing(data.take(from)));
    sizes_are_exact(lit_or_nothing(data.skip(to)));
    lemma_part_is_no_longer(data, from, to);
    lemma_part_is_no_longer(data, 0, data.len() as int);
    assert(data.subrange(0, data.len() as int) =~= data);
    lemma_differs(g);
}

pub proof fn lemma_part_is_no_longer(data: Seq<u8>, from: int, to: int)
    requires
        0 <= from <= to <= data.len(),
    ensures
        tok_size(Tok::Lit { data: data.subrange(from, to) }) <= data.len() + 6,
{
    lemma_leb_size(lo32(data.subrange(from, to).len()));
}

} // verus!
