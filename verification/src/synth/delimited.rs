//! Tables of delimited fields: comma, tab or pipe separated lines.

use vstd::prelude::*;
use crate::bytes::copy_of;
use crate::synth::table::{
    flat, is_split, pays_off, propose, stands, Grid, ScanResult, Table, MIN_SCAN_ROWS,
};
use crate::synth::token::fields_of;

verus! {

/// The places behind the line feeds among the first `n` bytes.
pub open spec fn line_ends(data: Seq<u8>, n: nat) -> Seq<int>
    decreases n,
{
    if n == 0 {
        Seq::empty()
    } else {
        let before = line_ends(data, (n - 1) as nat);
        if data[n - 1] == 10 {
            before.push(n as int)
        } else {
            before
        }
    }
}

/// The places behind the line feeds of the data. Each is the end of a line; what
/// follows the last one is not a complete line.
pub open spec fn ends_of(data: Seq<u8>) -> Seq<int> {
    line_ends(data, data.len())
}

/// Where line `k` starts.
pub open spec fn line_start(data: Seq<u8>, k: int) -> int {
    if k <= 0 {
        0
    } else {
        ends_of(data)[k - 1]
    }
}

/// Line `k` with its line feed.
pub open spec fn line(data: Seq<u8>, k: int) -> Seq<u8> {
    data.subrange(line_start(data, k), ends_of(data)[k])
}

/// Line `k` without its line feed.
pub open spec fn line_body(data: Seq<u8>, k: int) -> Seq<u8> {
    data.subrange(line_start(data, k), ends_of(data)[k] - 1)
}

/// The line ends are ascending places behind line feeds.
pub proof fn lemma_line_ends(data: Seq<u8>, n: nat)
    requires
        n <= data.len(),
    ensures
        forall|k: int|
            0 <= k < line_ends(data, n).len() ==> 1 <= #[trigger] line_ends(data, n)[k] <= n
                && data[line_ends(data, n)[k] - 1] == 10,
        forall|j: int, k: int|
            0 <= j < k < line_ends(data, n).len() ==> (#[trigger] line_ends(data, n)[j])
                < (#[trigger] line_ends(data, n)[k]),
        line_ends(data, n).len() <= n,
    decreases n,
{
    if n > 0 {
        lemma_line_ends(data, (n - 1) as nat);
    }
}

/// Returns the places behind the line feeds.
pub fn find_line_ends(data: &[u8]) -> (ends: Vec<usize>)
    ensures
        ends@.map_values(|e: usize| e as int) == ends_of(data@),
{
    let mut ends: Vec<usize> = Vec::new();
    let ghost f = |e: usize| e as int;
    assert(ends@.map_values(f) =~= Seq::empty());
    let mut i: usize = 0;
    while i < data.len()
        invariant
            i <= data@.len(),
            f == (|e: usize| e as int),
            ends@.map_values(f) == line_ends(data@, i as nat),
        decreases data.len() - i,
    {
        let ghost before = ends@;
        if data[i] == 10 {
            ends.push(i + 1);
            assert(ends@.map_values(f) =~= before.map_values(f).push(i + 1));
        }
        i = i + 1;
    }
    ends
}

/// The places from `i` on where the delimiter stands outside double quotes. A
/// doubled quote inside quotes is a quoted quote.
pub open spec fn delimiters(line: Seq<u8>, d: u8, i: int, in_quote: bool) -> Seq<int>
    decreases line.len() - i,
{
    if i < 0 || i >= line.len() {
        Seq::empty()
    } else if in_quote {
        if line[i] == 34 {
            if i + 1 < line.len() && line[i + 1] == 34 {
                delimiters(line, d, i + 2, true)
            } else {
                delimiters(line, d, i + 1, false)
            }
        } else {
            delimiters(line, d, i + 1, true)
        }
    } else if line[i] == 34 {
        delimiters(line, d, i + 1, true)
    } else if line[i] == d {
        seq![i] + delimiters(line, d, i + 1, false)
    } else {
        delimiters(line, d, i + 1, false)
    }
}

/// The places in a line where the delimiter stands outside double quotes.
pub open spec fn delimiters_of(line: Seq<u8>, d: u8) -> Seq<int> {
    delimiters(line, d, 0, false)
}

/// Where field `c` starts.
pub open spec fn field_start(places: Seq<int>, c: int) -> int {
    if c <= 0 {
        0
    } else {
        places[c - 1] + 1
    }
}

/// The fields of a line: what stands between the delimiters outside quotes.
pub open spec fn cut(line: Seq<u8>, places: Seq<int>) -> Seq<Seq<u8>> {
    Seq::new(
        places.len() + 1,
        |c: int|
            line.subrange(
                field_start(places, c),
                if c < places.len() {
                    places[c]
                } else {
                    line.len() as int
                },
            ),
    )
}

proof fn lemma_delimiters(line: Seq<u8>, d: u8, i: int, in_quote: bool)
    requires
        0 <= i,
    ensures
        forall|k: int|
            0 <= k < delimiters(line, d, i, in_quote).len() ==> i <= #[trigger] delimiters(
                line,
                d,
                i,
                in_quote,
            )[k] < line.len() && line[delimiters(line, d, i, in_quote)[k]] == d,
        forall|j: int, k: int|
            0 <= j < k < delimiters(line, d, i, in_quote).len() ==> (#[trigger] delimiters(
                line,
                d,
                i,
                in_quote,
            )[j]) < (#[trigger] delimiters(line, d, i, in_quote)[k]),
    decreases line.len() - i,
{
    let all = delimiters(line, d, i, in_quote);
    if i >= line.len() {
        assert(all.len() == 0);
    } else if in_quote && line[i] == 34 && i + 1 < line.len() && line[i + 1] == 34 {
        lemma_delimiters(line, d, i + 2, true);
        assert(all == delimiters(line, d, i + 2, true));
    } else if in_quote {
        lemma_delimiters(line, d, i + 1, line[i] != 34);
        assert(all == delimiters(line, d, i + 1, line[i] != 34));
    } else if line[i] == 34 {
        lemma_delimiters(line, d, i + 1, true);
        assert(all == delimiters(line, d, i + 1, true));
    } else {
        lemma_delimiters(line, d, i + 1, false);
        let rest = delimiters(line, d, i + 1, false);
        if line[i] == d {
            assert(all == seq![i] + rest);
            assert forall|k: int| 0 <= k < all.len() implies i <= #[trigger] all[k] < line.len()
                && line[all[k]] == d by {
                if k > 0 {
                    assert(all[k] == rest[k - 1]);
                }
            }
            assert forall|j: int, k: int| 0 <= j < k < all.len() implies (#[trigger] all[j]) < (
            #[trigger] all[k]) by {
                assert(all[k] == rest[k - 1]);
                if j > 0 {
                    assert(all[j] == rest[j - 1]);
                }
            }
        } else {
            assert(all == rest);
        }
    }
}

/// Returns how many delimiters stand outside double quotes.
pub fn count_delimiters_quoted(line: &[u8], delimiter: u8) -> (n: usize)
    ensures
        n == delimiters_of(line@, delimiter).len(),
{
    let mut n: usize = 0;
    let mut in_quote: bool = false;
    let mut i: usize = 0;
    while i < line.len()
        invariant
            i <= line@.len(),
            n <= i,
            n + delimiters(line@, delimiter, i as int, in_quote).len() == delimiters_of(
                line@,
                delimiter,
            ).len(),
        decreases line@.len() - i,
    {
        let b: u8 = line[i];
        if in_quote {
            if b == 34 {
                if i + 1 < line.len() && line[i + 1] == 34 {
                    i = i + 2;
                    continue;
                }
                in_quote = false;
            }
        } else if b == 34 {
            in_quote = true;
        } else if b == delimiter {
            n = n + 1;
        }
        i = i + 1;
    }
    n
}

/// Returns the fields of a line, quotes included.
pub fn split_fields_quoted_raw(line: &[u8], delimiter: u8) -> (fields: Vec<Vec<u8>>)
    ensures
        fields_of(fields@) == cut(line@, delimiters_of(line@, delimiter)),
{
    let mut fields: Vec<Vec<u8>> = Vec::new();
    let mut start: usize = 0;
    let mut in_quote: bool = false;
    let mut i: usize = 0;
    let ghost all = delimiters_of(line@, delimiter);
    let ghost goal = cut(line@, all);
    let ghost mut k: int = 0;
    assert(all.skip(0) =~= all);
    assert(fields_of(fields@) =~= goal.take(0));
    proof {
        lemma_delimiters(line@, delimiter, 0, false);
    }
    while i < line.len()
        invariant
            i <= line@.len(),
            all == delimiters_of(line@, delimiter),
            goal == cut(line@, all),
            0 <= k <= all.len(),
            forall|k: int| 0 <= k < all.len() ==> 0 <= #[trigger] all[k] < line@.len(),
            delimiters(line@, delimiter, i as int, in_quote) == all.skip(k),
            fields_of(fields@) == goal.take(k),
            start == field_start(all, k),
            start <= i,
        decreases line@.len() - i,
    {
        let b: u8 = line[i];
        if in_quote {
            if b == 34 {
                if i + 1 < line.len() && line[i + 1] == 34 {
                    i = i + 2;
                    continue;
                }
                in_quote = false;
            }
        } else if b == 34 {
            in_quote = true;
        } else if b == delimiter {
            let ghost before = fields_of(fields@);
            fields.push(copy_of(&line[start..i]));
            proof {
                let rest = delimiters(line@, delimiter, i + 1, false);
                assert(all.skip(k) == seq![i as int] + rest);
                assert(all.skip(k).len() > 0);
                assert(all.skip(k)[0] == i);
                assert(all[k] == i);
                assert(all.skip(k + 1) =~= all.skip(k).drop_first());
                assert((seq![i as int] + rest).drop_first() =~= rest);
                assert(fields_of(fields@) =~= before.push(goal[k]));
                assert(goal.take(k + 1) =~= goal.take(k).push(goal[k]));
                k = k + 1;
            }
            start = i + 1;
        }
        i = i + 1;
    }
    let ghost before = fields_of(fields@);
    fields.push(copy_of(&line[start..line.len()]));
    proof {
        assert(all.skip(k).len() == 0);
        assert(k == all.len());
        assert(fields_of(fields@) =~= before.push(goal[k]));
        assert(goal.take(k + 1) =~= goal.take(k).push(goal[k]));
        assert(goal.take(k + 1) =~= goal);
    }
    fields
}

/// Equal numbers from place `s` on for `l` places.
pub open spec fn same_run(cols: Seq<nat>, s: int, l: int) -> bool {
    &&& 0 <= s
    &&& 1 <= l
    &&& s + l <= cols.len()
    &&& forall|i: int| s <= i < s + l ==> #[trigger] cols[i] == cols[s]
}

/// The longest run of equal numbers, and the first of its length.
pub open spec fn is_longest(cols: Seq<nat>, s: int, l: int) -> bool {
    &&& same_run(cols, s, l)
    &&& forall|s2: int, l2: int| #[trigger]
        same_run(cols, s2, l2) ==> l2 < l || (l2 == l && s2 >= s)
}

/// There is only one longest run.
pub proof fn lemma_longest_unique(cols: Seq<nat>, s: int, l: int, s2: int, l2: int)
    requires
        is_longest(cols, s, l),
        is_longest(cols, s2, l2),
    ensures
        s == s2 && l == l2,
{
}

/// Returns the longest run of equal numbers, as its first place and its length.
fn longest_run(cols: &Vec<usize>) -> (r: (usize, usize))
    requires
        cols@.len() > 0,
    ensures
        is_longest(cols@.map_values(|c: usize| c as nat), r.0 as int, r.1 as int),
{
    let ghost all = cols@.map_values(|c: usize| c as nat);
    let mut best_start: usize = 0;
    let mut best_len: usize = 1;
    let mut run_start: usize = 0;
    let mut i: usize = 1;
    while i < cols.len()
        invariant
            all == cols@.map_values(|c: usize| c as nat),
            1 <= i <= cols@.len(),
            run_start < i,
            same_run(all, run_start as int, i - run_start),
            run_start > 0 ==> all[run_start - 1] != all[run_start as int],
            same_run(all, best_start as int, best_len as int),
            best_start + best_len <= i,
            forall|s: int, l: int| #[trigger]
                same_run(all, s, l) && s + l <= i ==> l < best_len || (l == best_len && s
                    >= best_start),
        decreases cols.len() - i,
    {
        let ghost (bs, bl) = (best_start as int, best_len as int);
        if cols[i] == cols[run_start] {
            assert(all[i as int] == all[run_start as int]);
            if i + 1 - run_start > best_len {
                best_len = i + 1 - run_start;
                best_start = run_start;
            }
        } else {
            assert(all[i as int] != all[run_start as int]);
            assert(all[i - 1] == all[run_start as int]);
            run_start = i;
        }
        assert forall|s: int, l: int| #[trigger] same_run(all, s, l) && s + l <= i + 1 implies l
            < best_len || (l == best_len && s >= best_start) by {
            if s + l == i + 1 {
                assert(all[i as int] == all[s]);
                if s < run_start {
                    assert(all[run_start - 1] == all[s]);
                    assert(all[run_start as int] == all[s]);
                }
            } else {
                assert(l < bl || (l == bl && s >= bs));
            }
        }
        i = i + 1;
    }
    (best_start, best_len)
}

/// How many delimiters each line has.
pub open spec fn columns(data: Seq<u8>, d: u8) -> Seq<nat> {
    Seq::new(ends_of(data).len(), |k: int| delimiters_of(line_body(data, k), d).len())
}

/// Every one of the `l` lines from line `s` on ends in a carriage return and a
/// line feed, and carriage returns are no delimiters.
pub open spec fn ends_in_crlf(data: Seq<u8>, d: u8, s: int, l: int) -> bool {
    &&& d != 13
    &&& forall|k: int|
        s <= k < s + l ==> (#[trigger] line_body(data, k)).len() > 0 && line_body(data, k).last()
            == 13
}

/// Line `k` without its line end.
pub open spec fn line_text(data: Seq<u8>, k: int, crlf: bool) -> Seq<u8> {
    if crlf {
        line_body(data, k).drop_last()
    } else {
        line_body(data, k)
    }
}

/// What ends a line.
pub open spec fn line_end(crlf: bool) -> Seq<u8> {
    if crlf {
        seq![13u8, 10]
    } else {
        seq![10u8]
    }
}

/// The table in the `l` lines from line `s` on. The line ends belong to no field,
/// whether they are line feeds or carriage returns and line feeds throughout.
pub open spec fn lines_table(data: Seq<u8>, d: u8, s: int, l: int) -> Grid {
    let crlf = ends_in_crlf(data, d, s, l);
    Grid {
        lead: Seq::empty(),
        between: Seq::new(columns(data, d)[s], |c: int| seq![d]),
        close: line_end(crlf),
        rows: Seq::new(
            l as nat,
            |r: int|
                cut(line_text(data, s + r, crlf), delimiters_of(line_text(data, s + r, crlf), d)),
        ),
    }
}

/// A carriage return at the end of a line is no delimiter and hides none.
pub proof fn lemma_without_return(line: Seq<u8>, d: u8, i: int, in_quote: bool)
    requires
        0 <= i,
        line.len() > 0,
        line.last() == 13,
        d != 13,
    ensures
        delimiters(line.drop_last(), d, i, in_quote) == delimiters(line, d, i, in_quote),
    decreases line.len() - i,
{
    let short = line.drop_last();
    if i < short.len() {
        assert(short[i] == line[i]);
        lemma_without_return(line, d, i + 1, true);
        lemma_without_return(line, d, i + 1, false);
        if i + 1 < short.len() {
            assert(short[i + 1] == line[i + 1]);
            lemma_without_return(line, d, i + 2, true);
        }
    } else if i < line.len() {
        assert(line[i] == 13);
        assert(delimiters(line, d, i + 1, true).len() == 0);
        assert(delimiters(line, d, i + 1, false).len() == 0);
        assert(delimiters(line, d, i, in_quote) =~= Seq::empty());
    }
}

/// The lines from `s` on for `l` lines become a scan: they are the longest run
/// of lines with the same number of fields, there are enough of them, they have
/// more than one field, some field varies, and it pays off.
pub open spec fn lines_fire(data: Seq<u8>, d: u8, id: u32, s: int, l: int) -> bool {
    &&& is_longest(columns(data, d), s, l)
    &&& l >= MIN_SCAN_ROWS
    &&& columns(data, d)[s] > 0
    &&& lines_table(data, d, s, l).varies()
    &&& pays_off(
        lines_table(data, d, s, l),
        data,
        line_start(data, s),
        line_start(data, s + l),
        id,
    )
}

/// Fields and delimiters put together again give the line.
proof fn lemma_row_from(g: Grid, body: Seq<u8>, d: u8, c: int)
    requires
        0 <= c <= delimiters_of(body, d).len(),
        g.between == Seq::new(delimiters_of(body, d).len(), |c: int| seq![d]),
    ensures
        g.row_from(cut(body, delimiters_of(body, d)), c) == body.skip(
            field_start(delimiters_of(body, d), c),
        ) + g.close,
    decreases delimiters_of(body, d).len() - c,
{
    let places = delimiters_of(body, d);
    let row = cut(body, places);
    lemma_delimiters(body, d, 0, false);
    let from = field_start(places, c);
    if c > 0 {
        assert(0 <= places[c - 1] < body.len());
    }
    if c < places.len() {
        lemma_row_from(g, body, d, c + 1);
        assert(0 <= places[c] < body.len());
        if c > 0 {
            assert(places[c - 1] < places[c]);
        }
        let rest = body.skip(places[c] + 1) + g.close;
        assert(row[c] + seq![d] + rest =~= body.skip(from) + g.close) by {
            assert(body[places[c]] == d);
        }
    } else {
        assert(row[c] + g.close =~= body.skip(from) + g.close);
    }
}

/// A table whose rows are consecutive lines stands where the lines stand.
pub proof fn lemma_lines_stand(data: Seq<u8>, g: Grid, s: int, n: nat)
    requires
        0 <= s,
        s + n <= ends_of(data).len(),
        n <= g.rows.len(),
        forall|r: int| 0 <= r < n ==> g.row_bytes(#[trigger] g.rows[r]) == line(data, s + r),
    ensures
        0 <= line_start(data, s) <= line_start(data, s + n) <= data.len(),
        data.subrange(line_start(data, s), line_start(data, s + n)) == g.text(n),
    decreases n,
{
    let ends = ends_of(data);
    lemma_line_ends(data, data.len());
    if s > 0 {
        assert(1 <= ends[s - 1] <= data.len());
    }
    if n == 0 {
        assert(data.subrange(line_start(data, s), line_start(data, s)) =~= g.text(0));
    } else {
        let k = s + n - 1;
        lemma_lines_stand(data, g, s, (n - 1) as nat);
        assert(1 <= ends[k] <= data.len());
        if k > 0 {
            assert(1 <= ends[k - 1] <= data.len());
            assert(ends[k - 1] < ends[k]);
        }
        assert(g.row_bytes(g.rows[n - 1]) == line(data, k));
        assert(data.subrange(line_start(data, s), line_start(data, s + n)) =~= data.subrange(
            line_start(data, s),
            line_start(data, k),
        ) + line(data, k));
    }
}

/// The lines of a run, as a table, stand where the lines stand.
proof fn lemma_table_stands(data: Seq<u8>, d: u8, s: int, l: int)
    requires
        same_run(columns(data, d), s, l),
    ensures
        stands(
            lines_table(data, d, s, l),
            data,
            line_start(data, s),
            line_start(data, s + l),
        ),
{
    let g = lines_table(data, d, s, l);
    let ends = ends_of(data);
    lemma_line_ends(data, data.len());
    assert forall|r: int| 0 <= r < l implies g.row_bytes(#[trigger] g.rows[r]) == line(
        data,
        s + r,
    ) && g.rows[r].len() == g.width() by {
        let k = s + r;
        let crlf = ends_in_crlf(data, d, s, l);
        let body = line_text(data, k, crlf);
        assert(columns(data, d)[k] == columns(data, d)[s]);
        if crlf {
            lemma_without_return(line_body(data, k), d, 0, false);
        }
        assert(1 <= ends[k] <= data.len());
        if k > 0 {
            assert(1 <= ends[k - 1] <= data.len());
            assert(ends[k - 1] < ends[k]);
        }
        lemma_row_from(g, body, d, 0);
        assert(body.skip(0) =~= body);
        assert(data[ends[k] - 1] == 10);
        let whole = body + line_end(crlf);
        assert(flat(g.lead) + whole =~= whole);
        if crlf {
            assert(line_body(data, k).last() == data[ends[k] - 2]);
        }
        assert(line(data, k) =~= whole);
    }
    lemma_lines_stand(data, g, s, l as nat);
}

/// Finds the longest block of lines with the same number of fields and turns it
/// into a table scan with macro `next_sub_id`, if that pays off.
///
/// Only complete lines take part. Where all lines of the block end in a carriage
/// return and a line feed, both are stripped before the fields are read.
pub fn detect_scan_lit(data: &[u8], delimiter: u8, next_sub_id: u32) -> (r: Option<ScanResult>)
    ensures
        match r {
            Some(found) => exists|s: int, l: int| #[trigger]
                lines_fire(data@, delimiter, next_sub_id, s, l) && is_split(
                    found,
                    lines_table(data@, delimiter, s, l),
                    data@,
                    line_start(data@, s),
                    line_start(data@, s + l),
                    next_sub_id,
                ),
            None => forall|s: int, l: int| !#[trigger]
                lines_fire(data@, delimiter, next_sub_id, s, l),
        },
{
    let ends: Vec<usize> = find_line_ends(data);
    let n: usize = ends.len();
    let ghost all = columns(data@, delimiter);
    proof {
        lemma_line_ends(data@, data@.len());
        assert(ends@.map_values(|e: usize| e as int).len() == n);
        assert forall|k: int| 0 <= k < n implies #[trigger] ends@[k] == ends_of(data@)[k] by {
            assert(ends@.map_values(|e: usize| e as int)[k] == ends@[k]);
        }
    }
    if n < MIN_SCAN_ROWS {
        return None;
    }
    let mut cols: Vec<usize> = Vec::new();
    let mut k: usize = 0;
    while k < n
        invariant
            n == ends@.len(),
            n == ends_of(data@).len(),
            all == columns(data@, delimiter),
            forall|k: int| 0 <= k < n ==> #[trigger] ends@[k] == ends_of(data@)[k],
            forall|k: int|
                0 <= k < n ==> 1 <= #[trigger] ends_of(data@)[k] <= data@.len(),
            forall|j: int, k: int|
                0 <= j < k < n ==> (#[trigger] ends_of(data@)[j]) < (#[trigger] ends_of(data@)[k]),
            k <= n,
            cols@.len() == k,
            forall|j: int| 0 <= j < k ==> #[trigger] cols@[j] == all[j],
        decreases n - k,
    {
        let start: usize = if k == 0 {
            0
        } else {
            ends[k - 1]
        };
        assert(ends@[k as int] == ends_of(data@)[k as int]);
        if k > 0 {
            assert(ends_of(data@)[k - 1] < ends_of(data@)[k as int]);
        }
        assert(ends@[k as int] <= data.len());
        let count: usize = count_delimiters_quoted(&data[start..ends[k] - 1], delimiter);
        cols.push(count);
        k = k + 1;
    }
    assert(cols@.map_values(|c: usize| c as nat) =~= all);
    let (s, l) = longest_run(&cols);
    if l < MIN_SCAN_ROWS || cols[s] == 0 {
        proof {
            assert forall|s2: int, l2: int| !#[trigger] lines_fire(
                data@,
                delimiter,
                next_sub_id,
                s2,
                l2,
            ) by {
                if is_longest(all, s2, l2) {
                    lemma_longest_unique(all, s as int, l as int, s2, l2);
                }
            }
        }
        return None;
    }
    let table: Table = read_lines(data, &ends, delimiter, s, l, cols[s]);
    let from: usize = if s == 0 {
        0
    } else {
        ends[s - 1]
    };
    let to: usize = ends[s + l - 1];
    proof {
        lemma_table_stands(data@, delimiter, s as int, l as int);
    }
    let r: Option<ScanResult> = propose(&table, data, from, to, next_sub_id);
    proof {
        if r is None {
            assert forall|s2: int, l2: int| !#[trigger] lines_fire(
                data@,
                delimiter,
                next_sub_id,
                s2,
                l2,
            ) by {
                if is_longest(all, s2, l2) {
                    lemma_longest_unique(all, s as int, l as int, s2, l2);
                }
            }
        } else {
            assert(lines_fire(data@, delimiter, next_sub_id, s as int, l as int));
        }
    }
    r
}

/// Returns whether all of the lines end in a carriage return and a line feed.
fn all_end_in_crlf(data: &[u8], ends: &Vec<usize>, d: u8, s: usize, l: usize) -> (r: bool)
    requires
        ends@.map_values(|e: usize| e as int) == ends_of(data@),
        s + l <= ends@.len(),
    ensures
        r == ends_in_crlf(data@, d, s as int, l as int),
{
    if d == 13 {
        return false;
    }
    proof {
        lemma_line_ends(data@, data@.len());
        assert forall|k: int| 0 <= k < ends@.len() implies #[trigger] ends@[k] == ends_of(
            data@,
        )[k] by {
            assert(ends@.map_values(|e: usize| e as int)[k] == ends@[k]);
        }
        assert(ends@.map_values(|e: usize| e as int).len() == ends@.len());
    }
    let mut r: usize = 0;
    while r < l
        invariant
            r <= l,
            s + l <= ends.len(),
            ends@.len() == ends_of(data@).len(),
            forall|k: int| 0 <= k < ends@.len() ==> #[trigger] ends@[k] == ends_of(data@)[k],
            forall|k: int|
                0 <= k < ends@.len() ==> 1 <= #[trigger] ends_of(data@)[k] <= data@.len(),
            forall|j: int, k: int|
                0 <= j < k < ends@.len() ==> (#[trigger] ends_of(data@)[j]) < (#[trigger] ends_of(
                    data@,
                )[k]),
            forall|k: int|
                s <= k < s + r ==> (#[trigger] line_body(data@, k)).len() > 0 && line_body(
                    data@,
                    k,
                ).last() == 13,
        decreases l - r,
    {
        let k: usize = s + r;
        let start: usize = if k == 0 {
            0
        } else {
            ends[k - 1]
        };
        assert(ends@[k as int] == ends_of(data@)[k as int]);
        if k > 0 {
            assert(ends_of(data@)[k - 1] < ends_of(data@)[k as int]);
        }
        let ghost body = line_body(data@, k as int);
        assert(body.len() == ends@[k as int] - 1 - start);
        if ends[k] - 1 == start || data[ends[k] - 2] != 13 {
            assert(body.len() == 0 || body.last() != 13);
            return false;
        }
        r = r + 1;
    }
    true
}

/// Reads the `l` lines from line `s` on into a table of `width + 1` fields.
fn read_lines(
    data: &[u8],
    ends: &Vec<usize>,
    d: u8,
    s: usize,
    l: usize,
    width: usize,
) -> (t: Table)
    requires
        ends@.map_values(|e: usize| e as int) == ends_of(data@),
        s + l <= ends@.len(),
        s < ends@.len(),
        width == columns(data@, d)[s as int],
    ensures
        t@ == lines_table(data@, d, s as int, l as int),
{
    let ghost goal = lines_table(data@, d, s as int, l as int);
    proof {
        lemma_line_ends(data@, data@.len());
        assert forall|k: int| 0 <= k < ends@.len() implies #[trigger] ends@[k] == ends_of(
            data@,
        )[k] by {
            assert(ends@.map_values(|e: usize| e as int)[k] == ends@[k]);
        }
        assert(ends@.map_values(|e: usize| e as int).len() == ends@.len());
    }
    let mut between: Vec<Vec<u8>> = Vec::new();
    let mut c: usize = 0;
    while c < width
        invariant
            c <= width,
            between@.len() == c,
            forall|j: int| 0 <= j < c ==> (#[trigger] between@[j])@ == seq![d],
        decreases width - c,
    {
        let mut sep: Vec<u8> = Vec::new();
        sep.push(d);
        assert(sep@ =~= seq![d]);
        between.push(sep);
        c = c + 1;
    }
    let crlf: bool = all_end_in_crlf(data, ends, d, s, l);
    let mut close: Vec<u8> = Vec::new();
    if crlf {
        close.push(13);
    }
    close.push(10);
    assert(close@ =~= line_end(crlf));
    let mut rows: Vec<Vec<Vec<u8>>> = Vec::new();
    let mut r: usize = 0;
    while r < l
        invariant
            r <= l,
            s + l <= ends.len(),
            ends@.len() == ends_of(data@).len(),
            goal == lines_table(data@, d, s as int, l as int),
            crlf == ends_in_crlf(data@, d, s as int, l as int),
            forall|k: int| 0 <= k < ends@.len() ==> #[trigger] ends@[k] == ends_of(data@)[k],
            forall|k: int|
                0 <= k < ends@.len() ==> 1 <= #[trigger] ends_of(data@)[k] <= data@.len(),
            forall|j: int, k: int|
                0 <= j < k < ends@.len() ==> (#[trigger] ends_of(data@)[j]) < (#[trigger] ends_of(
                    data@,
                )[k]),
            rows@.len() == r,
            forall|j: int| 0 <= j < r ==> fields_of((#[trigger] rows@[j])@) == goal.rows[j],
        decreases l - r,
    {
        let k: usize = s + r;
        let start: usize = if k == 0 {
            0
        } else {
            ends[k - 1]
        };
        assert(ends@[k as int] == ends_of(data@)[k as int]);
        if k > 0 {
            assert(ends_of(data@)[k - 1] < ends_of(data@)[k as int]);
        }
        assert(ends@[k as int] <= data.len());
        let mut end: usize = ends[k] - 1;
        if crlf {
            assert(line_body(data@, k as int).len() > 0);
            end = end - 1;
        }
        let text: &[u8] = &data[start..end];
        assert(text@ =~= line_text(data@, k as int, crlf));
        rows.push(split_fields_quoted_raw(text, d));
        r = r + 1;
    }
    let t: Table = Table { lead: Vec::new(), between, close, rows };
    assert(t@.lead =~= goal.lead);
    assert(t@.between =~= goal.between);
    assert(t@.close =~= goal.close);
    assert(t@.rows =~= goal.rows);
    t
}

} // verus!
