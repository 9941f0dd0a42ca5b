//! What of a table stands in the template and what in the scan, and which reading of
//! data is taken.

use vstd::prelude::*;
use crate::synth::delimited::{line_start, lines_fire, lines_table};
use crate::synth::draft::Draft;
use crate::synth::json::{objects_fire, objects_table, run_fires};
use crate::synth::rewrite::{is_scanning, nothing, with_scan, PatternSynthesizer};
use crate::synth::scan::{fires, is_best_scan, looks_like_json};
use crate::synth::table::{is_split, Grid, ScanResult};
use crate::synth::token::{tok_of, toks_of};
use crate::tokens::Tok;

verus! {

/// Rows differ in column `c`.
pub open spec fn column_differs(g: Grid, c: int) -> bool {
    exists|q: int, r: int|
        0 <= q < g.rows.len() && 0 <= r < g.rows.len() && (#[trigger] g.rows[q][c]) != (
        #[trigger] g.rows[r][c])
}

/// How many of the first `c` columns differ between rows.
pub open spec fn differing(g: Grid, c: int) -> nat
    decreases c,
{
    if c <= 0 {
        0
    } else {
        differing(g, c - 1) + if column_differs(g, c - 1) {
            1nat
        } else {
            0
        }
    }
}

proof fn lemma_fixed(g: Grid, c: int)
    requires
        g.rows.len() >= 1,
    ensures
        g.is_fixed(c) <==> !column_differs(g, c),
{
    if g.is_fixed(c) && column_differs(g, c) {
        let (q, r) = choose|q: int, r: int|
            0 <= q < g.rows.len() && 0 <= r < g.rows.len() && (#[trigger] g.rows[q][c]) != (
            #[trigger] g.rows[r][c]);
        assert(g.rows[q][c] == g.rows[0][c]);
        assert(g.rows[r][c] == g.rows[0][c]);
    }
    if !g.is_fixed(c) {
        let r = choose|r: int| 0 <= r < g.rows.len() && (#[trigger] g.rows[r])[c] != g.rows[0][c];
        assert(g.rows[r][c] != g.rows[0][c]);
    }
}

proof fn lemma_template_from(g: Grid, c: int, k: int)
    requires
        0 <= c <= k < g.width(),
    ensures
        g.template_from(c).len() == 2 * (g.width() - c),
        g.template_from(c)[2 * (k - c)] == g.cell_tok(k),
        g.template_from(c)[2 * (k - c) + 1] == (Tok::Lit {
            data: if k < g.width() - 1 {
                g.between[k]
            } else {
                g.close
            },
        }),
    decreases g.width() - c,
{
    let here = g.template_from(c);
    if c < g.width() - 1 {
        let rest = g.template_from(c + 1);
        lemma_template_from(g, c + 1, if k > c {
            k
        } else {
            c + 1
        });
        assert(here.len() == 2 + rest.len());
        if k > c {
            assert(here[2 * (k - c)] == rest[2 * (k - c) - 2]);
            assert(here[2 * (k - c) + 1] == rest[2 * (k - c) - 1]);
        }
    }
}

/// The template of a table writes one row: what stands before the first field, and
/// then each field and what stands behind it. A column that is the same in all rows
/// stands in the template, and in no other place; one that differs is taken from the
/// scan.
pub proof fn templates_hold_what_does_not_differ(g: Grid, c: int)
    requires
        g.rows.len() >= 1,
        0 <= c < g.width(),
    ensures
        ({
            let t = g.template();
            let at = g.lead.len() + 2 * c;
            &&& t.len() == g.lead.len() + 2 * g.width()
            &&& forall|i: int|
                0 <= i < g.lead.len() ==> #[trigger] t[i] == (Tok::Lit { data: g.lead[i] })
            &&& column_differs(g, c) ==> t[at] == Tok::Next
            &&& !column_differs(g, c) ==> t[at] == (Tok::Lit { data: g.rows[0][c] })
            &&& c < g.width() - 1 ==> t[at + 1] == (Tok::Lit { data: g.between[c] })
            &&& c == g.width() - 1 ==> t[at + 1] == (Tok::Lit { data: g.close })
        }),
{
    lemma_fixed(g, c);
    lemma_template_from(g, 0, c);
    let lead = g.lead.map_values(|b: Seq<u8>| Tok::Lit { data: b });
    let t = g.template();
    assert(lead.len() == g.lead.len());
    assert(t[g.lead.len() + 2 * c] == g.template_from(0)[2 * c]);
    assert(t[g.lead.len() + 2 * c + 1] == g.template_from(0)[2 * c + 1]);
}

proof fn lemma_differing(g: Grid, c: int)
    requires
        0 <= c <= g.width(),
    ensures
        differing(g, c) <= differing(g, g.width() as int),
    decreases g.width() - c,
{
    if c < g.width() {
        lemma_differing(g, c + 1);
    }
}

proof fn lemma_varying(g: Grid, row: Seq<Seq<u8>>, c: int, k: int)
    requires
        g.rows.len() >= 1,
        0 <= c <= g.width(),
        c <= k < g.width() || c == g.width(),
    ensures
        g.varying_from(row, c).len() == differing(g, g.width() as int) - differing(g, c),
        c <= k < g.width() && column_differs(g, k) ==> differing(g, k) >= differing(g, c) && differing(
            g,
            k,
        ) - differing(g, c) < g.varying_from(row, c).len() && g.varying_from(row, c)[differing(g, k)
            - differing(g, c)] == row[k],
    decreases g.width() - c,
{
    if c < g.width() {
        lemma_fixed(g, c);
        lemma_differing(g, c + 1);
        let next = if k > c {
            k
        } else {
            c + 1
        };
        lemma_varying(g, row, c + 1, next);
        let here = g.varying_from(row, c);
        let rest = g.varying_from(row, c + 1);
        assert(differing(g, c + 1) == differing(g, c) + if column_differs(g, c) {
            1nat
        } else {
            0
        });
        if column_differs(g, c) {
            assert(here =~= seq![row[c]] + rest);
        }
    }
}

proof fn lemma_params(g: Grid, r: int, q: int)
    requires
        g.rows.len() >= 1,
        0 <= r <= q < g.rows.len(),
    ensures
        ({
            let v = differing(g, g.width() as int);
            &&& g.params_from(r).len() == (g.rows.len() - r) * v
            &&& (q - r) * v + v <= g.params_from(r).len()
            &&& 0 <= (q - r) * v
            &&& g.params_from(r).subrange((q - r) * v, (q - r) * v + v) == g.varying_from(
                g.rows[q],
                0,
            )
        }),
    decreases g.rows.len() - r,
{
    let v = differing(g, g.width() as int) as int;
    let n = g.rows.len() as int;
    lemma_varying(g, g.rows[r], 0, 0);
    lemma_varying(g, g.rows[q], 0, 0);
    assert(g.width() >= 1);
    let here = g.params_from(r);
    let row = g.varying_from(g.rows[r], 0);
    let rest = g.params_from(r + 1);
    assert(here =~= row + rest);
    if r + 1 < n {
        lemma_params(g, r + 1, if q > r {
            q
        } else {
            r + 1
        });
    }
    assert((n - r) * v == v + (n - r - 1) * v) by (nonlinear_arith);
    assert(rest.len() == (n - r - 1) * v) by {
        if r + 1 == n {
            assert(rest =~= Seq::empty());
            assert((n - r - 1) * v == 0) by (nonlinear_arith)
                requires
                    r + 1 == n,
            ;
        }
    }
    assert(0 <= (q - r) * v && (q - r) * v + v <= (n - r) * v) by (nonlinear_arith)
        requires
            0 <= q - r < n - r,
            v >= 0,
    ;
    if q == r {
        assert((q - r) * v == 0) by (nonlinear_arith)
            requires
                q == r,
        ;
        assert(here.subrange(0, v) =~= row);
    } else {
        let a = (q - r - 1) * v;
        assert((q - r) * v == a + v) by (nonlinear_arith)
            requires
                a == (q - r - 1) * v,
        ;
        assert(0 <= a && a + v <= rest.len());
        assert(here.subrange(a + v, a + v + v) =~= rest.subrange(a, a + v));
    }
}

/// A scan runs once for each row and takes, row by row, the fields of the columns
/// that differ, in their order, and no others.
pub proof fn scans_take_what_differs(g: Grid, id: u32, r: int, c: int)
    requires
        g.rows.len() >= 1,
        0 <= r < g.rows.len(),
        0 <= c < g.width(),
    ensures
        ({
            let v = differing(g, g.width() as int);
            &&& g.scan(id) matches Tok::Scan { count, template, params } && count == g.rows.len()
                && template == id && params.len() == g.rows.len() * v && (column_differs(g, c)
                ==> r * v + differing(g, c) < params.len() && params[r * v + differing(g, c)]
                == g.rows[r][c])
        }),
{
    let v = differing(g, g.width() as int) as int;
    lemma_params(g, 0, r);
    lemma_varying(g, g.rows[r], 0, c);
    assert((g.rows.len() - 0) * v == g.rows.len() * v);
    if column_differs(g, c) {
        let part = g.params_from(0).subrange(r * v, r * v + v);
        assert(part == g.varying_from(g.rows[r], 0));
        let k = differing(g, c) as int;
        assert(part[k] == g.params_from(0)[r * v + k]);
    }
}

/// Data is read as JSON objects first, where it starts like them, then as fields
/// delimited by commas, by tabs and by pipes: it has a table if one of these readings
/// has one, and what is taken is the first.
pub proof fn readings_are_tried_in_order(
    found: ScanResult,
    data: Seq<u8>,
    id: u32,
    d: u8,
    s: int,
    l: int,
)
    requires
        lines_fire(data, d, id, s, l),
        d == 0x2C || d == 0x09 || d == 0x7C,
    ensures
        fires(data, id),
        is_best_scan(found, data, id) && !(looks_like_json(data) && objects_fire(data, id)) && (d
            == 0x2C || forall|a: int, b: int| !#[trigger] lines_fire(data, 0x2C, id, a, b)) && (d
            != 0x7C || forall|a: int, b: int| !#[trigger] lines_fire(data, 0x09, id, a, b))
            ==> is_split(
            found,
            lines_table(data, d, s, l),
            data,
            line_start(data, s),
            line_start(data, s + l),
            id,
        ),
{
}

/// JSON objects that become a scan are taken, where the data starts like them.
pub proof fn objects_are_tried_first(
    found: ScanResult,
    data: Seq<u8>,
    id: u32,
    s: int,
    l: int,
)
    requires
        looks_like_json(data),
        run_fires(data, id, s, l),
    ensures
        fires(data, id),
        is_best_scan(found, data, id) ==> is_split(
            found,
            objects_table(data, s, l),
            data,
            line_start(data, s),
            line_start(data, s + l),
            id,
        ),
{
}

/// What is found of a table puts the data together again: what stands before it, the
/// rows, and what stands behind it.
pub proof fn splits_lose_nothing(
    found: ScanResult,
    g: Grid,
    data: Seq<u8>,
    from: int,
    to: int,
    id: u32,
)
    requires
        is_split(found, g, data, from, to, id),
    ensures
        found.prefix@ + g.bytes() + found.suffix@ == data,
        tok_of(found.scan_tok) == g.scan(id),
        toks_of(found.template@) == g.template(),
{
    assert(found.prefix@ + g.bytes() + found.suffix@ =~= data);
}

/// With scans enabled, data that has a table becomes a program with a scan, and what
/// is left over at the end has none.
pub proof fn tables_become_scans(s: &PatternSynthesizer, data: Seq<u8>, b: Draft)
    requires
        s.is_scanned(data, b),
        s.enable_scan,
        fires(data, 0),
        data.len() > 0,
    ensures
        exists|i: int| 0 <= i < b.toks.len() && #[trigger] b.toks[i] is Scan,
{
    let found = choose|found: ScanResult| #[trigger]
        is_best_scan(found, data, 0) && found.suffix@.len() < data.len() && is_scanning(
            found.suffix@,
            with_scan(nothing(), found),
            b,
        );
    let now = with_scan(nothing(), found);
    let k = now.toks.len() - 1;
    assert(now.toks[k] == tok_of(found.scan_tok));
    assert(tok_of(found.scan_tok) is Scan);
    lemma_scanning_keeps(found.suffix@, now, b);
    assert(b.toks[k] is Scan);
}

proof fn lemma_scanning_keeps(data: Seq<u8>, a: Draft, b: Draft)
    requires
        is_scanning(data, a, b),
    ensures
        a.toks.len() <= b.toks.len(),
        forall|i: int| 0 <= i < a.toks.len() ==> #[trigger] b.toks[i] == a.toks[i],
    decreases data.len(),
{
    if data.len() > 0 && a.next < u32::MAX && fires(data, a.next as u32) {
        let found = choose|found: ScanResult| #[trigger]
            is_best_scan(found, data, a.next as u32) && found.suffix@.len() < data.len()
                && is_scanning(found.suffix@, with_scan(a, found), b);
        let now = with_scan(a, found);
        lemma_scanning_keeps(found.suffix@, now, b);
        assert forall|i: int| 0 <= i < a.toks.len() implies #[trigger] b.toks[i] == a.toks[i] by {
            assert(b.toks[i] == now.toks[i]);
            assert(now.toks[i] == a.toks[i]);
        }
    }
}

} // verus!
