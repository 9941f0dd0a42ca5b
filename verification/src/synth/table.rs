//! Tables: blocks of rows with the same separators, written as one macro for
//! the row and a list of the fields that vary.

use vstd::prelude::*;
use crate::bytes::{copy_of, same};
use crate::leb::{leb_bytes, leb_read_undoes_write, leb_size, lemma_leb_bytes};
use crate::machine::{next_step, operand, repeat, step, Env, State, MAX_OUTPUT_BYTES};
use crate::synth::token::{
    capped, fields_of, leb_len, lemma_toks_of_push, low_bits, tok_of, tokens_size, toks_of,
    SynthToken,
};
use crate::tokens::{
    all_fit, appends, fits, instr_of, lemma_toks_one, lemma_toks_run_concat, lo32, param_bytes,
    running_code_is_running_tokens, size_is_exact, tok_size, toks_bytes, toks_run, toks_size,
    with_output, Tok,
};

verus! {

/// The fewest rows of a table.
pub const MIN_SCAN_ROWS: usize = 10;

/// A literal with a table in it: what comes before the table, the scan that
/// writes the table, the macro that writes one row, and what comes after.
pub struct ScanResult {
    pub prefix: Vec<u8>,
    pub scan_tok: SynthToken,
    pub template: Vec<SynthToken>,
    pub suffix: Vec<u8>,
}

/// Rows of fields: each row starts with the blocks `lead`, has `between` its
/// fields, and ends with `close`.
pub struct Table {
    pub lead: Vec<Vec<u8>>,
    pub between: Vec<Vec<u8>>,
    pub close: Vec<u8>,
    pub rows: Vec<Vec<Vec<u8>>>,
}

/// A table as mathematics.
#[verifier::ext_equal]
pub struct Grid {
    pub lead: Seq<Seq<u8>>,
    pub between: Seq<Seq<u8>>,
    pub close: Seq<u8>,
    pub rows: Seq<Seq<Seq<u8>>>,
}

/// The fields of rows.
pub open spec fn rows_of(rows: Seq<Vec<Vec<u8>>>) -> Seq<Seq<Seq<u8>>> {
    rows.map_values(|r: Vec<Vec<u8>>| fields_of(r@))
}

impl View for Table {
    type V = Grid;

    open spec fn view(&self) -> Grid {
        Grid {
            lead: fields_of(self.lead@),
            between: fields_of(self.between@),
            close: self.close@,
            rows: rows_of(self.rows@),
        }
    }
}

/// Blocks one behind the other.
pub open spec fn flat(blocks: Seq<Seq<u8>>) -> Seq<u8>
    decreases blocks.len(),
{
    if blocks.len() == 0 {
        Seq::empty()
    } else {
        flat(blocks.drop_last()) + blocks.last()
    }
}

impl Grid {
    /// How many fields a row has.
    pub open spec fn width(self) -> nat {
        self.between.len() + 1
    }

    /// Every row has as many fields as the separators ask for, and rows are not
    /// empty.
    pub open spec fn wf(self) -> bool {
        &&& self.rows.len() >= 1
        &&& forall|r: int| 0 <= r < self.rows.len() ==> (#[trigger] self.rows[r]).len()
            == self.width()
        &&& self.close.len() >= 1
    }

    /// A row from field `c` on.
    pub open spec fn row_from(self, row: Seq<Seq<u8>>, c: int) -> Seq<u8>
        decreases self.width() - c,
    {
        if c >= self.width() - 1 {
            row[c] + self.close
        } else {
            row[c] + self.between[c] + self.row_from(row, c + 1)
        }
    }

    /// A row.
    pub open spec fn row_bytes(self, row: Seq<Seq<u8>>) -> Seq<u8> {
        flat(self.lead) + self.row_from(row, 0)
    }

    /// The first `n` rows.
    pub open spec fn text(self, n: nat) -> Seq<u8>
        decreases n,
    {
        if n == 0 {
            Seq::empty()
        } else {
            self.text((n - 1) as nat) + self.row_bytes(self.rows[n - 1])
        }
    }

    /// The whole table.
    pub open spec fn bytes(self) -> Seq<u8> {
        self.text(self.rows.len())
    }

    /// All rows have the same field `c`.
    pub open spec fn is_fixed(self, c: int) -> bool {
        forall|r: int| 0 <= r < self.rows.len() ==> (#[trigger] self.rows[r])[c] == self.rows[0][c]
    }

    /// Some field varies.
    pub open spec fn varies(self) -> bool {
        exists|c: int| 0 <= c < self.width() && !self.is_fixed(c)
    }

    /// The instruction for field `c`: itself if it is the same in all rows, else
    /// the next field of the scan.
    pub open spec fn cell_tok(self, c: int) -> Tok {
        if self.is_fixed(c) {
            Tok::Lit { data: self.rows[0][c] }
        } else {
            Tok::Next
        }
    }

    /// The instructions for a row from field `c` on.
    pub open spec fn template_from(self, c: int) -> Seq<Tok>
        decreases self.width() - c,
    {
        if c >= self.width() - 1 {
            seq![self.cell_tok(c), Tok::Lit { data: self.close }]
        } else {
            seq![self.cell_tok(c), Tok::Lit { data: self.between[c] }] + self.template_from(c + 1)
        }
    }

    /// The instructions for a row.
    pub open spec fn template(self) -> Seq<Tok> {
        self.lead.map_values(|b: Seq<u8>| Tok::Lit { data: b }) + self.template_from(0)
    }

    /// The fields of a row from field `c` on that vary.
    pub open spec fn varying_from(self, row: Seq<Seq<u8>>, c: int) -> Seq<Seq<u8>>
        decreases self.width() - c,
    {
        if c >= self.width() {
            Seq::empty()
        } else if self.is_fixed(c) {
            self.varying_from(row, c + 1)
        } else {
            seq![row[c]] + self.varying_from(row, c + 1)
        }
    }

    /// The fields of the rows from `r` on that vary.
    pub open spec fn params_from(self, r: int) -> Seq<Seq<u8>>
        decreases self.rows.len() - r,
    {
        if r < 0 || r >= self.rows.len() {
            Seq::empty()
        } else {
            self.varying_from(self.rows[r], 0) + self.params_from(r + 1)
        }
    }

    /// The scan that writes the table.
    pub open spec fn scan(self, id: u32) -> Tok {
        Tok::Scan { count: self.rows.len(), template: id, params: self.params_from(0) }
    }
}

/// The first size is smaller, as far as a `usize` can tell.
pub open spec fn shorter(a: nat, b: nat) -> bool {
    capped(a) < capped(b)
}

/// The literal, if it is not empty.
pub open spec fn lit_or_nothing(data: Seq<u8>) -> Seq<Tok> {
    if data.len() == 0 {
        Seq::empty()
    } else {
        seq![Tok::Lit { data }]
    }
}

/// Writing the rows from `from` to `to` of a literal as a table pays off: the
/// scan and its macro are shorter than the rows, and the whole gets shorter.
pub open spec fn pays_off(g: Grid, data: Seq<u8>, from: int, to: int, id: u32) -> bool {
    let cost = 4 + toks_size(g.template()) + tok_size(g.scan(id));
    &&& shorter(cost, tok_size(Tok::Lit { data: data.subrange(from, to) }))
    &&& shorter(
        toks_size(lit_or_nothing(data.take(from))) + cost + toks_size(
            lit_or_nothing(data.skip(to)),
        ),
        tok_size(Tok::Lit { data }),
    )
}

/// The table stands from `from` to `to` in the data.
pub open spec fn stands(g: Grid, data: Seq<u8>, from: int, to: int) -> bool {
    &&& g.wf()
    &&& 0 <= from <= to <= data.len()
    &&& data.subrange(from, to) == g.bytes()
}

/// The result splits the data around the table.
pub open spec fn is_split(
    r: ScanResult,
    g: Grid,
    data: Seq<u8>,
    from: int,
    to: int,
    id: u32,
) -> bool {
    &&& stands(g, data, from, to)
    &&& r.prefix@ == data.take(from)
    &&& r.suffix@ == data.skip(to)
    &&& tok_of(r.scan_tok) == g.scan(id)
    &&& toks_of(r.template@) == g.template()
}

/// Returns whether all rows have the same field `c`.
fn column_is_fixed(t: &Table, c: usize) -> (r: bool)
    requires
        t@.wf(),
        c < t@.width(),
    ensures
        r == t@.is_fixed(c as int),
{
    let ghost g = t@;
    let mut r: usize = 0;
    while r < t.rows.len()
        invariant
            g == t@,
            g.wf(),
            c < g.width(),
            r <= t.rows@.len(),
            forall|q: int| 0 <= q < r ==> (#[trigger] g.rows[q])[c as int] == g.rows[0][c as int],
        decreases t.rows.len() - r,
    {
        assert(g.rows[r as int].len() == g.width());
        assert(g.rows[0].len() == g.width());
        assert(g.rows[r as int] == fields_of(t.rows@[r as int]@));
        assert(g.rows[0] == fields_of(t.rows@[0]@));
        if !same(t.rows[r][c].as_slice(), t.rows[0][c].as_slice()) {
            assert(g.rows[r as int][c as int] != g.rows[0][c as int]);
            return false;
        }
        r = r + 1;
    }
    true
}

/// Which fields are the same in all rows.
fn fixed_columns(t: &Table) -> (fixed: Vec<bool>)
    requires
        t@.wf(),
    ensures
        fixed@.len() == t@.width(),
        forall|c: int| 0 <= c < t@.width() ==> #[trigger] fixed@[c] == t@.is_fixed(c),
{
    let mut fixed: Vec<bool> = Vec::new();
    let ghost g = t@;
    assert(g.rows[0] == fields_of(t.rows@[0]@));
    assert(g.rows[0].len() == g.width());
    let width: usize = t.rows[0].len();
    let mut c: usize = 0;
    while c < width
        invariant
            g == t@,
            g.wf(),
            width == g.width(),
            c <= width,
            fixed@.len() == c,
            forall|d: int| 0 <= d < c ==> #[trigger] fixed@[d] == g.is_fixed(d),
        decreases width - c,
    {
        let f: bool = column_is_fixed(t, c);
        fixed.push(f);
        c = c + 1;
    }
    fixed
}

/// Returns the instructions for a row.
fn build_template(t: &Table, fixed: &Vec<bool>) -> (out: Vec<SynthToken>)
    requires
        t@.wf(),
        fixed@.len() == t@.width(),
        forall|c: int| 0 <= c < t@.width() ==> #[trigger] fixed@[c] == t@.is_fixed(c),
    ensures
        toks_of(out@) == t@.template(),
{
    let mut out: Vec<SynthToken> = Vec::new();
    let ghost g = t@;
    let ghost leads = g.lead.map_values(|b: Seq<u8>| Tok::Lit { data: b });
    assert(toks_of(out@) =~= leads.take(0));
    let mut i: usize = 0;
    while i < t.lead.len()
        invariant
            i <= t.lead@.len(),
            g == t@,
            leads == g.lead.map_values(|b: Seq<u8>| Tok::Lit { data: b }),
            toks_of(out@) == leads.take(i as int),
        decreases t.lead.len() - i,
    {
        let tok: SynthToken = SynthToken::Lit { data: copy_of(t.lead[i].as_slice()) };
        proof {
            lemma_toks_of_push(out@, tok);
            assert(leads.take(i + 1) =~= leads.take(i as int).push(tok_of(tok)));
        }
        out.push(tok);
        i = i + 1;
    }
    assert(leads.take(i as int) =~= leads);
    assert(g.rows[0] == fields_of(t.rows@[0]@));
    assert(g.rows[0].len() == g.width());
    let width: usize = fixed.len();
    let mut c: usize = 0;
    assert(leads + g.template_from(0) == g.template());
    while c < width
        invariant
            g == t@,
            g.wf(),
            width == g.width(),
            width == fixed@.len(),
            g.rows[0] == fields_of(t.rows@[0]@),
            g.rows[0].len() == g.width(),
            forall|c: int| 0 <= c < g.width() ==> #[trigger] fixed@[c] == g.is_fixed(c),
            c <= width,
            c < width ==> toks_of(out@) + g.template_from(c as int) == g.template(),
            c == width ==> toks_of(out@) == g.template(),
        decreases width - c,
    {
        let ghost before = toks_of(out@);
        let cell: SynthToken = if fixed[c] {
            SynthToken::Lit { data: copy_of(t.rows[0][c].as_slice()) }
        } else {
            SynthToken::Next
        };
        assert(tok_of(cell) == g.cell_tok(c as int));
        proof {
            lemma_toks_of_push(out@, cell);
        }
        out.push(cell);
        let sep: SynthToken = if c + 1 < width {
            SynthToken::Lit { data: copy_of(t.between[c].as_slice()) }
        } else {
            SynthToken::Lit { data: copy_of(t.close.as_slice()) }
        };
        proof {
            lemma_toks_of_push(out@, sep);
        }
        out.push(sep);
        proof {
            let two = seq![tok_of(cell), tok_of(sep)];
            assert(toks_of(out@) =~= before + two);
            if c + 1 < width {
                assert(toks_of(out@) + g.template_from(c + 1) =~= before + (two + g.template_from(
                    c + 1,
                )));
            }
        }
        c = c + 1;
    }
    out
}

/// Returns the fields that vary, row by row.
fn build_params(t: &Table, fixed: &Vec<bool>) -> (params: Vec<Vec<u8>>)
    requires
        t@.wf(),
        fixed@.len() == t@.width(),
        forall|c: int| 0 <= c < t@.width() ==> #[trigger] fixed@[c] == t@.is_fixed(c),
    ensures
        fields_of(params@) == t@.params_from(0),
{
    let ghost g = t@;
    let mut params: Vec<Vec<u8>> = Vec::new();
    let width: usize = fixed.len();
    assert(fields_of(params@) + g.params_from(0) =~= g.params_from(0));
    let mut r: usize = 0;
    while r < t.rows.len()
        invariant
            g == t@,
            g.wf(),
            width == g.width(),
            width == fixed@.len(),
            forall|c: int| 0 <= c < g.width() ==> #[trigger] fixed@[c] == g.is_fixed(c),
            r <= t.rows@.len(),
            fields_of(params@) + g.params_from(r as int) == g.params_from(0),
        decreases t.rows.len() - r,
    {
        let ghost row = g.rows[r as int];
        let ghost rest = g.params_from(r + 1);
        assert(row == fields_of(t.rows@[r as int]@));
        assert(row.len() == g.width());
        assert(g.params_from(r as int) == g.varying_from(row, 0) + rest);
        assert(fields_of(params@) + g.varying_from(row, 0) + rest =~= fields_of(params@) + (
        g.varying_from(row, 0) + rest));
        let mut c: usize = 0;
        while c < width
            invariant
                g == t@,
                g.wf(),
                width == g.width(),
                width == fixed@.len(),
                forall|c: int| 0 <= c < g.width() ==> #[trigger] fixed@[c] == g.is_fixed(c),
                r < t.rows@.len(),
                row == fields_of(t.rows@[r as int]@),
                row.len() == width,
                c <= width,
                fields_of(params@) + g.varying_from(row, c as int) + rest == g.params_from(0),
            decreases width - c,
        {
            if !fixed[c] {
                let ghost before = fields_of(params@);
                let ghost tail = g.varying_from(row, c + 1);
                params.push(copy_of(t.rows[r][c].as_slice()));
                proof {
                    assert(fields_of(params@) =~= before.push(row[c as int]));
                    assert(before + (seq![row[c as int]] + tail) + rest =~= before.push(
                        row[c as int],
                    ) + tail + rest);
                }
            }
            c = c + 1;
        }
        assert(fields_of(params@) + Seq::<Seq<u8>>::empty() + rest =~= fields_of(params@) + rest);
        r = r + 1;
    }
    assert(fields_of(params@) + Seq::<Seq<u8>>::empty() =~= fields_of(params@));
    params
}

/// Returns the size of a literal of `n` bytes.
fn literal_size(n: usize) -> (size: usize)
    ensures
        forall|data: Seq<u8>| data.len() == n ==> size == capped(
            #[trigger] tok_size(Tok::Lit { data }),
        ),
{
    n.saturating_add(1 + leb_len(low_bits(n)))
}

/// Returns the size of a literal of `n` bytes, or of nothing if there are none.
fn lit_cost(n: usize) -> (size: usize)
    ensures
        forall|data: Seq<u8>| data.len() == n ==> size == capped(
            #[trigger] toks_size(lit_or_nothing(data)),
        ),
{
    proof {
        assert forall|data: Seq<u8>| data.len() == n && n > 0 implies #[trigger] toks_size(
            lit_or_nothing(data),
        ) == tok_size(Tok::Lit { data }) by {
            lemma_toks_one(Tok::Lit { data });
        }
    }
    if n == 0 {
        0
    } else {
        literal_size(n)
    }
}

/// Splits the data around a table, if that pays off.
pub fn propose(t: &Table, data: &[u8], from: usize, to: usize, id: u32) -> (r: Option<ScanResult>)
    requires
        stands(t@, data@, from as int, to as int),
    ensures
        match r {
            Some(s) => t@.varies() && pays_off(t@, data@, from as int, to as int, id) && is_split(
                s,
                t@,
                data@,
                from as int,
                to as int,
                id,
            ),
            None => !(t@.varies() && pays_off(t@, data@, from as int, to as int, id)),
        },
{
    let fixed: Vec<bool> = fixed_columns(t);
    let mut any: bool = false;
    let mut c: usize = 0;
    while c < fixed.len()
        invariant
            c <= fixed@.len(),
            fixed@.len() == t@.width(),
            forall|c: int| 0 <= c < t@.width() ==> #[trigger] fixed@[c] == t@.is_fixed(c),
            any ==> t@.varies(),
            !any ==> forall|d: int| 0 <= d < c ==> #[trigger] t@.is_fixed(d),
        decreases fixed.len() - c,
    {
        if !fixed[c] {
            assert(!t@.is_fixed(c as int));
            any = true;
        }
        c = c + 1;
    }
    if !any {
        return None;
    }
    let template: Vec<SynthToken> = build_template(t, &fixed);
    let params: Vec<Vec<u8>> = build_params(t, &fixed);
    let scan_tok: SynthToken = SynthToken::Scan {
        count: t.rows.len(),
        template_id: id,
        params,
    };
    assert(tok_of(scan_tok) == t@.scan(id));
    let cost: usize = tokens_size(&template).saturating_add(scan_tok.program_bytes()).saturating_add(
        4,
    );
    let ghost rows = Tok::Lit { data: data@.subrange(from as int, to as int) };
    if cost >= literal_size(to - from) {
        assert(!shorter(4 + toks_size(t@.template()) + tok_size(t@.scan(id)), tok_size(rows)));
        return None;
    }
    let prefix: Vec<u8> = copy_of(&data[0..from]);
    let suffix: Vec<u8> = copy_of(&data[to..data.len()]);
    assert(prefix@ =~= data@.take(from as int));
    assert(suffix@ =~= data@.skip(to as int));
    let after: usize = lit_cost(prefix.len()).saturating_add(cost).saturating_add(
        lit_cost(suffix.len()),
    );
    assert(capped(toks_size(lit_or_nothing(prefix@))) <= after);
    assert(capped(toks_size(lit_or_nothing(suffix@))) <= after);
    if after >= literal_size(data.len()) {
        assert(capped(tok_size(Tok::Lit { data: data@ })) <= after);
        return None;
    }
    assert(capped(tok_size(Tok::Lit { data: data@ })) > after);
    assert(capped(tok_size(rows)) > cost);
    Some(ScanResult { prefix, scan_tok, template, suffix })
}

/// Field lists one behind the other.
proof fn lemma_param_concat(a: Seq<Seq<u8>>, b: Seq<Seq<u8>>)
    ensures
        param_bytes(a + b) == param_bytes(a) + param_bytes(b),
    decreases b.len(),
{
    if b.len() == 0 {
        assert(a + b =~= a);
        assert(param_bytes(a) + param_bytes(b) =~= param_bytes(a));
    } else {
        lemma_param_concat(a, b.drop_last());
        assert((a + b).drop_last() =~= a + b.drop_last());
        let last = leb_bytes(lo32(b.last().len())) + b.last();
        assert(param_bytes(a) + (param_bytes(b.drop_last()) + last) =~= param_bytes(a)
            + param_bytes(b.drop_last()) + last);
    }
}

/// A field in front of others.
proof fn lemma_param_front(x: Seq<u8>, rest: Seq<Seq<u8>>)
    ensures
        param_bytes(seq![x] + rest) == leb_bytes(lo32(x.len())) + (x + param_bytes(rest)),
{
    lemma_param_concat(seq![x], rest);
    assert(seq![x].drop_last() =~= Seq::<Seq<u8>>::empty());
    let code = leb_bytes(lo32(x.len())) + x;
    assert(param_bytes(Seq::<Seq<u8>>::empty()) =~= Seq::<u8>::empty());
    assert(param_bytes(seq![x]) =~= code);
    assert(code + param_bytes(rest) =~= leb_bytes(lo32(x.len())) + (x + param_bytes(rest)));
}

/// Reading a field writes it and moves on to the next one.
#[verifier::rlimit(30)]
proof fn lemma_next(
    m: State,
    stream: Seq<u8>,
    pos: nat,
    cell: Seq<u8>,
    rest: Seq<Seq<u8>>,
) -> (end: nat)
    requires
        m.err is None,
        m.params == Some((stream, pos)),
        pos <= stream.len(),
        stream.skip(pos as int) == param_bytes(seq![cell] + rest),
        cell.len() < 0x1_0000_0000,
        m.out.len() + cell.len() <= MAX_OUTPUT_BYTES,
    ensures
        next_step(m) == (State {
            out: m.out + cell,
            params: Some((stream, end)),
            err: None,
        }),
        end <= stream.len(),
        stream.skip(end as int) == param_bytes(rest),
{
    let n = cell.len();
    let tail = cell + param_bytes(rest);
    lemma_param_front(cell, rest);
    leb_read_undoes_write(n as u32, tail);
    lemma_leb_bytes(n);
    let at = pos + leb_size(n);
    let end = at + n;
    assert(stream.len() == pos + leb_size(n) + tail.len());
    assert(operand(stream, pos) == Some((n as u32, at)));
    assert(stream.skip(at as int) =~= stream.skip(pos as int).skip(leb_size(n) as int));
    assert((leb_bytes(n) + tail).skip(leb_size(n) as int) =~= tail);
    assert(stream.subrange(at as int, end as int) =~= stream.skip(at as int).take(n as int));
    assert(tail.take(n as int) =~= cell);
    assert(stream.skip(end as int) =~= stream.skip(at as int).skip(n as int));
    assert(tail.skip(n as int) =~= param_bytes(rest));
    end
}

/// Running two tokens and more.
proof fn lemma_two_tokens(
    a: Tok,
    b: Tok,
    rest: Seq<Tok>,
    m: State,
    env: Env,
    depth: nat,
    active: Seq<u32>,
)
    requires
        m.err is None,
        step(instr_of(a), m, env, depth, active).err is None,
        step(
            instr_of(b),
            step(instr_of(a), m, env, depth, active),
            env,
            depth,
            active,
        ).err is None,
    ensures
        toks_run(seq![a, b] + rest, m, env, depth, active) == toks_run(
            rest,
            step(instr_of(b), step(instr_of(a), m, env, depth, active), env, depth, active),
            env,
            depth,
            active,
        ),
{
    let ts = seq![a, b] + rest;
    assert(ts.drop_first() =~= seq![b] + rest);
    assert((seq![b] + rest).drop_first() =~= rest);
    assert((seq![b] + rest)[0] == b);
    assert(ts[0] == a);
    let mid = step(instr_of(a), m, env, depth, active);
    assert(toks_run(ts, m, env, depth, active) == toks_run(
        seq![b] + rest,
        mid,
        env,
        depth,
        active,
    ));
    let end = step(instr_of(b), mid, env, depth, active);
    assert(toks_run(seq![b] + rest, mid, env, depth, active) == toks_run(
        rest,
        end,
        env,
        depth,
        active,
    ));
}

impl Grid {
    /// Running the instruction for field `c` writes the field.
    proof fn lemma_cell(
        self,
        r: int,
        c: int,
        m: State,
        stream: Seq<u8>,
        pos: nat,
        rest: Seq<Seq<u8>>,
        env: Env,
        depth: nat,
        active: Seq<u32>,
    ) -> (end: nat)
        requires
            self.wf(),
            0 <= r < self.rows.len(),
            0 <= c < self.width(),
            m.err is None,
            m.params == Some((stream, pos)),
            pos <= stream.len(),
            stream.skip(pos as int) == param_bytes(self.varying_from(self.rows[r], c) + rest),
            m.out.len() + self.rows[r][c].len() <= MAX_OUTPUT_BYTES,
        ensures
            step(instr_of(self.cell_tok(c)), m, env, depth, active) == (State {
                out: m.out + self.rows[r][c],
                params: Some((stream, end)),
                err: None,
            }),
            end <= stream.len(),
            stream.skip(end as int) == param_bytes(self.varying_from(self.rows[r], c + 1) + rest),
    {
        let row = self.rows[r];
        let more = self.varying_from(row, c + 1) + rest;
        if self.is_fixed(c) {
            assert(self.rows[r][c] == self.rows[0][c]);
            pos
        } else {
            assert(self.varying_from(row, c) + rest =~= seq![row[c]] + more);
            lemma_next(m, stream, pos, row[c], more)
        }
    }

    /// Running the instructions for a row from field `c` on writes the row and
    /// uses up its varying fields.
    #[verifier::rlimit(30)]
    proof fn lemma_fields(
        self,
        r: int,
        c: int,
        m: State,
        stream: Seq<u8>,
        pos: nat,
        rest: Seq<Seq<u8>>,
        env: Env,
        depth: nat,
        active: Seq<u32>,
    ) -> (end: nat)
        requires
            self.wf(),
            0 <= r < self.rows.len(),
            0 <= c < self.width(),
            m.err is None,
            m.params == Some((stream, pos)),
            pos <= stream.len(),
            stream.skip(pos as int) == param_bytes(self.varying_from(self.rows[r], c) + rest),
            m.out.len() + self.row_from(self.rows[r], c).len() <= MAX_OUTPUT_BYTES,
        ensures
            toks_run(self.template_from(c), m, env, depth, active) == (State {
                out: m.out + self.row_from(self.rows[r], c),
                params: Some((stream, end)),
                err: None,
            }),
            end <= stream.len(),
            stream.skip(end as int) == param_bytes(rest),
        decreases self.width() - c,
    {
        let row = self.rows[r];
        let cell = row[c];
        let last = c >= self.width() - 1;
        let sep = if last {
            self.close
        } else {
            self.between[c]
        };
        let tail = if last {
            Seq::<u8>::empty()
        } else {
            self.row_from(row, c + 1)
        };
        let back = if last {
            Seq::<Tok>::empty()
        } else {
            self.template_from(c + 1)
        };
        let a = self.cell_tok(c);
        let b = Tok::Lit { data: sep };
        assert(self.row_from(row, c) =~= cell + sep + tail);
        assert(self.template_from(c) =~= seq![a, b] + back);
        let mid = self.lemma_cell(r, c, m, stream, pos, rest, env, depth, active);
        let after = State { out: m.out + cell, params: Some((stream, mid)), err: None };
        let next = after.emit(sep);
        assert(step(instr_of(b), after, env, depth, active) == next);
        lemma_two_tokens(a, b, back, m, env, depth, active);
        if last {
            assert(self.varying_from(row, c + 1) + rest =~= rest);
            assert(m.out + cell + sep =~= m.out + self.row_from(row, c));
            mid
        } else {
            let end = self.lemma_fields(r, c + 1, next, stream, mid, rest, env, depth, active);
            assert(m.out + cell + sep + tail =~= m.out + self.row_from(row, c));
            end
        }
    }

    /// Running the instructions for a row writes the row.
    proof fn lemma_row(
        self,
        r: int,
        m: State,
        stream: Seq<u8>,
        pos: nat,
        rest: Seq<Seq<u8>>,
        env: Env,
        depth: nat,
        active: Seq<u32>,
    ) -> (end: nat)
        requires
            self.wf(),
            0 <= r < self.rows.len(),
            m.err is None,
            m.params == Some((stream, pos)),
            pos <= stream.len(),
            stream.skip(pos as int) == param_bytes(self.varying_from(self.rows[r], 0) + rest),
            m.out.len() + self.row_bytes(self.rows[r]).len() <= MAX_OUTPUT_BYTES,
        ensures
            toks_run(self.template(), m, env, depth, active) == (State {
                out: m.out + self.row_bytes(self.rows[r]),
                params: Some((stream, end)),
                err: None,
            }),
            end <= stream.len(),
            stream.skip(end as int) == param_bytes(rest),
    {
        let leads = self.lead.map_values(|b: Seq<u8>| Tok::Lit { data: b });
        let mid = State { out: m.out + flat(self.lead), ..m };
        lemma_leads(self.lead, m, env, depth, active);
        lemma_toks_run_concat(leads, self.template_from(0), m, env, depth, active);
        let end = self.lemma_fields(r, 0, mid, stream, pos, rest, env, depth, active);
        assert(m.out + flat(self.lead) + self.row_from(self.rows[r], 0) =~= m.out
            + self.row_bytes(self.rows[r]));
        end
    }

    /// Running the instructions for a row `n` times writes the first `n` rows.
    proof fn lemma_rows(
        self,
        n: nat,
        m: State,
        stream: Seq<u8>,
        env: Env,
        depth: nat,
        active: Seq<u32>,
    ) -> (end: nat)
        requires
            self.wf(),
            n <= self.rows.len(),
            all_fit(self.template()),
            m.err is None,
            m.params == Some((stream, 0nat)),
            stream == param_bytes(self.params_from(0)),
            m.out.len() + self.text(n).len() <= MAX_OUTPUT_BYTES,
        ensures
            repeat(toks_bytes(self.template()), n, m, env, depth, active) == (State {
                out: m.out + self.text(n),
                params: Some((stream, end)),
                err: None,
            }),
            end <= stream.len(),
            stream.skip(end as int) == param_bytes(self.params_from(n as int)),
        decreases n,
    {
        if n == 0 {
            assert(m.out + self.text(0) =~= m.out);
            assert(stream.skip(0) =~= stream);
            0
        } else {
            let k = (n - 1) as nat;
            let pos = self.lemma_rows(k, m, stream, env, depth, active);
            let prev = State {
                out: m.out + self.text(k),
                params: Some((stream, pos)),
                err: None,
            };
            let rest = self.params_from(n as int);
            running_code_is_running_tokens(self.template(), prev, env, depth, active);
            let end = self.lemma_row(k as int, prev, stream, pos, rest, env, depth, active);
            assert(m.out + self.text(k) + self.row_bytes(self.rows[k as int]) =~= m.out
                + self.text(n));
            end
        }
    }
}

/// Running literals writes them.
proof fn lemma_leads(blocks: Seq<Seq<u8>>, m: State, env: Env, depth: nat, active: Seq<u32>)
    requires
        m.err is None,
        m.out.len() + flat(blocks).len() <= MAX_OUTPUT_BYTES,
    ensures
        toks_run(
            blocks.map_values(|b: Seq<u8>| Tok::Lit { data: b }),
            m,
            env,
            depth,
            active,
        ) == (State { out: m.out + flat(blocks), ..m }),
    decreases blocks.len(),
{
    let f = |b: Seq<u8>| Tok::Lit { data: b };
    if blocks.len() == 0 {
        assert(m.out + flat(blocks) =~= m.out);
    } else {
        let front = blocks.drop_last();
        let t = Tok::Lit { data: blocks.last() };
        lemma_leads(front, m, env, depth, active);
        lemma_toks_run_concat(front.map_values(f), seq![t], m, env, depth, active);
        assert(blocks.map_values(f) =~= front.map_values(f) + seq![t]);
        let mid = State { out: m.out + flat(front), ..m };
        let after = mid.emit(blocks.last());
        assert(step(instr_of(t), mid, env, depth, active) == after);
        assert(toks_run(seq![t].drop_first(), after, env, depth, active) == after);
        assert(toks_run(seq![t], mid, env, depth, active) == after);
        assert(m.out + flat(front) + blocks.last() =~= m.out + flat(blocks));
    }
}

/// A table of `n` rows has at least `n` bytes.
proof fn lemma_text_len(g: Grid, n: nat)
    requires
        g.wf(),
        n <= g.rows.len(),
    ensures
        g.text(n).len() >= n,
    decreases n,
{
    if n > 0 {
        lemma_text_len(g, (n - 1) as nat);
        lemma_row_len(g, g.rows[n - 1], 0);
    }
}

proof fn lemma_row_len(g: Grid, row: Seq<Seq<u8>>, c: int)
    requires
        g.close.len() >= 1,
    ensures
        g.row_from(row, c).len() >= 1,
    decreases g.width() - c,
{
    if c < g.width() - 1 {
        lemma_row_len(g, row, c + 1);
    }
}

/// Tokens whose sizes add up to less than 2^32 bytes fit.
proof fn lemma_small_tokens_fit(ts: Seq<Tok>)
    requires
        toks_size(ts) < 0x1_0000_0000,
        forall|i: int| 0 <= i < ts.len() ==> (#[trigger] ts[i] is Lit || ts[i] is Next),
    ensures
        all_fit(ts),
    decreases ts.len(),
{
    if ts.len() > 0 {
        let d = ts.drop_last();
        assert forall|i: int| 0 <= i < d.len() implies (#[trigger] d[i] is Lit || d[i] is Next) by {
            assert(d[i] == ts[i]);
        }
        lemma_small_tokens_fit(d);
        assert(tok_size(ts.last()) < 0x1_0000_0000);
        assert forall|i: int| 0 <= i < ts.len() implies #[trigger] fits(ts[i]) by {
            if i < d.len() {
                assert(fits(d[i]));
            } else {
                assert(ts[i] is Lit || ts[i] is Next);
            }
        }
    }
}

proof fn lemma_template_shape(g: Grid, c: int)
    ensures
        forall|i: int|
            0 <= i < g.template_from(c).len() ==> (#[trigger] g.template_from(c)[i] is Lit
                || g.template_from(c)[i] is Next),
    decreases g.width() - c,
{
    if c < g.width() - 1 {
        lemma_template_shape(g, c + 1);
        let rest = g.template_from(c + 1);
        assert forall|i: int| 0 <= i < g.template_from(c).len() implies (
        #[trigger] g.template_from(c)[i] is Lit || g.template_from(c)[i] is Next) by {
            if i >= 2 {
                assert(g.template_from(c)[i] == rest[i - 2]);
            }
        }
    }
}

/// A scan over a table writes exactly the table, wherever its macro is the
/// instructions for a row.
pub proof fn scan_writes_the_table(g: Grid, id: u32, env: Env)
    requires
        g.wf(),
        g.bytes().len() <= MAX_OUTPUT_BYTES,
        env.subs.contains_key(id),
        env.subs[id] == toks_bytes(g.template()),
        4 + toks_size(g.template()) + tok_size(g.scan(id)) < tok_size(
            Tok::Lit { data: g.bytes() },
        ),
    ensures
        fits(g.scan(id)),
        all_fit(g.template()),
        appends(seq![g.scan(id)], g.bytes(), env),
{
    let t = g.scan(id);
    let stream = param_bytes(g.params_from(0));
    let n = g.rows.len();
    lemma_text_len(g, n);
    crate::leb::lemma_leb_size(lo32(g.bytes().len()));
    size_is_exact(t);
    assert(stream.len() < 0x1_0000_0000);
    lemma_template_shape(g, 0);
    let leads = g.lead.map_values(|b: Seq<u8>| Tok::Lit { data: b });
    assert forall|i: int| 0 <= i < g.template().len() implies (#[trigger] g.template()[i] is Lit
        || g.template()[i] is Next) by {
        if i >= leads.len() {
            assert(g.template()[i] == g.template_from(0)[i - leads.len()]);
        }
    }
    lemma_small_tokens_fit(g.template());
    let none = Seq::<u32>::empty();
    assert forall|m: State|
        m.err is None && m.out.len() + g.bytes().len()
            <= MAX_OUTPUT_BYTES implies #[trigger] toks_run(seq![t], m, env, 0, none)
        == with_output(m, g.bytes()) by {
        let inner = State { params: Some((stream, 0nat)), ..m };
        let end = g.lemma_rows(n, inner, stream, env, 1, none);
        let after = with_output(m, g.bytes());
        assert(step(instr_of(t), m, env, 0, none) == after);
        assert(toks_run(seq![t].drop_first(), after, env, 0, none) == after);
    }
}

} // verus!
