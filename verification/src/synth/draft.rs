//! What rewriting a program means: the steps, and that every step keeps the
//! output and shortens the program.

use vstd::prelude::*;
use crate::lz::{parse_appends_the_input, piece_toks, LzEncoder};
use crate::machine::{execute, fresh, step, Env, State, MAX_OUTPUT_BYTES};
use crate::synth::loops::{
    loop_gain, loop_gain_is_exact, loop_in, loop_tok, loop_writes_the_literal, is_period,
    shortest_period,
};
use crate::synth::delta::{delta_toks, deltas_write_the_literal};
use crate::synth::macros::{
    call_writes_the_block, first_from, lemma_first_from, split, split_writes_the_literal,
    MIN_MACRO_LEN,
};
use crate::synth::program::{code_of, lemma_macro_cost_insert, macro_cost};
use crate::synth::suffix::SA_MAX_PAT_LEN;
use crate::synth::table::{
    lit_or_nothing, pays_off, scan_writes_the_table, shorter, stands, Grid,
};
use crate::tokens::{
    all_fit, appends, extends, fits, instr_of, lemma_appends_concat, lemma_appends_refines,
    lemma_appends_yields,
    lemma_lit_appends, lemma_nothing_appends, lemma_refines_concat, lemma_toks_bytes_concat,
    lemma_toks_one, lemma_toks_run_concat, lemma_yields_extends, lemma_yields_refines, refines,
    running_code_is_running_tokens, tok_size, toks_bytes, toks_run, toks_size, yields, Tok,
};

verus! {

/// A program under construction: its tokens, its macros and the next free macro
/// id.
pub struct Draft {
    pub toks: Seq<Tok>,
    pub defs: vstd::map::Map<u32, Seq<Tok>>,
    pub next: nat,
}

impl Draft {
    /// The macros are finitely many and use ids below the next free one.
    pub open spec fn ok(self) -> bool {
        &&& self.defs.dom().finite()
        &&& forall|id: u32| #[trigger] self.defs.contains_key(id) ==> id < self.next
    }

    /// The size of the tokens and the macros.
    pub open spec fn size(self) -> nat {
        toks_size(self.toks) + macro_cost(self.defs)
    }

    /// The tables that the program runs against.
    pub open spec fn env(self, consensus: vstd::map::Map<Seq<u8>, Seq<u8>>) -> Env {
        Env { subs: code_of(self.defs), consensus }
    }

    /// Every operand fits its code, and the tokens yield `data`.
    pub open spec fn restores(
        self,
        consensus: vstd::map::Map<Seq<u8>, Seq<u8>>,
        data: Seq<u8>,
    ) -> bool {
        all_fit(self.toks) && yields(self.toks, data, self.env(consensus))
    }
}

/// Token `i` replaced by `seg`.
pub open spec fn spliced(toks: Seq<Tok>, i: int, seg: Seq<Tok>) -> Seq<Tok> {
    toks.take(i) + seg + toks.skip(i + 1)
}

/// Literal `i`, which repeats a shorter block, becomes a loop, and gets shorter.
pub open spec fn is_loop_step(a: Draft, b: Draft, i: int) -> bool {
    &&& 0 <= i < a.toks.len()
    &&& a.toks[i] is Lit
    &&& loop_in(a.toks[i]->data) matches Some((period, count)) && {
        &&& loop_gain(a.toks[i]->data.len(), period, count) > 0
        &&& b.toks == spliced(a.toks, i, seq![loop_tok(a.toks[i]->data, period, count)])
        &&& b.defs == a.defs
        &&& b.next == a.next
    }
}

/// The tokens with `mark` in place of `pat` inside the literals.
pub open spec fn with_marks(toks: Seq<Tok>, pat: Seq<u8>, mark: Tok) -> Seq<Tok>
    decreases toks.len(),
{
    if toks.len() == 0 {
        Seq::empty()
    } else {
        let last = toks.last();
        with_marks(toks.drop_last(), pat, mark) + if last is Lit {
            split(last->data, pat, mark, 0)
        } else {
            seq![last]
        }
    }
}

/// The draft with `pat` stored as a macro and called wherever it stands.
pub open spec fn with_macro(a: Draft, pat: Seq<u8>) -> Draft {
    Draft {
        toks: with_marks(a.toks, pat, Tok::Call { id: a.next as u32 }),
        defs: a.defs.insert(a.next as u32, seq![Tok::Lit { data: pat }]),
        next: a.next + 1,
    }
}

/// A block becomes a macro, and the program gets shorter.
pub open spec fn is_macro_step(a: Draft, b: Draft, pat: Seq<u8>) -> bool {
    &&& a.next < u32::MAX
    &&& MIN_MACRO_LEN <= pat.len() <= SA_MAX_PAT_LEN
    &&& b.toks == with_macro(a, pat).toks
    &&& b.defs == with_macro(a, pat).defs
    &&& b.next == a.next + 1
    &&& b.size() < a.size()
}

/// A table inside literal `i` becomes a scan, and the program gets shorter.
pub open spec fn is_scan_step(a: Draft, b: Draft, i: int, g: Grid, from: int, to: int) -> bool {
    let id = a.next as u32;
    &&& a.next < u32::MAX
    &&& 0 <= i < a.toks.len()
    &&& a.toks[i] is Lit
    &&& stands(g, a.toks[i]->data, from, to)
    &&& g.varies()
    &&& pays_off(g, a.toks[i]->data, from, to, id)
    &&& b.toks == spliced(
        a.toks,
        i,
        lit_or_nothing(a.toks[i]->data.take(from)) + seq![g.scan(id)] + lit_or_nothing(
            a.toks[i]->data.skip(to),
        ),
    )
    &&& b.defs == a.defs.insert(id, g.template())
    &&& b.next == a.next + 1
}

/// One rewriting step.
pub open spec fn is_step(a: Draft, b: Draft) -> bool {
    ||| exists|i: int| is_loop_step(a, b, i)
    ||| exists|pat: Seq<u8>| is_macro_step(a, b, pat)
    ||| exists|i: int, g: Grid, from: int, to: int| is_scan_step(a, b, i, g, from, to)
}

/// The drafts that a rewriting passes.
pub open spec fn is_path(path: Seq<Draft>) -> bool {
    &&& path.len() >= 1
    &&& forall|k: int| 0 < k < path.len() ==> is_step(path[k - 1], #[trigger] path[k])
}

/// The second draft comes from the first by rewriting steps.
pub open spec fn reaches(a: Draft, b: Draft) -> bool {
    exists|path: Seq<Draft>| #[trigger] is_path(path) && path.first() == a && path.last() == b
}

pub proof fn lemma_reaches_self(a: Draft)
    ensures
        reaches(a, a),
{
    let path = seq![a];
    assert(is_path(path) && path.first() == a && path.last() == a);
}

pub proof fn lemma_reaches_step(a: Draft, b: Draft, c: Draft)
    requires
        reaches(a, b),
        is_step(b, c),
    ensures
        reaches(a, c),
{
    let path = choose|path: Seq<Draft>| #[trigger]
        is_path(path) && path.first() == a && path.last() == b;
    let longer = path.push(c);
    assert forall|k: int| 0 < k < longer.len() implies is_step(
        longer[k - 1],
        #[trigger] longer[k],
    ) by {
        if k < path.len() {
            assert(longer[k] == path[k] && longer[k - 1] == path[k - 1]);
        }
    }
    assert(is_path(longer) && longer.first() == a && longer.last() == c);
}

/// A literal that runs fits the output.
pub proof fn lemma_literal_fits(toks: Seq<Tok>, i: int, data: Seq<u8>, env: Env)
    requires
        yields(toks, data, env),
        0 <= i < toks.len(),
        toks[i] is Lit,
    ensures
        toks[i]->data.len() <= MAX_OUTPUT_BYTES,
{
    let none = Seq::<u32>::empty();
    let front = toks.take(i);
    let rest = toks.skip(i);
    assert(toks =~= front + rest);
    lemma_toks_run_concat(front, rest, fresh(), env, 0, none);
    let mid = toks_run(front, fresh(), env, 0, none);
    assert(rest[0] == toks[i]);
    let after = mid.emit(toks[i]->data);
    assert(step(instr_of(rest[0]), mid, env, 0, none) == after);
    assert(after.err is None);
}

/// Replacing a literal by tokens that append its data keeps what the sequence
/// does.
proof fn lemma_splice_refines(toks: Seq<Tok>, i: int, seg: Seq<Tok>, env: Env)
    requires
        0 <= i < toks.len(),
        toks[i] is Lit,
        appends(seg, toks[i]->data, env),
    ensures
        refines(toks, spliced(toks, i, seg), env),
{
    let front = toks.take(i);
    let back = toks.skip(i + 1);
    let lit = seq![Tok::Lit { data: toks[i]->data }];
    lemma_appends_refines(toks[i]->data, seg, env);
    lemma_refines_self(front, env);
    lemma_refines_self(back, env);
    lemma_refines_concat(front, front, lit, seg, env);
    lemma_refines_concat(front + lit, front + seg, back, back, env);
    assert(toks =~= front + lit + back);
}

proof fn lemma_refines_self(ts: Seq<Tok>, env: Env)
    ensures
        refines(ts, ts, env),
{
}

proof fn lemma_splice_fits(toks: Seq<Tok>, i: int, seg: Seq<Tok>)
    requires
        0 <= i < toks.len(),
        all_fit(toks),
        all_fit(seg),
    ensures
        all_fit(spliced(toks, i, seg)),
{
    let all = spliced(toks, i, seg);
    assert forall|k: int| 0 <= k < all.len() implies #[trigger] fits(all[k]) by {
        if k < i {
            assert(fits(toks[k]));
        } else if k < i + seg.len() {
            assert(fits(seg[k - i]));
        } else {
            assert(fits(toks[k - seg.len() + 1]));
        }
    }
}

proof fn lemma_splice_size(toks: Seq<Tok>, i: int, seg: Seq<Tok>)
    requires
        0 <= i < toks.len(),
    ensures
        toks_size(spliced(toks, i, seg)) + tok_size(toks[i]) == toks_size(toks) + toks_size(seg),
{
    let front = toks.take(i);
    let back = toks.skip(i + 1);
    let one = seq![toks[i]];
    lemma_toks_one(toks[i]);
    lemma_toks_bytes_concat(front, one);
    lemma_toks_bytes_concat(front + one, back);
    lemma_toks_bytes_concat(front, seg);
    lemma_toks_bytes_concat(front + seg, back);
    assert(toks =~= front + one + back);
}

/// The tables with a new macro hold everything that they held.
proof fn lemma_new_macro_extends(
    a: Draft,
    body: Seq<Tok>,
    consensus: vstd::map::Map<Seq<u8>, Seq<u8>>,
)
    requires
        a.ok(),
        a.next <= u32::MAX,
    ensures
        ({
            let id = a.next as u32;
            let more = Draft { defs: a.defs.insert(id, body), next: a.next + 1, ..a };
            &&& more.ok()
            &&& extends(a.env(consensus), more.env(consensus))
            &&& more.env(consensus).subs.contains_key(id)
            &&& more.env(consensus).subs[id] == toks_bytes(body)
            &&& macro_cost(more.defs) == 4 + toks_size(body) + macro_cost(a.defs)
        }),
{
    let id = a.next as u32;
    assert(!a.defs.contains_key(id));
    lemma_macro_cost_insert(a.defs, id, body);
    assert(a.defs.insert(id, body).dom() =~= a.defs.dom().insert(id));
}

/// Marks that write a block in place of the block keep what the sequence does.
pub proof fn lemma_with_marks(toks: Seq<Tok>, pat: Seq<u8>, mark: Tok, env: Env)
    requires
        appends(seq![mark], pat, env),
        fits(mark),
        all_fit(toks),
        forall|i: int|
            0 <= i < toks.len() && #[trigger] toks[i] is Lit ==> toks[i]->data.len()
                <= MAX_OUTPUT_BYTES,
    ensures
        refines(toks, with_marks(toks, pat, mark), env),
        all_fit(with_marks(toks, pat, mark)),
    decreases toks.len(),
{
    if toks.len() == 0 {
        lemma_refines_self(toks, env);
        assert(with_marks(toks, pat, mark) =~= toks);
    } else {
        let front = toks.drop_last();
        let last = toks.last();
        assert forall|i: int| 0 <= i < front.len() implies #[trigger] fits(front[i]) by {
            assert(fits(toks[i]));
        }
        assert forall|i: int| 0 <= i < front.len() && #[trigger] front[i] is Lit implies front[i]
            ->data.len() <= MAX_OUTPUT_BYTES by {
            assert(front[i] == toks[i]);
        }
        lemma_with_marks(front, pat, mark, env);
        let before = with_marks(front, pat, mark);
        let seg = if last is Lit {
            split(last->data, pat, mark, 0)
        } else {
            seq![last]
        };
        assert(fits(toks[toks.len() - 1]));
        if last is Lit {
            assert(toks[toks.len() - 1] is Lit);
            split_writes_the_literal(last->data, pat, mark, 0, env);
            assert(last->data.skip(0) =~= last->data);
            lemma_appends_refines(last->data, seg, env);
            assert(seq![Tok::Lit { data: last->data }] =~= seq![last]);
        } else {
            lemma_refines_self(seg, env);
        }
        lemma_refines_concat(front, before, seq![last], seg, env);
        assert(toks =~= front + seq![last]);
        let all = before + seg;
        assert forall|i: int| 0 <= i < all.len() implies #[trigger] fits(all[i]) by {
            if i < before.len() {
                assert(fits(before[i]));
            } else {
                assert(fits(seg[i - before.len()]));
            }
        }
    }
}

/// The loop that a literal is writes the literal.
proof fn lemma_loop_writes(lit: Seq<u8>, period: nat, count: nat, env: Env)
    requires
        loop_in(lit) == Some((period, count)),
        lit.len() <= MAX_OUTPUT_BYTES,
    ensures
        fits(loop_tok(lit, period, count)),
        appends(seq![loop_tok(lit, period, count)], lit, env),
{
    lemma_loop_period(lit);
    loop_writes_the_literal(lit, period, env);
}

/// The gain of the loop that a literal is.
#[verifier::rlimit(30)]
proof fn lemma_loop_gain(lit: Seq<u8>, period: nat, count: nat)
    requires
        loop_in(lit) == Some((period, count)),
    ensures
        loop_gain(lit.len(), period, count) == tok_size(Tok::Lit { data: lit }) - tok_size(
            loop_tok(lit, period, count),
        ),
{
    lemma_loop_period(lit);
    assert(period <= lit.len());
    let block = lit.take(period as int);
    assert(block.len() == period);
    loop_gain_is_exact(lit, block, count);
}

proof fn lemma_loop_step_keeps(
    a: Draft,
    b: Draft,
    i: int,
    consensus: vstd::map::Map<Seq<u8>, Seq<u8>>,
    data: Seq<u8>,
)
    requires
        is_loop_step(a, b, i),
        a.restores(consensus, data),
    ensures
        b.restores(consensus, data),
{
    let env = a.env(consensus);
    let lit = a.toks[i]->data;
    lemma_literal_fits(a.toks, i, data, env);
    if let Some((period, count)) = loop_in(lit) {
        lemma_loop_writes(lit, period, count, env);
        let seg = seq![loop_tok(lit, period, count)];
        assert(fits(seg[0]));
        lemma_splice_refines(a.toks, i, seg, env);
        lemma_yields_refines(a.toks, b.toks, data, env);
        lemma_splice_fits(a.toks, i, seg);
    }
}

proof fn lemma_macro_step_keeps(
    a: Draft,
    b: Draft,
    pat: Seq<u8>,
    consensus: vstd::map::Map<Seq<u8>, Seq<u8>>,
    data: Seq<u8>,
)
    requires
        a.ok(),
        is_macro_step(a, b, pat),
        a.restores(consensus, data),
    ensures
        b.restores(consensus, data),
{
    let env = a.env(consensus);
    let more = b.env(consensus);
    lemma_new_macro_extends(a, seq![Tok::Lit { data: pat }], consensus);
    lemma_yields_extends(a.toks, data, env, more);
    assert forall|i: int| 0 <= i < a.toks.len() && #[trigger] a.toks[i] is Lit implies a.toks[i]
        ->data.len() <= MAX_OUTPUT_BYTES by {
        lemma_literal_fits(a.toks, i, data, env);
    }
    call_writes_the_block(a.next as u32, pat, more);
    lemma_with_marks(a.toks, pat, Tok::Call { id: a.next as u32 }, more);
    lemma_yields_refines(a.toks, b.toks, data, more);
}

/// The scan and the literals around it append the literal.
proof fn lemma_scan_segment(
    g: Grid,
    lit: Seq<u8>,
    from: int,
    to: int,
    id: u32,
    env: Env,
) -> (seg: Seq<Tok>)
    requires
        stands(g, lit, from, to),
        pays_off(g, lit, from, to, id),
        lit.len() <= MAX_OUTPUT_BYTES,
        env.subs.contains_key(id),
        env.subs[id] == toks_bytes(g.template()),
    ensures
        seg == lit_or_nothing(lit.take(from)) + seq![g.scan(id)] + lit_or_nothing(lit.skip(to)),
        appends(seg, lit, env),
        all_fit(seg),
{
    let cost = 4 + toks_size(g.template()) + tok_size(g.scan(id));
    lemma_shorter(cost, tok_size(Tok::Lit { data: g.bytes() }));
    assert(lit.subrange(from, to).len() <= lit.len());
    scan_writes_the_table(g, id, env);
    let front = lit_or_nothing(lit.take(from));
    let back = lit_or_nothing(lit.skip(to));
    let mid = seq![g.scan(id)];
    lemma_lit_or_nothing(lit.take(from), env);
    lemma_lit_or_nothing(lit.skip(to), env);
    lemma_appends_concat(front, lit.take(from), mid, g.bytes(), env);
    lemma_appends_concat(front + mid, lit.take(from) + g.bytes(), back, lit.skip(to), env);
    assert(lit.take(from) + lit.subrange(from, to) + lit.skip(to) =~= lit);
    let seg = front + mid + back;
    assert forall|k: int| 0 <= k < seg.len() implies #[trigger] fits(seg[k]) by {
        assert(fits(mid[0]));
    }
    seg
}

proof fn lemma_scan_step_keeps(
    a: Draft,
    b: Draft,
    i: int,
    g: Grid,
    from: int,
    to: int,
    consensus: vstd::map::Map<Seq<u8>, Seq<u8>>,
    data: Seq<u8>,
)
    requires
        a.ok(),
        is_scan_step(a, b, i, g, from, to),
        a.restores(consensus, data),
    ensures
        b.restores(consensus, data),
{
    let env = a.env(consensus);
    let more = b.env(consensus);
    let lit = a.toks[i]->data;
    let id = a.next as u32;
    lemma_literal_fits(a.toks, i, data, env);
    lemma_new_macro_extends(a, g.template(), consensus);
    lemma_yields_extends(a.toks, data, env, more);
    let seg = lemma_scan_segment(g, lit, from, to, id, more);
    lemma_splice_refines(a.toks, i, seg, more);
    lemma_yields_refines(a.toks, b.toks, data, more);
    lemma_splice_fits(a.toks, i, seg);
}

/// Every rewriting step keeps the output.
pub proof fn step_keeps_the_output(
    a: Draft,
    b: Draft,
    consensus: vstd::map::Map<Seq<u8>, Seq<u8>>,
    data: Seq<u8>,
)
    requires
        a.ok(),
        is_step(a, b),
        a.restores(consensus, data),
    ensures
        b.restores(consensus, data),
{
    if exists|i: int| is_loop_step(a, b, i) {
        let i = choose|i: int| is_loop_step(a, b, i);
        lemma_loop_step_keeps(a, b, i, consensus, data);
    } else if exists|pat: Seq<u8>| is_macro_step(a, b, pat) {
        let pat = choose|pat: Seq<u8>| is_macro_step(a, b, pat);
        lemma_macro_step_keeps(a, b, pat, consensus, data);
    } else {
        let (i, g, from, to) = choose|i: int, g: Grid, from: int, to: int|
            is_scan_step(a, b, i, g, from, to);
        lemma_scan_step_keeps(a, b, i, g, from, to, consensus, data);
    }
}

proof fn lemma_lit_or_nothing(data: Seq<u8>, env: Env)
    ensures
        appends(lit_or_nothing(data), data, env),
{
    if data.len() == 0 {
        lemma_nothing_appends(env);
        assert(data =~= Seq::empty());
    } else {
        lemma_lit_appends(data, env);
    }
}

/// The shortest period of a literal that has one is a period.
#[verifier::rlimit(30)]
pub proof fn lemma_loop_period(lit: Seq<u8>)
    requires
        loop_in(lit) is Some,
    ensures
        is_period(lit, shortest_period(lit)),
        loop_in(lit) == Some((shortest_period(lit), lit.len() / shortest_period(lit))),
        shortest_period(lit) <= lit.len(),
{
    reveal(loop_in);
    let p = choose|p: nat| is_period(lit, p);
    let q = lemma_shortest(lit, p);
    assert(is_period(lit, q) && (forall|r: nat| is_period(lit, r) ==> q <= r));
    let s = shortest_period(lit);
    assert(s <= lit.len()) by (nonlinear_arith)
        requires
            lit.len() / s >= 3,
            s >= 4,
    ;
}

/// Below any period there is a shortest one.
proof fn lemma_shortest(lit: Seq<u8>, p: nat) -> (q: nat)
    requires
        is_period(lit, p),
    ensures
        is_period(lit, q),
        forall|r: nat| is_period(lit, r) ==> q <= r,
    decreases p,
{
    if exists|r: nat| is_period(lit, r) && r < p {
        let r = choose|r: nat| is_period(lit, r) && r < p;
        lemma_shortest(lit, r)
    } else {
        p
    }
}

pub proof fn lemma_shorter(a: nat, b: nat)
    requires
        shorter(a, b),
    ensures
        a < b,
{
}

proof fn lemma_loop_step_shortens(a: Draft, b: Draft, i: int)
    requires
        a.ok(),
        is_loop_step(a, b, i),
    ensures
        b.ok(),
        b.size() < a.size(),
{
    let lit = a.toks[i]->data;
    if let Some((period, count)) = loop_in(lit) {
        let t = loop_tok(lit, period, count);
        lemma_loop_gain(lit, period, count);
        lemma_splice_size(a.toks, i, seq![t]);
        lemma_toks_one(t);
        assert(a.toks[i] == (Tok::Lit { data: lit }));
    }
}

proof fn lemma_macro_step_shortens(a: Draft, b: Draft, pat: Seq<u8>)
    requires
        a.ok(),
        is_macro_step(a, b, pat),
    ensures
        b.ok(),
        b.size() < a.size(),
{
    lemma_new_macro_extends(
        a,
        seq![Tok::Lit { data: pat }],
        vstd::map::Map::<Seq<u8>, Seq<u8>>::empty(),
    );
}

proof fn lemma_scan_step_shortens(a: Draft, b: Draft, i: int, g: Grid, from: int, to: int)
    requires
        a.ok(),
        is_scan_step(a, b, i, g, from, to),
    ensures
        b.ok(),
        b.size() < a.size(),
{
    let lit = a.toks[i]->data;
    let id = a.next as u32;
    lemma_new_macro_extends(
        a,
        g.template(),
        vstd::map::Map::<Seq<u8>, Seq<u8>>::empty(),
    );
    let front = lit_or_nothing(lit.take(from));
    let back = lit_or_nothing(lit.skip(to));
    let mid = seq![g.scan(id)];
    let cost = 4 + toks_size(g.template()) + tok_size(g.scan(id));
    lemma_toks_one(g.scan(id));
    lemma_toks_bytes_concat(front, mid);
    lemma_toks_bytes_concat(front + mid, back);
    lemma_splice_size(a.toks, i, front + mid + back);
    lemma_shorter(toks_size(front) + cost + toks_size(back), tok_size(Tok::Lit { data: lit }));
    assert(a.toks[i] == (Tok::Lit { data: lit }));
}

/// Every rewriting step keeps the macro ids in order and shortens the program.
pub proof fn step_shortens(a: Draft, b: Draft)
    requires
        a.ok(),
        is_step(a, b),
    ensures
        b.ok(),
        b.size() < a.size(),
{
    if exists|i: int| is_loop_step(a, b, i) {
        let i = choose|i: int| is_loop_step(a, b, i);
        lemma_loop_step_shortens(a, b, i);
    } else if exists|pat: Seq<u8>| is_macro_step(a, b, pat) {
        let pat = choose|pat: Seq<u8>| is_macro_step(a, b, pat);
        lemma_macro_step_shortens(a, b, pat);
    } else {
        let (i, g, from, to) = choose|i: int, g: Grid, from: int, to: int|
            is_scan_step(a, b, i, g, from, to);
        lemma_scan_step_shortens(a, b, i, g, from, to);
    }
}

/// Whatever rewriting steps are taken, the output stays the same.
pub proof fn rewriting_keeps_the_output(
    a: Draft,
    b: Draft,
    consensus: vstd::map::Map<Seq<u8>, Seq<u8>>,
    data: Seq<u8>,
)
    requires
        a.ok(),
        reaches(a, b),
        a.restores(consensus, data),
    ensures
        b.ok(),
        b.restores(consensus, data),
{
    let path = choose|path: Seq<Draft>| #[trigger]
        is_path(path) && path.first() == a && path.last() == b;
    lemma_path_keeps(path, consensus, data, path.len() as int);
}

proof fn lemma_path_keeps(
    path: Seq<Draft>,
    consensus: vstd::map::Map<Seq<u8>, Seq<u8>>,
    data: Seq<u8>,
    n: int,
)
    requires
        is_path(path),
        path.first().ok(),
        path.first().restores(consensus, data),
        1 <= n <= path.len(),
    ensures
        path[n - 1].ok(),
        path[n - 1].restores(consensus, data),
    decreases n,
{
    if n > 1 {
        lemma_path_keeps(path, consensus, data, n - 1);
        assert(is_step(path[n - 1 - 1], path[n - 1]));
        step_keeps_the_output(path[n - 2], path[n - 1], consensus, data);
        step_shortens(path[n - 2], path[n - 1]);
    }
}

/// Whatever rewriting steps are taken, the program never gets longer, and it
/// gets shorter if any step is taken.
pub proof fn rewriting_never_lengthens(a: Draft, b: Draft)
    requires
        a.ok(),
        reaches(a, b),
    ensures
        b.ok(),
        b.size() <= a.size(),
        b == a || b.size() < a.size(),
{
    let path = choose|path: Seq<Draft>| #[trigger]
        is_path(path) && path.first() == a && path.last() == b;
    lemma_path_shrinks(path, path.len() as int);
}

proof fn lemma_path_shrinks(path: Seq<Draft>, n: int)
    requires
        is_path(path),
        path.first().ok(),
        1 <= n <= path.len(),
    ensures
        path[n - 1].ok(),
        path[n - 1].size() + (n - 1) <= path.first().size(),
    decreases n,
{
    if n > 1 {
        lemma_path_shrinks(path, n - 1);
        assert(is_step(path[n - 1 - 1], path[n - 1]));
        step_shortens(path[n - 2], path[n - 1]);
    }
}

/// Tokens that yield the data, as byte code, run to the data.
pub proof fn restoring_code_runs(
    d: Draft,
    consensus: vstd::map::Map<Seq<u8>, Seq<u8>>,
    data: Seq<u8>,
)
    requires
        d.restores(consensus, data),
    ensures
        execute(toks_bytes(d.toks), d.env(consensus)) == (State {
            out: data,
            params: None,
            err: None,
        }),
{
    running_code_is_running_tokens(d.toks, fresh(), d.env(consensus), 0, Seq::empty());
}

/// No literal is longer than `n`.
pub open spec fn lits_within(toks: Seq<Tok>, n: nat) -> bool {
    forall|i: int| 0 <= i < toks.len() && #[trigger] toks[i] is Lit ==> toks[i]->data.len() <= n
}

proof fn lemma_split_within(data: Seq<u8>, pat: Seq<u8>, mark: Tok, pos: int)
    requires
        0 <= pos <= data.len(),
        !(mark is Lit),
    ensures
        lits_within(split(data, pat, mark, pos), data.len()),
    decreases data.len() - pos,
{
    if pos < data.len() {
        lemma_first_from(data, pat, pos);
        if let Some(hit) = first_from(data, pat, pos) {
            lemma_split_within(data, pat, mark, hit + pat.len());
        }
    }
}

proof fn lemma_marks_within(toks: Seq<Tok>, pat: Seq<u8>, mark: Tok, n: nat)
    requires
        !(mark is Lit),
        lits_within(toks, n),
    ensures
        lits_within(with_marks(toks, pat, mark), n),
    decreases toks.len(),
{
    if toks.len() > 0 {
        let front = toks.drop_last();
        assert forall|i: int| 0 <= i < front.len() && #[trigger] front[i] is Lit implies front[i]
            ->data.len() <= n by {
            assert(front[i] == toks[i]);
        }
        lemma_marks_within(front, pat, mark, n);
        let last = toks.last();
        assert(last == toks[toks.len() - 1]);
        if last is Lit {
            lemma_split_within(last->data, pat, mark, 0);
        }
    }
}

proof fn lemma_splice_within(toks: Seq<Tok>, i: int, seg: Seq<Tok>, n: nat)
    requires
        0 <= i < toks.len(),
        lits_within(toks, n),
        lits_within(seg, n),
    ensures
        lits_within(spliced(toks, i, seg), n),
{
    let all = spliced(toks, i, seg);
    assert forall|k: int| 0 <= k < all.len() && #[trigger] all[k] is Lit implies all[k]->data.len()
        <= n by {
        if k < i {
            assert(all[k] == toks[k]);
        } else if k < i + seg.len() {
            assert(all[k] == seg[k - i]);
        } else {
            assert(all[k] == toks[k - seg.len() + 1]);
        }
    }
}

proof fn lemma_step_within(a: Draft, b: Draft, n: nat)
    requires
        is_step(a, b),
        lits_within(a.toks, n),
    ensures
        lits_within(b.toks, n),
{
    if exists|i: int| is_loop_step(a, b, i) {
        let i = choose|i: int| is_loop_step(a, b, i);
        if let Some((period, count)) = loop_in(a.toks[i]->data) {
            lemma_splice_within(
                a.toks,
                i,
                seq![loop_tok(a.toks[i]->data, period, count)],
                n,
            );
        }
    } else if exists|pat: Seq<u8>| is_macro_step(a, b, pat) {
        let pat = choose|pat: Seq<u8>| is_macro_step(a, b, pat);
        lemma_marks_within(a.toks, pat, Tok::Call { id: a.next as u32 }, n);
    } else {
        let (i, g, from, to) = choose|i: int, g: Grid, from: int, to: int|
            is_scan_step(a, b, i, g, from, to);
        let lit = a.toks[i]->data;
        let seg = lit_or_nothing(lit.take(from)) + seq![g.scan(a.next as u32)] + lit_or_nothing(
            lit.skip(to),
        );
        lemma_splice_within(a.toks, i, seg, n);
    }
}

/// Rewriting makes no literal longer than the longest.
pub proof fn rewriting_lengthens_no_literal(a: Draft, b: Draft, n: nat)
    requires
        reaches(a, b),
        lits_within(a.toks, n),
    ensures
        lits_within(b.toks, n),
{
    let path = choose|path: Seq<Draft>| #[trigger]
        is_path(path) && path.first() == a && path.last() == b;
    lemma_path_within(path, n, path.len() as int);
}

proof fn lemma_path_within(path: Seq<Draft>, n: nat, k: int)
    requires
        is_path(path),
        lits_within(path.first().toks, n),
        1 <= k <= path.len(),
    ensures
        lits_within(path[k - 1].toks, n),
    decreases k,
{
    if k > 1 {
        lemma_path_within(path, n, k - 1);
        assert(is_step(path[k - 1 - 1], path[k - 1]));
        lemma_step_within(path[k - 2], path[k - 1], n);
    }
}

/// The tokens in which each literal that is picked is written as differences.
pub open spec fn with_deltas(toks: Seq<Tok>, picks: Seq<bool>) -> Seq<Tok>
    decreases toks.len(),
{
    if toks.len() == 0 {
        Seq::empty()
    } else {
        let last = toks.last();
        with_deltas(toks.drop_last(), picks) + if last is Lit && picks[toks.len() - 1] {
            delta_toks(last->data)
        } else {
            seq![last]
        }
    }
}

/// Writing literals as differences keeps the output.
pub proof fn deltas_keep_the_output(toks: Seq<Tok>, picks: Seq<bool>, env: Env)
    requires
        all_fit(toks),
        lits_within(toks, MAX_OUTPUT_BYTES as nat),
    ensures
        refines(toks, with_deltas(toks, picks), env),
        all_fit(with_deltas(toks, picks)),
    decreases toks.len(),
{
    if toks.len() == 0 {
        lemma_refines_self(toks, env);
        assert(with_deltas(toks, picks) =~= toks);
    } else {
        let front = toks.drop_last();
        let last = toks.last();
        assert(last == toks[toks.len() - 1]);
        assert forall|i: int| 0 <= i < front.len() implies #[trigger] fits(front[i]) by {
            assert(fits(toks[i]));
        }
        assert forall|i: int| 0 <= i < front.len() && #[trigger] front[i] is Lit implies front[i]
            ->data.len() <= MAX_OUTPUT_BYTES by {
            assert(front[i] == toks[i]);
        }
        deltas_keep_the_output(front, picks, env);
        let before = with_deltas(front, picks);
        let seg = if last is Lit && picks[toks.len() - 1] {
            delta_toks(last->data)
        } else {
            seq![last]
        };
        assert(fits(toks[toks.len() - 1]));
        if last is Lit && picks[toks.len() - 1] {
            deltas_write_the_literal(last->data, env);
            lemma_appends_refines(last->data, seg, env);
            assert(seq![Tok::Lit { data: last->data }] =~= seq![last]);
        } else {
            lemma_refines_self(seg, env);
        }
        lemma_refines_concat(front, before, seq![last], seg, env);
        assert(toks =~= front + seq![last]);
        lemma_all_fit_concat(before, seg);
    }
}

/// No literal gets longer when it is written as differences.
pub proof fn lemma_deltas_within(toks: Seq<Tok>, picks: Seq<bool>, n: nat)
    requires
        lits_within(toks, n),
    ensures
        lits_within(with_deltas(toks, picks), n),
    decreases toks.len(),
{
    if toks.len() > 0 {
        let front = toks.drop_last();
        assert forall|i: int| 0 <= i < front.len() && #[trigger] front[i] is Lit implies front[i]
            ->data.len() <= n by {
            assert(front[i] == toks[i]);
        }
        lemma_deltas_within(front, picks, n);
        assert(toks.last() == toks[toks.len() - 1]);
    }
}

proof fn lemma_all_fit_concat(a: Seq<Tok>, b: Seq<Tok>)
    requires
        all_fit(a),
        all_fit(b),
    ensures
        all_fit(a + b),
{
    let all = a + b;
    assert forall|i: int| 0 <= i < all.len() implies #[trigger] fits(all[i]) by {
        if i < a.len() {
            assert(fits(a[i]));
        } else {
            assert(fits(b[i - a.len()]));
        }
    }
}

/// The tokens in which each literal is replaced by its own parse.
pub open spec fn with_parses(toks: Seq<Tok>, lz: &LzEncoder) -> Seq<Tok>
    decreases toks.len(),
{
    if toks.len() == 0 {
        Seq::empty()
    } else {
        let last = toks.last();
        with_parses(toks.drop_last(), lz) + if last is Lit {
            piece_toks(lz.parse(last->data))
        } else {
            seq![last]
        }
    }
}

/// Replacing each literal by its own parse keeps the output.
pub proof fn parses_keep_the_output(toks: Seq<Tok>, lz: &LzEncoder, n: nat, env: Env)
    requires
        all_fit(toks),
        lits_within(toks, n),
        n <= MAX_OUTPUT_BYTES,
        lz.suits(n),
    ensures
        refines(toks, with_parses(toks, lz), env),
        all_fit(with_parses(toks, lz)),
    decreases toks.len(),
{
    if toks.len() == 0 {
        lemma_refines_self(toks, env);
        assert(with_parses(toks, lz) =~= toks);
    } else {
        let front = toks.drop_last();
        let last = toks.last();
        assert(last == toks[toks.len() - 1]);
        assert forall|i: int| 0 <= i < front.len() implies #[trigger] fits(front[i]) by {
            assert(fits(toks[i]));
        }
        assert forall|i: int| 0 <= i < front.len() && #[trigger] front[i] is Lit implies front[i]
            ->data.len() <= n by {
            assert(front[i] == toks[i]);
        }
        parses_keep_the_output(front, lz, n, env);
        let before = with_parses(front, lz);
        let seg = if last is Lit {
            piece_toks(lz.parse(last->data))
        } else {
            seq![last]
        };
        assert(fits(toks[toks.len() - 1]));
        if last is Lit {
            parse_appends_the_input(lz, last->data, env);
            lemma_appends_refines(last->data, seg, env);
            assert(seq![Tok::Lit { data: last->data }] =~= seq![last]);
        } else {
            lemma_refines_self(seg, env);
            assert(fits(seg[0]));
        }
        lemma_refines_concat(front, before, seq![last], seg, env);
        assert(toks =~= front + seq![last]);
        lemma_all_fit_concat(before, seg);
    }
}

/// The literals of a program that runs fit the output.
pub proof fn lemma_restores_within(
    d: Draft,
    consensus: vstd::map::Map<Seq<u8>, Seq<u8>>,
    data: Seq<u8>,
)
    requires
        d.restores(consensus, data),
    ensures
        lits_within(d.toks, MAX_OUTPUT_BYTES as nat),
{
    assert forall|i: int| 0 <= i < d.toks.len() && #[trigger] d.toks[i] is Lit implies d.toks[i]
        ->data.len() <= MAX_OUTPUT_BYTES by {
        lemma_literal_fits(d.toks, i, data, d.env(consensus));
    }
}

/// A program that is one literal yields it.
pub proof fn lemma_literal_restores(
    data: Seq<u8>,
    consensus: vstd::map::Map<Seq<u8>, Seq<u8>>,
)
    requires
        data.len() <= MAX_OUTPUT_BYTES,
    ensures
        whole(data).ok(),
        whole(data).restores(consensus, data),
        lits_within(whole(data).toks, data.len()),
{
    let d = whole(data);
    lemma_lit_or_nothing(data, d.env(consensus));
    lemma_appends_yields(d.toks, data, d.env(consensus));
}

/// The program that is one literal, or none if there is no data.
pub open spec fn whole(data: Seq<u8>) -> Draft {
    Draft { toks: lit_or_nothing(data), defs: vstd::map::Map::empty(), next: 0 }
}

} // verus!
