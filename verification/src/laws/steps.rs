//! In which order rewritings are applied, and what they leave alone.

use vstd::prelude::*;
use crate::judge::Answers;
use crate::laws::rewritings::{
    lemma_gain_grows, occurrences_are_as_many_as_fit, saves_bytes, stands_at,
};
use crate::laws::templates::tables_become_scans;
use crate::lz::LzEncoder;
use crate::pipeline::is_hybrid;
use crate::sched::{has_settings, is_scheduled, synthesis_for, DataClass};
use crate::synth::draft::{
    is_loop_step, is_macro_step, spliced, with_deltas, with_marks, with_parses, Draft,
};
use crate::synth::guarantees::{
    lemma_paths_meet, lemma_scanning_is_one, raw_synthesis_is_determined,
};
use crate::synth::loops::{clamped, loop_gain_is_exact, loop_in, loop_tok};
use crate::synth::macros::{macro_gain, macro_shortens, occurrences, token_offer, window};
use crate::synth::rewrite::{
    delta_picks, is_delta_pick, is_scanning, long_bound, loop_offer, nothing, with_scan,
    PatternSynthesizer,
};
use crate::synth::scan::{fires, is_best_scan};
use crate::synth::suffix::long_offer;
use crate::synth::table::{lit_or_nothing, ScanResult};
use crate::tokens::{size_is_exact, sizes_are_exact, tok_bytes, toks_bytes, Tok};

verus! {

/// How many bytes literal `i` gets shorter as a loop.
pub open spec fn loop_saving(d: Draft, i: int, p: nat, c: nat) -> int {
    tok_bytes(d.toks[i]).len() - tok_bytes(
        Tok::Loop { count: c, body: seq![Tok::Lit { data: d.toks[i]->data.take(p as int) }] },
    ).len()
}

proof fn lemma_saving(d: Draft, i: int, p: nat, c: nat)
    requires
        0 <= i < d.toks.len(),
        d.toks[i] is Lit,
        loop_in(d.toks[i]->data) == Some((p, c)),
    ensures
        loop_saving(d, i, p, c) == loop_offer(d.toks, i),
{
    reveal(loop_offer);
    let data = d.toks[i]->data;
    let block = data.take(p as int);
    crate::laws::rewritings::loops_are_the_shortest_repetition(data, 0);
    assert(p <= data.len()) by (nonlinear_arith)
        requires
            p * c == data.len(),
            c >= 3,
    ;
    loop_gain_is_exact(data, block, c);
    size_is_exact(d.toks[i]);
    size_is_exact(Tok::Loop { count: c, body: seq![Tok::Lit { data: block }] });
}

/// A step that is a loop makes the literal that saves most a loop, and the first of
/// those: no literal saves more, and none before it as much.
pub proof fn the_loop_that_saves_most_comes_first(
    s: &PatternSynthesizer,
    a: Draft,
    b: Draft,
    i: int,
    j: int,
    p: nat,
    c: nat,
    q: nat,
    e: nat,
)
    requires
        s.is_best_loop(a, b, i),
        0 <= i < a.toks.len(),
        a.toks[i] is Lit,
        loop_in(a.toks[i]->data) == Some((p, c)),
        0 <= j < a.toks.len(),
        a.toks[j] is Lit,
        loop_in(a.toks[j]->data) == Some((q, e)),
        tok_bytes(a.toks[i]).len() <= isize::MAX,
        tok_bytes(a.toks[j]).len() <= isize::MAX,
    ensures
        loop_saving(a, i, p, c) > 0,
        loop_saving(a, j, q, e) <= loop_saving(a, i, p, c),
        j < i ==> loop_saving(a, j, q, e) < loop_saving(a, i, p, c),
        b.toks.len() == a.toks.len(),
        forall|k: int| 0 <= k < a.toks.len() && k != i ==> #[trigger] b.toks[k] == a.toks[k],
        b.toks[i] == (Tok::Loop {
            count: c,
            body: seq![Tok::Lit { data: a.toks[i]->data.take(p as int) }],
        }),
        b.defs == a.defs,
{
    reveal(loop_offer);
    lemma_saving(a, i, p, c);
    lemma_saving(a, j, q, e);
    assert(is_loop_step(a, b, i));
    assert(clamped(loop_offer(a.toks, j)) <= clamped(loop_offer(a.toks, i)));
    let seg = seq![loop_tok(a.toks[i]->data, p, c)];
    assert(b.toks == spliced(a.toks, i, seg));
}

/// A step that is a macro stores the block that gains most of those that save bytes: no
/// block that stands in a literal gains more and saves bytes, and no loop saves as much.
pub proof fn the_macro_that_gains_most_comes_first(
    s: &PatternSynthesizer,
    a: Draft,
    b: Draft,
    block: Seq<u8>,
    gain: int,
    t: int,
    pat: Seq<u8>,
    places: Seq<int>,
)
    requires
        s.is_best_macro(a, b, block, gain),
        toks_bytes(a.toks).len() <= isize::MAX,
        0 <= t < a.toks.len(),
        a.toks[t] is Lit,
        8 <= pat.len() <= 64 || (65 <= pat.len() <= 1024 && a.toks[t]->data.len() >= 256),
        stands_at(a.toks[t]->data, pat, places),
        places.len() >= 2,
        saves_bytes(a.toks, pat, a.next as u32),
    ensures
        clamped(macro_gain(pat.len(), places.len(), a.next as u32)) <= gain || gain > 0
            && macro_gain(pat.len(), places.len(), a.next as u32) <= 0,
        saves_bytes(a.toks, block, a.next as u32),
        b.defs == a.defs.insert(a.next as u32, seq![Tok::Lit { data: block }]),
        b.toks == with_marks(a.toks, block, Tok::Call { id: a.next as u32 }),
        b.next == a.next + 1,
        s.enable_loop ==> forall|i: int, p: nat, c: nat|
            0 <= i < a.toks.len() && a.toks[i] is Lit && loop_in(a.toks[i]->data) == Some((p, c))
                ==> clamped(#[trigger] loop_saving(a, i, p, c)) < gain,
{
    let id = a.next as u32;
    let on = a.macro_terms();
    let data = a.toks[t]->data;
    occurrences_are_as_many_as_fit(data, pat, places);
    let p = places[0];
    lemma_gain_grows(pat.len(), places.len(), occurrences(data, pat, 0), id);
    assert(window(data, p, pat.len()) == pat);
    reveal(macro_shortens);
    sizes_are_exact(a.toks);
    sizes_are_exact(with_marks(a.toks, pat, Tok::Call { id }));
    size_is_exact(Tok::Lit { data: pat });
    sizes_are_exact(with_marks(a.toks, block, Tok::Call { id }));
    size_is_exact(Tok::Lit { data: block });
    assert(on.allow(pat));
    if pat.len() <= 64 {
        assert(clamped(token_offer(a.toks, t, pat.len(), p, on)) <= gain);
    } else {
        assert(long_bound(data, on, gain));
        assert(clamped(long_offer(data, pat.len(), p, on)) <= gain);
    }
    crate::synth::rewrite::lemma_top_allowed(a.toks, on, block, gain);
    if s.enable_loop {
        assert forall|i: int, p: nat, c: nat|
            0 <= i < a.toks.len() && a.toks[i] is Lit && loop_in(a.toks[i]->data) == Some(
                (p, c),
            ) implies clamped(#[trigger] loop_saving(a, i, p, c)) < gain by {
            lemma_saving(a, i, p, c);
        }
    }
}

/// A loop step is not taken where a block gains more as a macro and saves bytes.
pub proof fn no_loop_before_a_better_macro(
    s: &PatternSynthesizer,
    a: Draft,
    b: Draft,
    i: int,
    t: int,
    pat: Seq<u8>,
    places: Seq<int>,
)
    requires
        s.is_best_loop(a, b, i),
        s.enable_macro,
        a.next < u32::MAX,
        toks_bytes(a.toks).len() <= isize::MAX,
        0 <= t < a.toks.len(),
        a.toks[t] is Lit,
        8 <= pat.len() <= 64 || (65 <= pat.len() <= 1024 && a.toks[t]->data.len() >= 256),
        stands_at(a.toks[t]->data, pat, places),
        places.len() >= 2,
        saves_bytes(a.toks, pat, a.next as u32),
    ensures
        clamped(macro_gain(pat.len(), places.len(), a.next as u32)) <= clamped(
            loop_offer(a.toks, i),
        ) || macro_gain(pat.len(), places.len(), a.next as u32) <= 0,
{
    let id = a.next as u32;
    let on = a.macro_terms();
    let data = a.toks[t]->data;
    occurrences_are_as_many_as_fit(data, pat, places);
    let p = places[0];
    lemma_gain_grows(pat.len(), places.len(), occurrences(data, pat, 0), id);
    assert(window(data, p, pat.len()) == pat);
    reveal(macro_shortens);
    sizes_are_exact(a.toks);
    sizes_are_exact(with_marks(a.toks, pat, Tok::Call { id }));
    size_is_exact(Tok::Lit { data: pat });
    assert(on.allow(pat));
    let top = clamped(loop_offer(a.toks, i)) as int;
    assert(s.no_better_macro(a, top));
    if pat.len() <= 64 {
        assert(clamped(token_offer(a.toks, t, pat.len(), p, on)) <= top);
    } else {
        assert(long_bound(data, on, top));
        assert(clamped(long_offer(data, pat.len(), p, on)) <= top);
    }
}

/// Differences come last, and none are left out: where loops and macros have led from
/// one program to another and nothing is left of them, the result has as differences
/// those literals that are picked, if that is enabled, and is that program if not.
pub proof fn differences_come_last(
    s: &PatternSynthesizer,
    a: Draft,
    mid: Draft,
    b: Draft,
    answers: Answers,
)
    requires
        s.is_result(a, b, answers),
        s.leads_to(a, mid),
        s.is_settled(mid),
    ensures
        !s.enable_map ==> b == mid,
        s.enable_map ==> b.toks == with_deltas(mid.toks, delta_picks(mid.toks, answers)),
        b.defs == mid.defs,
        forall|i: int|
            0 <= i < mid.toks.len() ==> #[trigger] delta_picks(mid.toks, answers)[i]
                == is_delta_pick(mid.toks[i], answers),
        delta_picks(mid.toks, answers).len() == mid.toks.len(),
{
    let m = choose|m: Draft| s.passes_through(a, m, b, answers);
    let x = choose|path: Seq<Draft>| #[trigger]
        s.is_best_path(path) && path.first() == a && path.last() == m;
    let y = choose|path: Seq<Draft>| #[trigger]
        s.is_best_path(path) && path.first() == a && path.last() == mid;
    lemma_paths_meet(s, x, y);
}

/// Every instruction but a literal is still there.
pub open spec fn others_stay(before: Seq<Tok>, after: Seq<Tok>) -> bool {
    forall|i: int|
        0 <= i < before.len() && !(#[trigger] before[i] is Lit) ==> after.contains(before[i])
}

proof fn lemma_marks_keep(toks: Seq<Tok>, pat: Seq<u8>, mark: Tok)
    ensures
        others_stay(toks, with_marks(toks, pat, mark)),
    decreases toks.len(),
{
    if toks.len() > 0 {
        let (front, last) = (toks.drop_last(), toks.last());
        lemma_marks_keep(front, pat, mark);
        let head = with_marks(front, pat, mark);
        let after = with_marks(toks, pat, mark);
        assert forall|i: int|
            0 <= i < toks.len() && !(#[trigger] toks[i] is Lit) implies after.contains(
            toks[i],
        ) by {
            if i < front.len() {
                assert(front[i] == toks[i]);
                let k = choose|k: int| 0 <= k < head.len() && head[k] == toks[i];
                assert(after[k] == toks[i]);
            } else {
                assert(after[head.len() as int] == last);
            }
        }
    }
}

proof fn lemma_deltas_keep(toks: Seq<Tok>, picks: Seq<bool>)
    ensures
        others_stay(toks, with_deltas(toks, picks)),
    decreases toks.len(),
{
    if toks.len() > 0 {
        let (front, last) = (toks.drop_last(), toks.last());
        lemma_deltas_keep(front, picks);
        let head = with_deltas(front, picks);
        let after = with_deltas(toks, picks);
        assert forall|i: int|
            0 <= i < toks.len() && !(#[trigger] toks[i] is Lit) implies after.contains(
            toks[i],
        ) by {
            if i < front.len() {
                assert(front[i] == toks[i]);
                let k = choose|k: int| 0 <= k < head.len() && head[k] == toks[i];
                assert(after[k] == toks[i]);
            } else {
                assert(after[head.len() as int] == last);
            }
        }
    }
}

proof fn lemma_stay_through(a: Seq<Tok>, b: Seq<Tok>, c: Seq<Tok>)
    requires
        others_stay(a, b),
        others_stay(b, c),
    ensures
        others_stay(a, c),
{
    assert forall|i: int| 0 <= i < a.len() && !(#[trigger] a[i] is Lit) implies c.contains(
        a[i],
    ) by {
        let j = choose|j: int| 0 <= j < b.len() && b[j] == a[i];
        assert(b[j] == a[i]);
    }
}

proof fn lemma_step_keeps_others(s: &PatternSynthesizer, a: Draft, b: Draft)
    requires
        s.is_best_step(a, b),
    ensures
        others_stay(a.toks, b.toks),
{
    if exists|i: int| s.is_best_loop(a, b, i) {
        let i = choose|i: int| s.is_best_loop(a, b, i);
        assert(is_loop_step(a, b, i));
        let (period, count) = loop_in(a.toks[i]->data)->0;
        let seg = seq![loop_tok(a.toks[i]->data, period, count)];
        assert(b.toks == spliced(a.toks, i, seg));
        assert forall|k: int|
            0 <= k < a.toks.len() && !(#[trigger] a.toks[k] is Lit) implies b.toks.contains(
            a.toks[k],
        ) by {
            assert(b.toks[k] == a.toks[k]);
        }
    } else {
        let (pat, gain) = choose|pat: Seq<u8>, gain: int| s.is_best_macro(a, b, pat, gain);
        assert(is_macro_step(a, b, pat));
        lemma_marks_keep(a.toks, pat, Tok::Call { id: a.next as u32 });
    }
}

proof fn lemma_path_keeps_others(s: &PatternSynthesizer, path: Seq<Draft>, n: int)
    requires
        s.is_best_path(path),
        1 <= n <= path.len(),
    ensures
        others_stay(path.first().toks, path[n - 1].toks),
    decreases n,
{
    if n > 1 {
        lemma_path_keeps_others(s, path, n - 1);
        assert(s.is_best_step(path[n - 1 - 1], path[n - 1]));
        lemma_step_keeps_others(s, path[n - 2], path[n - 1]);
        lemma_stay_through(path.first().toks, path[n - 2].toks, path[n - 1].toks);
    } else {
        let toks = path.first().toks;
        assert forall|i: int|
            0 <= i < toks.len() && !(#[trigger] toks[i] is Lit) implies toks.contains(
            toks[i],
        ) by {}
    }
}

/// Rewriting changes literals and nothing else: every copy, call, loop, reference and
/// scan stays.
pub proof fn rewriting_changes_literals_only(
    s: &PatternSynthesizer,
    a: Draft,
    b: Draft,
    answers: Answers,
)
    requires
        s.is_result(a, b, answers),
    ensures
        others_stay(a.toks, b.toks),
{
    let m = choose|m: Draft| s.passes_through(a, m, b, answers);
    let path = choose|path: Seq<Draft>| #[trigger]
        s.is_best_path(path) && path.first() == a && path.last() == m;
    lemma_path_keeps_others(s, path, path.len() as int);
    if s.enable_map {
        lemma_deltas_keep(m.toks, delta_picks(m.toks, answers));
        lemma_stay_through(a.toks, m.toks, b.toks);
    }
}

/// With scans enabled, what is synthesized of raw data with a table has a scan.
pub proof fn tables_of_raw_data_become_scans(
    s: &PatternSynthesizer,
    data: Seq<u8>,
    b: Draft,
    answers: Answers,
)
    requires
        s.is_raw_result(data, b, answers),
        s.enable_scan,
        fires(data, 0),
        data.len() > 0,
    ensures
        exists|i: int| 0 <= i < b.toks.len() && #[trigger] b.toks[i] is Scan,
{
    let d = choose|d: Draft| #[trigger] s.is_scanned(data, d) && s.is_result(d, b, answers);
    tables_become_scans(s, data, d);
    let i = choose|i: int| 0 <= i < d.toks.len() && #[trigger] d.toks[i] is Scan;
    rewriting_changes_literals_only(s, d, b, answers);
    assert(b.toks.contains(d.toks[i]));
    let k = choose|k: int| 0 <= k < b.toks.len() && b.toks[k] == d.toks[i];
    assert(b.toks[k] is Scan);
}

/// Tables become scans until none is left: what is left of the data at the end, as a
/// literal, has no table, unless there are no more ids for templates.
pub proof fn no_table_is_left(data: Seq<u8>, a: Draft, b: Draft)
    requires
        is_scanning(data, a, b),
    ensures
        exists|rest: Seq<u8>|
            #![trigger lit_or_nothing(rest)]
            {
                &&& b.toks.len() >= lit_or_nothing(rest).len()
                &&& b.toks.skip(b.toks.len() - lit_or_nothing(rest).len()) == lit_or_nothing(rest)
                &&& rest.len() == 0 || b.next >= u32::MAX || !fires(rest, b.next as u32)
            },
    decreases data.len(),
{
    if data.len() > 0 && a.next < u32::MAX && fires(data, a.next as u32) {
        let found = choose|found: ScanResult| #[trigger]
            is_best_scan(found, data, a.next as u32) && found.suffix@.len() < data.len()
                && is_scanning(found.suffix@, with_scan(a, found), b);
        no_table_is_left(found.suffix@, with_scan(a, found), b);
    } else {
        let tail = lit_or_nothing(data);
        assert(b.toks.skip(b.toks.len() - tail.len()) =~= tail);
    }
}

/// A hybrid program is what is synthesized of the raw data, with each literal that is
/// left parsed by itself.
pub proof fn hybrid_programs_parse_what_is_left(
    p: PatternSynthesizer,
    lz: LzEncoder,
    data: Seq<u8>,
    raw: Draft,
    b: Draft,
    answers: Answers,
)
    requires
        is_hybrid(p, lz, data, b, answers),
        p.is_raw_result(data, raw, answers),
    ensures
        b.toks == with_parses(raw.toks, &lz),
        b.defs == raw.defs,
{
    let x = choose|raw: Draft| #[trigger]
        p.is_raw_result(data, raw, answers) && b.toks == with_parses(raw.toks, &lz) && b.defs
            == raw.defs && b.next == raw.next;
    raw_synthesis_is_determined(&p, data, x, raw, answers);
}

/// The scheduler synthesizes a parse with the rewritings that its kind asks for, and
/// leaves binary and compressed data parsed.
pub proof fn scheduling_follows_the_kind(
    class: DataClass,
    p: PatternSynthesizer,
    a: Draft,
    b: Draft,
    answers: Answers,
)
    requires
        is_scheduled(class, a, b, answers),
    ensures
        class == DataClass::Binary || class == DataClass::AlreadyCompressed ==> b == a,
        class == DataClass::UnstructuredText && !p.enable_loop && !p.enable_macro && p.enable_map
            && !p.enable_scan ==> p.is_result(a, b, answers),
        (class == DataClass::StructuredLog || class == DataClass::JsonArray || class
            == DataClass::SemiStructured) && p.enable_loop && p.enable_macro && p.enable_map
            && p.enable_scan ==> p.is_result(a, b, answers),
{
    if let Some(s) = synthesis_for(class) {
        let q = choose|q: PatternSynthesizer|
            has_settings(q, s) && #[trigger] q.is_result(a, b, answers);
        if has_settings(p, s) {
            assert(p == q);
        }
    }
}

/// Synthesis goes on until nothing is left: loops and macros lead from the program to
/// one where none gains any more, and without differences that is the result.
pub proof fn synthesis_goes_on_until_nothing_is_left(
    s: &PatternSynthesizer,
    a: Draft,
    b: Draft,
    answers: Answers,
)
    requires
        s.is_result(a, b, answers),
    ensures
        exists|mid: Draft| #[trigger] s.leads_to(a, mid) && s.is_settled(mid),
        !s.enable_map ==> s.is_settled(b) && s.leads_to(a, b),
{
    let m = choose|m: Draft| s.passes_through(a, m, b, answers);
    assert(s.leads_to(a, m));
    if !s.enable_map {
        assert(b == m);
    }
}

/// Synthesis of raw data starts from the data as one literal, turns its tables into
/// scans if that is enabled, and then goes on with loops, macros and differences.
pub proof fn raw_synthesis_goes_on_after_tables(
    s: &PatternSynthesizer,
    data: Seq<u8>,
    d: Draft,
    b: Draft,
    answers: Answers,
)
    requires
        s.is_raw_result(data, b, answers),
        s.is_scanned(data, d),
    ensures
        s.is_result(d, b, answers),
        !s.enable_scan && data.len() > 0 ==> d.toks == seq![Tok::Lit { data }],
        !s.enable_scan ==> d.defs == vstd::map::Map::<u32, Seq<Tok>>::empty(),
{
    let x = choose|x: Draft| #[trigger] s.is_scanned(data, x) && s.is_result(x, b, answers);
    if s.enable_scan {
        lemma_scanning_is_one(data, nothing(), x, d);
    }
    assert(x == d);
}

} // verus!
