//! What the synthesizer promises of its results as a whole.

use vstd::prelude::*;
use crate::bytes::lemma_lex_total;
use crate::judge::Answers;
use crate::synth::draft::{
    is_loop_step, is_macro_step, rewriting_never_lengthens, spliced, whole, with_deltas,
    with_marks, Draft,
};
use crate::synth::loops::{clamped, loop_in, loop_tok};
use crate::synth::macros::{
    first_from, is_first_offer, lemma_first_from, macro_gain, split, token_offer, window, Terms,
};
use crate::synth::rewrite::{
    delta_picks, is_long_offer, is_long_offer_of, is_scanning, is_short_offer, is_top_macro,
    long_below, long_bound, loop_offer, macro_bound, nothing, with_scan,
    PatternSynthesizer,
};
use crate::synth::scan::{fires, is_best_scan};
use crate::synth::suffix::{comes_before, is_first_long, long_offer, SA_THRESHOLD};
use crate::synth::table::ScanResult;
use crate::synth::token::tok_of;
use crate::tokens::Tok;

verus! {

impl PatternSynthesizer {
    /// The token is of a kind that the enabled rewritings of loops, macros and
    /// differences write.
    pub open spec fn may_write(&self, t: Tok) -> bool {
        match t {
            Tok::Lit { .. } => true,
            Tok::Loop { .. } => self.enable_loop,
            Tok::Call { .. } => self.enable_macro,
            Tok::MapBlock { .. } => self.enable_map,
            _ => false,
        }
    }

    /// Every token is one of the others, or of a kind that may be written.
    pub open spec fn adds_only_own(&self, before: Seq<Tok>, after: Seq<Tok>) -> bool {
        forall|i: int|
            0 <= i < after.len() ==> self.may_write(#[trigger] after[i]) || before.contains(
                after[i],
            )
    }
}

/// Replacing a token adds nothing but the replacement.
proof fn lemma_spliced_adds(s: &PatternSynthesizer, toks: Seq<Tok>, i: int, seg: Seq<Tok>)
    requires
        0 <= i < toks.len(),
        forall|k: int| 0 <= k < seg.len() ==> s.may_write(#[trigger] seg[k]),
    ensures
        s.adds_only_own(toks, spliced(toks, i, seg)),
{
    let after = spliced(toks, i, seg);
    assert forall|k: int| 0 <= k < after.len() implies s.may_write(#[trigger] after[k])
        || toks.contains(after[k]) by {
        if k < i {
            assert(after[k] == toks[k]);
        } else if k < i + seg.len() {
            assert(after[k] == seg[k - i]);
        } else {
            assert(after[k] == toks[k - seg.len() + 1]);
        }
    }
}

/// A split literal holds marks and literals.
proof fn lemma_split_kinds(data: Seq<u8>, pat: Seq<u8>, mark: Tok, pos: int)
    requires
        0 <= pos <= data.len(),
    ensures
        forall|k: int|
            0 <= k < split(data, pat, mark, pos).len() ==> (#[trigger] split(
                data,
                pat,
                mark,
                pos,
            )[k] is Lit) || split(data, pat, mark, pos)[k] == mark,
    decreases data.len() - pos,
{
    if pos < data.len() {
        lemma_first_from(data, pat, pos);
        if let Some(hit) = first_from(data, pat, pos) {
            lemma_split_kinds(data, pat, mark, hit + pat.len());
        }
    }
}

/// Calling a macro adds calls and literals.
proof fn lemma_marks_add(s: &PatternSynthesizer, toks: Seq<Tok>, pat: Seq<u8>, mark: Tok)
    requires
        s.may_write(mark),
    ensures
        s.adds_only_own(toks, with_marks(toks, pat, mark)),
    decreases toks.len(),
{
    if toks.len() > 0 {
        let (front, last) = (toks.drop_last(), toks.last());
        lemma_marks_add(s, front, pat, mark);
        if last is Lit {
            lemma_split_kinds(last->data, pat, mark, 0);
        }
        let head = with_marks(front, pat, mark);
        let after = with_marks(toks, pat, mark);
        assert forall|k: int| 0 <= k < after.len() implies s.may_write(#[trigger] after[k])
            || toks.contains(after[k]) by {
            if k < head.len() {
                assert(after[k] == head[k]);
                if front.contains(head[k]) {
                    let j = choose|j: int| 0 <= j < front.len() && front[j] == head[k];
                    assert(toks[j] == head[k]);
                }
            } else if last is Lit {
                assert(after[k] == split(last->data, pat, mark, 0)[k - head.len()]);
            } else {
                assert(after[k] == last);
                assert(toks[toks.len() - 1] == last);
            }
        }
    }
}

/// Writing literals as differences adds literals and summings.
proof fn lemma_deltas_add(s: &PatternSynthesizer, toks: Seq<Tok>, picks: Seq<bool>)
    requires
        s.enable_map,
    ensures
        s.adds_only_own(toks, with_deltas(toks, picks)),
    decreases toks.len(),
{
    if toks.len() > 0 {
        let (front, last) = (toks.drop_last(), toks.last());
        lemma_deltas_add(s, front, picks);
        let head = with_deltas(front, picks);
        let after = with_deltas(toks, picks);
        assert forall|k: int| 0 <= k < after.len() implies s.may_write(#[trigger] after[k])
            || toks.contains(after[k]) by {
            if k < head.len() {
                assert(after[k] == head[k]);
                if front.contains(head[k]) {
                    let j = choose|j: int| 0 <= j < front.len() && front[j] == head[k];
                    assert(toks[j] == head[k]);
                }
            } else if !(last is Lit && picks[toks.len() - 1]) {
                assert(after[k] == last);
                assert(toks[toks.len() - 1] == last);
            }
        }
    }
}

proof fn lemma_adds_through(s: &PatternSynthesizer, a: Seq<Tok>, b: Seq<Tok>, c: Seq<Tok>)
    requires
        s.adds_only_own(a, b),
        s.adds_only_own(b, c),
    ensures
        s.adds_only_own(a, c),
{
    assert forall|i: int| 0 <= i < c.len() implies s.may_write(#[trigger] c[i]) || a.contains(
        c[i],
    ) by {
        if b.contains(c[i]) {
            let j = choose|j: int| 0 <= j < b.len() && b[j] == c[i];
            assert(s.may_write(b[j]) || a.contains(b[j]));
        }
    }
}

/// The macros of the first draft are among those of the second, and are all of
/// them if macros are disabled.
pub open spec fn keeps_macros(s: &PatternSynthesizer, a: Draft, b: Draft) -> bool {
    &&& forall|id: u32| #[trigger]
        a.defs.contains_key(id) ==> b.defs.contains_key(id) && b.defs[id] == a.defs[id]
    &&& a.next <= b.next
    &&& !s.enable_macro ==> b.defs == a.defs && b.next == a.next
}

proof fn lemma_step_adds(s: &PatternSynthesizer, a: Draft, b: Draft)
    requires
        a.ok(),
        s.is_best_step(a, b),
    ensures
        s.adds_only_own(a.toks, b.toks),
        keeps_macros(s, a, b),
        b.ok(),
{
    if exists|i: int| s.is_best_loop(a, b, i) {
        let i = choose|i: int| s.is_best_loop(a, b, i);
        assert(is_loop_step(a, b, i));
        let (period, count) = loop_in(a.toks[i]->data)->0;
        let seg = seq![loop_tok(a.toks[i]->data, period, count)];
        lemma_spliced_adds(s, a.toks, i, seg);
    } else {
        let (pat, gain) = choose|pat: Seq<u8>, gain: int| s.is_best_macro(a, b, pat, gain);
        assert(is_macro_step(a, b, pat));
        lemma_marks_add(s, a.toks, pat, Tok::Call { id: a.next as u32 });
    }
}

proof fn lemma_path_adds(s: &PatternSynthesizer, path: Seq<Draft>, n: int)
    requires
        s.is_best_path(path),
        path.first().ok(),
        1 <= n <= path.len(),
    ensures
        s.adds_only_own(path.first().toks, path[n - 1].toks),
        keeps_macros(s, path.first(), path[n - 1]),
        path[n - 1].ok(),
    decreases n,
{
    if n > 1 {
        lemma_path_adds(s, path, n - 1);
        let (a, b) = (path[n - 2], path[n - 1]);
        assert(s.is_best_step(path[n - 1 - 1], path[n - 1]));
        lemma_step_adds(s, a, b);
        lemma_adds_through(s, path.first().toks, a.toks, b.toks);
    } else {
        let toks = path.first().toks;
        assert forall|i: int| 0 <= i < toks.len() implies s.may_write(#[trigger] toks[i])
            || toks.contains(toks[i]) by {}
    }
}

/// A disabled rewriting adds nothing of its own: each instruction of the result
/// was there before, or is a literal, a loop with loops enabled, a call with
/// macros enabled, or a transform with differences enabled. Macros stay as they
/// are, and none is added if they are disabled.
pub proof fn disabled_rewritings_add_nothing(
    s: &PatternSynthesizer,
    a: Draft,
    b: Draft,
    answers: Answers,
)
    requires
        s.is_result(a, b, answers),
        a.ok(),
    ensures
        s.adds_only_own(a.toks, b.toks),
        keeps_macros(s, a, b),
{
    let mid = choose|mid: Draft| s.passes_through(a, mid, b, answers);
    let path = choose|path: Seq<Draft>| #[trigger]
        s.is_best_path(path) && path.first() == a && path.last() == mid;
    lemma_path_adds(s, path, path.len() as int);
    if s.enable_map {
        lemma_deltas_add(s, mid.toks, delta_picks(mid.toks, answers));
        lemma_adds_through(s, a.toks, mid.toks, b.toks);
    }
}

/// What is found of a table is a scan.
proof fn lemma_scan_token(found: ScanResult, data: Seq<u8>, id: u32)
    requires
        is_best_scan(found, data, id),
    ensures
        tok_of(found.scan_tok) is Scan,
{
}

/// The token is a literal or a scan.
pub open spec fn is_lit_or_scan(t: Tok) -> bool {
    t is Lit || t is Scan
}

proof fn lemma_scanning_kinds(data: Seq<u8>, a: Draft, b: Draft)
    requires
        is_scanning(data, a, b),
        forall|i: int| 0 <= i < a.toks.len() ==> is_lit_or_scan(#[trigger] a.toks[i]),
    ensures
        forall|i: int| 0 <= i < b.toks.len() ==> is_lit_or_scan(#[trigger] b.toks[i]),
    decreases data.len(),
{
    if data.len() > 0 && a.next < u32::MAX && fires(data, a.next as u32) {
        let found = choose|found: ScanResult| #[trigger]
            is_best_scan(found, data, a.next as u32) && found.suffix@.len() < data.len()
                && is_scanning(found.suffix@, with_scan(a, found), b);
        lemma_scan_token(found, data, a.next as u32);
        let now = with_scan(a, found);
        assert forall|i: int| 0 <= i < now.toks.len() implies is_lit_or_scan(
            #[trigger] now.toks[i],
        ) by {
            if i < a.toks.len() {
                assert(now.toks[i] == a.toks[i]);
            }
        }
        lemma_scanning_kinds(found.suffix@, now, b);
    } else {
        assert forall|i: int| 0 <= i < b.toks.len() implies is_lit_or_scan(#[trigger] b.toks[i]) by {
            if i < a.toks.len() {
                assert(b.toks[i] == a.toks[i]);
            }
        }
    }
}

/// A program that is synthesized from the data as it is copies nothing from the
/// output, looks nothing up and takes no fields: it holds scans, if they are
/// enabled, and what the other rewritings write.
pub proof fn raw_synthesis_copies_nothing(
    s: &PatternSynthesizer,
    data: Seq<u8>,
    b: Draft,
    answers: Answers,
)
    requires
        s.is_raw_result(data, b, answers),
    ensures
        forall|i: int|
            0 <= i < b.toks.len() ==> s.may_write(#[trigger] b.toks[i]) || (s.enable_scan
                && b.toks[i] is Scan),
{
    let scanned = choose|scanned: Draft| #[trigger]
        s.is_scanned(data, scanned) && s.is_result(scanned, b, answers);
    assert(whole(data).ok());
    rewriting_never_lengthens(whole(data), scanned);
    if s.enable_scan {
        lemma_scanning_kinds(data, nothing(), scanned);
    }
    disabled_rewritings_add_nothing(s, scanned, b, answers);
    assert forall|i: int| 0 <= i < b.toks.len() implies s.may_write(#[trigger] b.toks[i]) || (
    s.enable_scan && b.toks[i] is Scan) by {
        if scanned.toks.contains(b.toks[i]) {
            let j = choose|j: int| 0 <= j < scanned.toks.len() && scanned.toks[j] == b.toks[i];
            if s.enable_scan {
                assert(is_lit_or_scan(scanned.toks[j]));
            }
        }
    }
}

/// A block that gains most gains what it states.
proof fn lemma_top_is_reached(toks: Seq<Tok>, on: Terms, pat: Seq<u8>, gain: int, bound: int)
    requires
        is_top_macro(toks, on, pat, gain),
        macro_bound(toks, on, bound),
    ensures
        gain <= bound,
{
    if is_short_offer(toks, on, pat, gain) {
        let (t, len, p, occur) = choose|t: int, len: nat, p: int, occur: nat|
            {
                &&& #[trigger] is_first_offer(toks, t, len, p, on, pat, occur)
                &&& gain == clamped(macro_gain(pat.len(), occur, on.id))
                &&& forall|u: int, l: nat, q: int| #[trigger]
                    token_offer(toks, u, l, q, on) <= macro_gain(pat.len(), occur, on.id)
            };
        assert(clamped(token_offer(toks, t, len, p, on)) == gain);
    } else {
        let t = choose|t: int|
            {
                &&& #[trigger] is_long_offer_of(toks, t, on, pat, gain)
                &&& forall|u: int|
                    0 <= u < t && #[trigger] toks[u] is Lit && toks[u]->data.len() >= SA_THRESHOLD
                        ==> long_below(toks[u]->data, on, gain)
            };
        let (p, occur) = lemma_long_reached(toks, t, on, pat, gain);
        assert(long_bound(toks[t]->data, on, bound));
    }
}

/// The place of a long block that gains most, and how often the block occurs.
proof fn lemma_long_reached(toks: Seq<Tok>, t: int, on: Terms, pat: Seq<u8>, gain: int) -> (r: (
    int,
    nat,
))
    requires
        is_long_offer_of(toks, t, on, pat, gain),
    ensures
        is_first_long(toks[t]->data, r.0, pat, r.1, on),
        clamped(long_offer(toks[t]->data, pat.len(), r.0, on)) == gain,
        long_offer(toks[t]->data, pat.len(), r.0, on) == macro_gain(pat.len(), r.1, on.id),
        forall|len: nat, q: int| #[trigger]
            long_offer(toks[t]->data, len, q, on) <= macro_gain(pat.len(), r.1, on.id),
{
    let data = toks[t]->data;
    let (p, occur) = choose|p: int, occur: nat|
        {
            &&& #[trigger] is_first_long(data, p, pat, occur, on)
            &&& gain == clamped(macro_gain(pat.len(), occur, on.id))
            &&& forall|len: nat, q: int| #[trigger]
                long_offer(data, len, q, on) <= macro_gain(pat.len(), occur, on.id)
        };
    (p, occur)
}

/// Of the short blocks one alone is the first that gains most.
proof fn lemma_short_is_one(toks: Seq<Tok>, on: Terms, v: Seq<u8>, w: Seq<u8>, gain: int)
    requires
        is_short_offer(toks, on, v, gain),
        is_short_offer(toks, on, w, gain),
    ensures
        v == w,
{
    let (t1, l1, p1, o1) = choose|t: int, len: nat, p: int, occur: nat|
        {
            &&& #[trigger] is_first_offer(toks, t, len, p, on, v, occur)
            &&& gain == clamped(macro_gain(v.len(), occur, on.id))
            &&& forall|u: int, l: nat, q: int| #[trigger]
                token_offer(toks, u, l, q, on) <= macro_gain(v.len(), occur, on.id)
        };
    let (t2, l2, p2, o2) = choose|t: int, len: nat, p: int, occur: nat|
        {
            &&& #[trigger] is_first_offer(toks, t, len, p, on, w, occur)
            &&& gain == clamped(macro_gain(w.len(), occur, on.id))
            &&& forall|u: int, l: nat, q: int| #[trigger]
                token_offer(toks, u, l, q, on) <= macro_gain(w.len(), occur, on.id)
        };
    assert(token_offer(toks, t1, l1, p1, on) <= macro_gain(w.len(), o2, on.id));
    assert(token_offer(toks, t2, l2, p2, on) <= macro_gain(v.len(), o1, on.id));
    assert(t1 == t2 && l1 == l2 && p1 == p2);
}

/// Of the long blocks one alone is the first that gains most.
proof fn lemma_long_is_one(toks: Seq<Tok>, on: Terms, v: Seq<u8>, w: Seq<u8>, gain: int)
    requires
        is_long_offer(toks, on, v, gain),
        is_long_offer(toks, on, w, gain),
    ensures
        v == w,
{
    let t1 = choose|t: int|
        {
            &&& #[trigger] is_long_offer_of(toks, t, on, v, gain)
            &&& forall|u: int|
                0 <= u < t && #[trigger] toks[u] is Lit && toks[u]->data.len() >= SA_THRESHOLD
                    ==> long_below(toks[u]->data, on, gain)
        };
    let t2 = choose|t: int|
        {
            &&& #[trigger] is_long_offer_of(toks, t, on, w, gain)
            &&& forall|u: int|
                0 <= u < t && #[trigger] toks[u] is Lit && toks[u]->data.len() >= SA_THRESHOLD
                    ==> long_below(toks[u]->data, on, gain)
        };
    let (p1, o1) = lemma_long_reached(toks, t1, on, v, gain);
    let (p2, o2) = lemma_long_reached(toks, t2, on, w, gain);
    if t1 < t2 {
        assert(long_below(toks[t1]->data, on, gain));
    }
    if t2 < t1 {
        assert(long_below(toks[t2]->data, on, gain));
    }
    lemma_lex_total(v, w);
    let data = toks[t1]->data;
    assert(window(data, p1, v.len()) == v && window(data, p2, w.len()) == w);
    if comes_before(v, w) {
        assert(long_offer(data, v.len(), p1, on) < macro_gain(w.len(), o2, on.id));
    }
    if comes_before(w, v) {
        assert(long_offer(data, w.len(), p2, on) < macro_gain(v.len(), o1, on.id));
    }
}

/// One block alone is the best macro.
pub proof fn the_best_macro_is_one(
    toks: Seq<Tok>,
    on: Terms,
    v: Seq<u8>,
    w: Seq<u8>,
    g: int,
    h: int,
)
    requires
        is_top_macro(toks, on, v, g),
        is_top_macro(toks, on, w, h),
    ensures
        v == w,
        g == h,
{
    lemma_top_is_reached(toks, on, v, g, h);
    lemma_top_is_reached(toks, on, w, h, g);
    if is_short_offer(toks, on, v, g) {
        lemma_short_reached(toks, on, v, g);
        lemma_short_is_one(toks, on, v, w, g);
    } else if is_short_offer(toks, on, w, h) {
        lemma_short_reached(toks, on, w, h);
    } else {
        lemma_long_is_one(toks, on, v, w, g);
    }
}

/// Some window offers what the best short block gains.
proof fn lemma_short_reached(toks: Seq<Tok>, on: Terms, pat: Seq<u8>, gain: int)
    requires
        is_short_offer(toks, on, pat, gain),
    ensures
        exists|t: int, len: nat, p: int|
            clamped(#[trigger] token_offer(toks, t, len, p, on)) == gain,
{
    let (t, len, p, occur) = choose|t: int, len: nat, p: int, occur: nat|
        {
            &&& #[trigger] is_first_offer(toks, t, len, p, on, pat, occur)
            &&& gain == clamped(macro_gain(pat.len(), occur, on.id))
            &&& forall|u: int, l: nat, q: int| #[trigger]
                token_offer(toks, u, l, q, on) <= macro_gain(pat.len(), occur, on.id)
        };
    assert(clamped(token_offer(toks, t, len, p, on)) == gain);
}

/// Where nothing is left to rewrite, no step is the best.
proof fn lemma_settled(s: &PatternSynthesizer, a: Draft, b: Draft)
    requires
        s.is_settled(a),
    ensures
        !s.is_best_step(a, b),
{
    if exists|i: int| s.is_best_loop(a, b, i) {
        let i = choose|i: int| s.is_best_loop(a, b, i);
        reveal(loop_offer);
        assert(loop_offer(a.toks, i) > 0);
    }
    if exists|pat: Seq<u8>, gain: int| s.is_best_macro(a, b, pat, gain) {
        let (pat, gain) = choose|pat: Seq<u8>, gain: int| s.is_best_macro(a, b, pat, gain);
        lemma_top_is_reached(a.toks, a.macro_terms(), pat, gain, 0);
    }
}

/// Once nothing is left to rewrite, rewriting loops and macros again changes
/// nothing.
pub proof fn settled_programs_stay(s: &PatternSynthesizer, a: Draft, b: Draft)
    requires
        s.is_settled(a),
        s.leads_to(a, b),
    ensures
        b == a,
{
    let path = choose|path: Seq<Draft>| #[trigger]
        s.is_best_path(path) && path.first() == a && path.last() == b;
    if path.len() > 1 {
        lemma_settled(s, a, path[1]);
        assert(s.is_best_step(path[1 - 1], path[1]));
    }
}

/// Synthesizing again what was synthesized changes nothing, unless literals are
/// written as differences.
pub proof fn second_synthesis_changes_nothing(
    s: &PatternSynthesizer,
    a: Draft,
    b: Draft,
    c: Draft,
    answers: Answers,
)
    requires
        s.is_result(a, b, answers),
        s.is_result(b, c, answers),
        !s.enable_map,
    ensures
        c == b,
{
    let mid = choose|mid: Draft| s.passes_through(a, mid, b, answers);
    assert(b == mid);
    let end = choose|end: Draft| s.passes_through(b, end, c, answers);
    assert(c == end);
    settled_programs_stay(s, b, c);
}

/// A loop and a macro are not both the best step.
proof fn lemma_loop_or_macro(
    s: &PatternSynthesizer,
    a: Draft,
    b: Draft,
    c: Draft,
    i: int,
    pat: Seq<u8>,
    gain: int,
)
    requires
        s.is_best_loop(a, b, i),
    ensures
        !s.is_best_macro(a, c, pat, gain),
{
    if s.is_best_macro(a, c, pat, gain) {
        let top = clamped(loop_offer(a.toks, i)) as int;
        assert(s.no_better_macro(a, top));
        lemma_top_is_reached(a.toks, a.macro_terms(), pat, gain, top);
    }
}

/// One step alone is the best.
pub proof fn the_best_step_is_one(s: &PatternSynthesizer, a: Draft, b: Draft, c: Draft)
    requires
        s.is_best_step(a, b),
        s.is_best_step(a, c),
    ensures
        b == c,
{
    if exists|i: int| s.is_best_loop(a, b, i) {
        let i = choose|i: int| s.is_best_loop(a, b, i);
        if exists|j: int| s.is_best_loop(a, c, j) {
            let j = choose|j: int| s.is_best_loop(a, c, j);
            if i < j {
                assert(clamped(loop_offer(a.toks, i)) < clamped(loop_offer(a.toks, j)));
            }
            if j < i {
                assert(clamped(loop_offer(a.toks, j)) < clamped(loop_offer(a.toks, i)));
            }
            assert(b == c);
        } else {
            let (pat, gain) = choose|pat: Seq<u8>, gain: int| s.is_best_macro(a, c, pat, gain);
            lemma_loop_or_macro(s, a, b, c, i, pat, gain);
        }
    } else {
        let (pat, gain) = choose|pat: Seq<u8>, gain: int| s.is_best_macro(a, b, pat, gain);
        if exists|j: int| s.is_best_loop(a, c, j) {
            let j = choose|j: int| s.is_best_loop(a, c, j);
            lemma_loop_or_macro(s, a, c, b, j, pat, gain);
        } else {
            let (v, g) = choose|v: Seq<u8>, g: int| s.is_best_macro(a, c, v, g);
            the_best_macro_is_one(a.toks, a.macro_terms(), pat, v, gain, g);
            assert(b == c);
        }
    }
}

/// Best paths that end where nothing is left end at the same draft.
pub proof fn lemma_paths_meet(s: &PatternSynthesizer, x: Seq<Draft>, y: Seq<Draft>)
    requires
        s.is_best_path(x),
        s.is_best_path(y),
        x.first() == y.first(),
        s.is_settled(x.last()),
        s.is_settled(y.last()),
    ensures
        x.last() == y.last(),
    decreases x.len(),
{
    if x.len() == 1 {
        assert(s.leads_to(x.last(), y.last()));
        settled_programs_stay(s, x.last(), y.last());
    } else if y.len() == 1 {
        assert(s.leads_to(y.last(), x.last()));
        settled_programs_stay(s, y.last(), x.last());
    } else {
        assert(s.is_best_step(x[1 - 1], x[1]));
        assert(s.is_best_step(y[1 - 1], y[1]));
        the_best_step_is_one(s, x[0], x[1], y[1]);
        let (v, w) = (x.skip(1), y.skip(1));
        assert forall|k: int| 0 < k < v.len() implies s.is_best_step(v[k - 1], #[trigger] v[k]) by {
            assert(v[k] == x[k + 1] && v[k - 1] == x[k]);
            assert(s.is_best_step(x[k + 1 - 1], x[k + 1]));
        }
        assert forall|k: int| 0 < k < w.len() implies s.is_best_step(w[k - 1], #[trigger] w[k]) by {
            assert(w[k] == y[k + 1] && w[k - 1] == y[k]);
            assert(s.is_best_step(y[k + 1 - 1], y[k + 1]));
        }
        lemma_paths_meet(s, v, w);
    }
}

/// What synthesis makes of a program is determined by the program, the settings
/// and the answers.
pub proof fn synthesis_is_determined(
    s: &PatternSynthesizer,
    a: Draft,
    b: Draft,
    c: Draft,
    answers: Answers,
)
    requires
        s.is_result(a, b, answers),
        s.is_result(a, c, answers),
    ensures
        b == c,
{
    let m = choose|m: Draft| s.passes_through(a, m, b, answers);
    let n = choose|n: Draft| s.passes_through(a, n, c, answers);
    let x = choose|path: Seq<Draft>| #[trigger]
        s.is_best_path(path) && path.first() == a && path.last() == m;
    let y = choose|path: Seq<Draft>| #[trigger]
        s.is_best_path(path) && path.first() == a && path.last() == n;
    lemma_paths_meet(s, x, y);
}

/// What is found of a table is determined.
pub proof fn lemma_scan_is_one(f: ScanResult, g: ScanResult, data: Seq<u8>, a: Draft)
    requires
        is_best_scan(f, data, a.next as u32),
        is_best_scan(g, data, a.next as u32),
    ensures
        f.suffix@ == g.suffix@,
        with_scan(a, f) == with_scan(a, g),
{
}

/// How tables become scans is determined by the data.
pub proof fn lemma_scanning_is_one(data: Seq<u8>, a: Draft, b: Draft, c: Draft)
    requires
        is_scanning(data, a, b),
        is_scanning(data, a, c),
    ensures
        b == c,
    decreases data.len(),
{
    if data.len() > 0 && a.next < u32::MAX && fires(data, a.next as u32) {
        let f = choose|found: ScanResult| #[trigger]
            is_best_scan(found, data, a.next as u32) && found.suffix@.len() < data.len()
                && is_scanning(found.suffix@, with_scan(a, found), b);
        let g = choose|found: ScanResult| #[trigger]
            is_best_scan(found, data, a.next as u32) && found.suffix@.len() < data.len()
                && is_scanning(found.suffix@, with_scan(a, found), c);
        lemma_scan_is_one(f, g, data, a);
        lemma_scanning_is_one(f.suffix@, with_scan(a, f), b, c);
    }
}

/// What synthesis makes of the data as it is is determined by the data, the
/// settings and the answers.
pub proof fn raw_synthesis_is_determined(
    s: &PatternSynthesizer,
    data: Seq<u8>,
    b: Draft,
    c: Draft,
    answers: Answers,
)
    requires
        s.is_raw_result(data, b, answers),
        s.is_raw_result(data, c, answers),
    ensures
        b == c,
{
    let x = choose|scanned: Draft| #[trigger]
        s.is_scanned(data, scanned) && s.is_result(scanned, b, answers);
    let y = choose|scanned: Draft| #[trigger]
        s.is_scanned(data, scanned) && s.is_result(scanned, c, answers);
    if s.enable_scan {
        lemma_scanning_is_one(data, nothing(), x, y);
    }
    synthesis_is_determined(s, x, b, c, answers);
}

} // verus!
