//! The synthesizer: rewrites programs as long as that shortens them.

use vstd::prelude::*;
use crate::bytes::copy_of;
use crate::judge::{Answers, Judge};
use crate::lz::{LzAnalysis, LzEncoder, LzToken};
use crate::machine::{Transform, MAX_OUTPUT_BYTES};
use crate::synth::delta::{
    delta_bytes, delta_gain, delta_toks, deltas, estimate_delta_u8_gain, MIN_DELTA_LEN,
};
use crate::synth::draft::{
    deltas_keep_the_output, is_loop_step, is_macro_step, is_path, is_scan_step, is_step,
    lemma_deltas_within, lemma_literal_restores, lemma_loop_period, lemma_restores_within,
    lemma_reaches_self, lemma_reaches_step, lits_within, parses_keep_the_output, reaches,
    rewriting_keeps_the_output, rewriting_lengthens_no_literal, rewriting_never_lengthens, spliced,
    step_shortens, whole, with_deltas, with_macro, with_marks, with_parses, Draft,
};
use crate::synth::loops::{
    clamped, detect_loop, loop_gain, loop_in, loop_mdl_gain, loop_tok,
};
use crate::synth::macros::{
    find_shortening_macro, is_first_offer, macro_gain, macro_shortens, shortening, split,
    split_literal, token_offer, Mark, Terms, MIN_MACRO_LEN,
};
use crate::synth::program::SynthProgram;
use crate::synth::scan::{detect_scan_best, fires, is_best_scan};
use crate::synth::suffix::{
    is_first_long, long_offer, search_suffixes, SA_MAX_PAT_LEN, SA_THRESHOLD,
};
use crate::synth::table::{is_split, lit_or_nothing, pays_off, Grid, ScanResult};
use crate::synth::token::{
    capped, lemma_loop_body, lemma_toks_of_push, tok_of, tokens_size, toks_of, SynthToken,
};
use crate::tokens::{
    lemma_toks_bytes_concat, lemma_toks_one, lemma_yields_refines, tok_size, toks_size, Tok,
};

verus! {

broadcast use vstd::std_specs::hash::group_hash_axioms;

impl SynthProgram {
    /// The program as a draft.
    pub open spec fn draft(&self) -> Draft {
        Draft { toks: self.toks(), defs: self.defs(), next: self.next_sub_id as nat }
    }

    /// Run from the start, the program yields `data`.
    pub open spec fn restores(&self, data: Seq<u8>) -> bool {
        self.draft().restores(self.consensus@, data)
    }
}

impl Draft {
    /// The terms on which blocks become the next macro: they have to shorten the
    /// program.
    pub open spec fn macro_terms(self) -> Terms {
        shortening(self.toks, self.next as u32)
    }
}

/// What writing literal `i` as a loop gains, if it is one.
#[verifier::opaque]
pub open spec fn loop_offer(toks: Seq<Tok>, i: int) -> int {
    if 0 <= i < toks.len() && toks[i] is Lit {
        match loop_in(toks[i]->data) {
            Some((period, count)) => loop_gain(toks[i]->data.len(), period, count),
            None => 0,
        }
    } else {
        0
    }
}

/// No long block of a literal offers more than `gain`.
pub open spec fn long_bound(data: Seq<u8>, on: Terms, gain: int) -> bool {
    forall|len: nat, p: int| clamped(#[trigger] long_offer(data, len, p, on)) <= gain
}

/// No block of the literals offers more than `gain`.
pub open spec fn macro_bound(toks: Seq<Tok>, on: Terms, gain: int) -> bool {
    &&& forall|t: int, len: nat, p: int|
        clamped(#[trigger] token_offer(toks, t, len, p, on)) <= gain
    &&& forall|t: int|
        0 <= t < toks.len() && #[trigger] toks[t] is Lit && toks[t]->data.len() >= SA_THRESHOLD
            ==> long_bound(toks[t]->data, on, gain)
}

/// Every long block of a literal offers less than `gain`.
pub open spec fn long_below(data: Seq<u8>, on: Terms, gain: int) -> bool {
    forall|len: nat, p: int| clamped(#[trigger] long_offer(data, len, p, on)) < gain
}

/// The block is the first of the short ones that offer most, and offers this.
pub open spec fn is_short_offer(toks: Seq<Tok>, on: Terms, pat: Seq<u8>, gain: int) -> bool {
    exists|t: int, len: nat, p: int, occur: nat|
        {
            &&& #[trigger] is_first_offer(toks, t, len, p, on, pat, occur)
            &&& gain == clamped(macro_gain(pat.len(), occur, on.id))
            &&& forall|u: int, l: nat, q: int| #[trigger]
                token_offer(toks, u, l, q, on) <= macro_gain(pat.len(), occur, on.id)
        }
}

/// The block is the first of the long ones of literal `t` that offer most, and
/// offers this.
pub open spec fn is_long_offer_of(
    toks: Seq<Tok>,
    t: int,
    on: Terms,
    pat: Seq<u8>,
    gain: int,
) -> bool {
    &&& 0 <= t < toks.len()
    &&& toks[t] is Lit
    &&& toks[t]->data.len() >= SA_THRESHOLD
    &&& exists|p: int, occur: nat|
        {
            &&& #[trigger] is_first_long(toks[t]->data, p, pat, occur, on)
            &&& gain == clamped(macro_gain(pat.len(), occur, on.id))
            &&& forall|len: nat, q: int| #[trigger]
                long_offer(toks[t]->data, len, q, on) <= macro_gain(pat.len(), occur, on.id)
        }
}

/// The block is the first of the long ones that offer this: its literal is the
/// first that holds one.
pub open spec fn is_long_offer(toks: Seq<Tok>, on: Terms, pat: Seq<u8>, gain: int) -> bool {
    exists|t: int|
        {
            &&& #[trigger] is_long_offer_of(toks, t, on, pat, gain)
            &&& forall|u: int|
                0 <= u < t && #[trigger] toks[u] is Lit && toks[u]->data.len() >= SA_THRESHOLD
                    ==> long_below(toks[u]->data, on, gain)
        }
}

/// No block offers more than this one does. Of blocks that offer the same a short
/// one comes before the long ones.
pub open spec fn is_top_macro(toks: Seq<Tok>, on: Terms, pat: Seq<u8>, gain: int) -> bool {
    &&& gain > 0
    &&& macro_bound(toks, on, gain)
    &&& {
        ||| is_short_offer(toks, on, pat, gain)
        ||| is_long_offer(toks, on, pat, gain) && forall|t: int, len: nat, p: int|
            clamped(#[trigger] token_offer(toks, t, len, p, on)) < gain
    }
}

/// Which rewritings the synthesizer uses.
pub struct PatternSynthesizer {
    pub enable_loop: bool,
    pub enable_macro: bool,
    pub enable_map: bool,
    pub enable_scan: bool,
}

impl Default for PatternSynthesizer {
    fn default() -> (s: PatternSynthesizer)
        ensures
            s.enable_loop && s.enable_macro && s.enable_map && s.enable_scan,
    {
        PatternSynthesizer {
            enable_loop: true,
            enable_macro: true,
            enable_map: true,
            enable_scan: true,
        }
    }
}

/// The program without instructions.
pub open spec fn nothing() -> Draft {
    Draft { toks: Seq::empty(), defs: vstd::map::Map::empty(), next: 0 }
}

/// The draft with a scan at its end, and what stands before the table as a
/// literal.
pub open spec fn with_scan(d: Draft, found: ScanResult) -> Draft {
    Draft {
        toks: d.toks + lit_or_nothing(found.prefix@) + seq![tok_of(found.scan_tok)],
        defs: d.defs.insert(d.next as u32, toks_of(found.template@)),
        next: d.next + 1,
    }
}

/// The second draft is the first with the data at its end, in which tables
/// became scans, from the front to the back, until no table is found in what is
/// left.
pub open spec fn is_scanning(data: Seq<u8>, a: Draft, b: Draft) -> bool
    decreases data.len(),
{
    if data.len() > 0 && a.next < u32::MAX && fires(data, a.next as u32) {
        exists|found: ScanResult| #[trigger]
            is_best_scan(found, data, a.next as u32) && found.suffix@.len() < data.len()
                && is_scanning(found.suffix@, with_scan(a, found), b)
    } else {
        b.toks == a.toks + lit_or_nothing(data) && b.defs == a.defs && b.next == a.next
    }
}

/// Best steps are rewriting steps.
proof fn lemma_leads_reaches(s: &PatternSynthesizer, a: Draft, b: Draft)
    requires
        s.leads_to(a, b),
    ensures
        reaches(a, b),
{
    let path = choose|path: Seq<Draft>| #[trigger]
        s.is_best_path(path) && path.first() == a && path.last() == b;
    assert forall|k: int| 0 < k < path.len() implies is_step(path[k - 1], #[trigger] path[k]) by {
        assert(s.is_best_step(path[k - 1], path[k]));
    }
    assert(is_path(path));
}

proof fn lemma_leads_self(s: &PatternSynthesizer, a: Draft)
    ensures
        s.leads_to(a, a),
{
    let path = seq![a];
    assert(s.is_best_path(path) && path.first() == a && path.last() == a);
}

proof fn lemma_leads_step(s: &PatternSynthesizer, a: Draft, b: Draft, c: Draft)
    requires
        s.leads_to(a, b),
        s.is_best_step(b, c),
    ensures
        s.leads_to(a, c),
{
    let path = choose|path: Seq<Draft>| #[trigger]
        s.is_best_path(path) && path.first() == a && path.last() == b;
    let longer = path.push(c);
    assert forall|k: int| 0 < k < longer.len() implies s.is_best_step(
        longer[k - 1],
        #[trigger] longer[k],
    ) by {
        if k < path.len() {
            assert(longer[k] == path[k] && longer[k - 1] == path[k - 1]);
        }
    }
    assert(s.is_best_path(longer) && longer.first() == a && longer.last() == c);
}

impl PatternSynthesizer {
    /// No macro that shortens the program gains more than `gain`.
    pub open spec fn no_better_macro(&self, d: Draft, gain: int) -> bool {
        self.enable_macro && d.next < u32::MAX ==> macro_bound(d.toks, d.macro_terms(), gain)
    }

    /// Nothing is left to rewrite: no loop gains anything, and no macro that
    /// shortens the program does.
    pub open spec fn is_settled(&self, d: Draft) -> bool {
        &&& self.enable_loop ==> forall|i: int| #[trigger] loop_offer(d.toks, i) <= 0
        &&& self.no_better_macro(d, 0)
    }

    /// Literal `i` is the first that gains most as a loop, and no macro is better.
    pub open spec fn is_best_loop(&self, a: Draft, b: Draft, i: int) -> bool {
        &&& self.enable_loop
        &&& is_loop_step(a, b, i)
        &&& forall|j: int|
            clamped(#[trigger] loop_offer(a.toks, j)) <= clamped(loop_offer(a.toks, i))
        &&& forall|j: int|
            j < i ==> clamped(#[trigger] loop_offer(a.toks, j)) < clamped(loop_offer(a.toks, i))
        &&& self.no_better_macro(a, clamped(loop_offer(a.toks, i)) as int)
    }

    /// The block gains most of those that shorten the program as a macro, and more
    /// than any loop.
    pub open spec fn is_best_macro(&self, a: Draft, b: Draft, pat: Seq<u8>, gain: int) -> bool {
        &&& self.enable_macro
        &&& is_macro_step(a, b, pat)
        &&& is_top_macro(a.toks, a.macro_terms(), pat, gain)
        &&& self.enable_loop ==> forall|j: int| clamped(#[trigger] loop_offer(a.toks, j)) < gain
    }

    /// The rewriting that gains most.
    pub open spec fn is_best_step(&self, a: Draft, b: Draft) -> bool {
        ||| exists|i: int| self.is_best_loop(a, b, i)
        ||| exists|pat: Seq<u8>, gain: int| self.is_best_macro(a, b, pat, gain)
    }

    /// The drafts that a rewriting passes when it always takes the best step.
    pub open spec fn is_best_path(&self, path: Seq<Draft>) -> bool {
        &&& path.len() >= 1
        &&& forall|k: int| 0 < k < path.len() ==> self.is_best_step(path[k - 1], #[trigger] path[k])
    }

    /// The second draft comes from the first by best steps.
    pub open spec fn leads_to(&self, a: Draft, b: Draft) -> bool {
        exists|path: Seq<Draft>| #[trigger]
            self.is_best_path(path) && path.first() == a && path.last() == b
    }

    /// The second draft comes from the first by best steps, none is left then, and
    /// the third has those of its literals as differences on which that pays off,
    /// if it is enabled.
    pub open spec fn passes_through(
        &self,
        a: Draft,
        mid: Draft,
        b: Draft,
        answers: Answers,
    ) -> bool {
        &&& self.leads_to(a, mid)
        &&& self.is_settled(mid)
        &&& b.toks == (if self.enable_map {
            with_deltas(mid.toks, delta_picks(mid.toks, answers))
        } else {
            mid.toks
        })
        &&& b.defs == mid.defs
        &&& b.next == mid.next
    }

    /// The second draft comes from the first by best steps until none is left,
    /// and by writing as differences those literals on which that pays off, if
    /// it is enabled.
    pub open spec fn is_result(&self, a: Draft, b: Draft, answers: Answers) -> bool {
        exists|mid: Draft| #[trigger] self.passes_through(a, mid, b, answers)
    }

    /// The tables of the data became scans, if that is enabled.
    pub open spec fn is_scanned(&self, data: Seq<u8>, d: Draft) -> bool {
        &&& reaches(whole(data), d)
        &&& if self.enable_scan {
            is_scanning(data, nothing(), d)
        } else {
            d == whole(data)
        }
    }

    /// The draft comes from the data as it is: tables first, then the rest.
    pub open spec fn is_raw_result(&self, data: Seq<u8>, b: Draft, answers: Answers) -> bool {
        exists|scanned: Draft| #[trigger]
            self.is_scanned(data, scanned) && self.is_result(scanned, b, answers)
    }

    /// Returns a synthesizer that uses every rewriting.
    pub fn new() -> (s: PatternSynthesizer)
        ensures
            s.enable_loop && s.enable_macro && s.enable_map && s.enable_scan,
    {
        PatternSynthesizer::default()
    }
}

/// Which literals are written as differences: those on which entropy coding is
/// answered to save more than the summing costs.
pub open spec fn delta_picks(toks: Seq<Tok>, answers: Answers) -> Seq<bool> {
    Seq::new(toks.len(), |i: int| is_delta_pick(toks[i], answers))
}

/// The token is a literal that pays off as differences.
pub open spec fn is_delta_pick(t: Tok, answers: Answers) -> bool {
    &&& t is Lit
    &&& t->data.len() >= MIN_DELTA_LEN
    &&& delta_gain(t->data.len(), (answers.saving)(t->data, deltas(t->data)) as int) > 0
}

/// The loop that gains most: its token, its body length, its rounds, its gain.
struct LoopOffer {
    at: usize,
    period: usize,
    count: usize,
    gain: isize,
}

/// Returns the loop that a literal is: its body length, its rounds, its gain.
fn literal_loop(data: &[u8]) -> (r: Option<(usize, usize, isize)>)
    ensures
        match loop_in(data@) {
            Some((p, c)) => r matches Some((period, count, gain)) && period == p && count == c
                && period <= data@.len() && gain == clamped(loop_gain(data@.len(), p, c)),
            None => r is None,
        },
{
    match detect_loop(data) {
        Some((period, count)) => {
            proof {
                lemma_loop_period(data@);
            }
            Some((period, count, loop_mdl_gain(data.len(), period, count)))
        },
        None => None,
    }
}

/// Finds the literal that gains most as a loop.
fn best_loop(tokens: &Vec<SynthToken>) -> (r: Option<LoopOffer>)
    ensures
        match r {
            None => forall|i: int| #[trigger] loop_offer(toks_of(tokens@), i) <= 0,
            Some(o) => {
                let ts = toks_of(tokens@);
                &&& o.at < ts.len()
                &&& ts[o.at as int] is Lit
                &&& loop_in(ts[o.at as int]->data) == Some((o.period as nat, o.count as nat))
                &&& o.period <= ts[o.at as int]->data.len()
                &&& loop_offer(ts, o.at as int) > 0
                &&& o.gain > 0
                &&& o.gain == clamped(loop_offer(ts, o.at as int))
                &&& forall|i: int| clamped(#[trigger] loop_offer(ts, i)) <= o.gain
                &&& forall|i: int| i < o.at ==> clamped(#[trigger] loop_offer(ts, i)) < o.gain
            },
        },
{
    let ghost ts = toks_of(tokens@);
    let mut best: Option<LoopOffer> = None;
    let mut i: usize = 0;
    while i < tokens.len()
        invariant
            i <= tokens@.len(),
            ts == toks_of(tokens@),
            match best {
                None => forall|j: int| 0 <= j < i ==> #[trigger] loop_offer(ts, j) <= 0,
                Some(o) => {
                    &&& o.at < ts.len()
                    &&& ts[o.at as int] is Lit
                    &&& loop_in(ts[o.at as int]->data) == Some((o.period as nat, o.count as nat))
                    &&& o.period <= ts[o.at as int]->data.len()
                    &&& loop_offer(ts, o.at as int) > 0
                    &&& o.gain > 0
                    &&& o.gain == clamped(loop_offer(ts, o.at as int))
                    &&& forall|j: int|
                        0 <= j < i ==> clamped(#[trigger] loop_offer(ts, j)) <= o.gain
                    &&& forall|j: int|
                        0 <= j < o.at ==> clamped(#[trigger] loop_offer(ts, j)) < o.gain
                },
            },
        decreases tokens.len() - i,
    {
        proof {
            lemma_loop_offer(ts, i as int);
        }
        if let SynthToken::Lit { data } = &tokens[i] {
            assert(ts[i as int] == (Tok::Lit { data: data@ }));
            if let Some((period, count, gain)) = literal_loop(data.as_slice()) {
                let top: isize = match &best {
                    Some(o) => o.gain,
                    None => 0,
                };
                if gain > top {
                    best = Some(LoopOffer { at: i, period, count, gain });
                }
            }
        } else {
            assert(!(ts[i as int] is Lit));
        }
        i = i + 1;
    }
    proof {
        assert forall|j: int| !(0 <= j < ts.len()) implies #[trigger] loop_offer(ts, j) == 0 by {
            lemma_loop_offer(ts, j);
        }
    }
    best
}

/// What a token offers as a loop, case by case.
proof fn lemma_loop_offer(ts: Seq<Tok>, i: int)
    ensures
        !(0 <= i < ts.len() && ts[i] is Lit) ==> loop_offer(ts, i) == 0,
        0 <= i < ts.len() && ts[i] is Lit ==> match loop_in(ts[i]->data) {
            Some((period, count)) => loop_offer(ts, i) == loop_gain(
                ts[i]->data.len(),
                period,
                count,
            ),
            None => loop_offer(ts, i) == 0,
        },
{
    reveal(loop_offer);
}

/// Finds the block that gains most of those that shorten the program as macro `id`,
/// and its gain.
fn best_macro(tokens: &Vec<SynthToken>, id: u32) -> (r: Option<(Vec<u8>, isize)>)
    ensures
        match r {
            None => macro_bound(toks_of(tokens@), shortening(toks_of(tokens@), id), 0),
            Some((pat, gain)) => is_top_macro(
                toks_of(tokens@),
                shortening(toks_of(tokens@), id),
                pat@,
                gain as int,
            ) && MIN_MACRO_LEN <= pat@.len() <= SA_MAX_PAT_LEN,
        },
{
    let ghost ts = toks_of(tokens@);
    let ghost on = shortening(ts, id);
    let mut best: Option<(Vec<u8>, isize)> = match find_shortening_macro(tokens, id) {
        Some((pat, occur, gain)) => {
            assert(is_short_offer(ts, on, pat@, gain as int)) by {
                let (t, len, p) = choose|t: int, len: nat, p: int|
                    is_first_offer(ts, t, len, p, on, pat@, occur as nat);
                assert(is_first_offer(ts, t, len, p, on, pat@, occur as nat));
            }
            Some((pat, gain))
        },
        None => None,
    };
    let mut i: usize = 0;
    while i < tokens.len()
        invariant
            i <= tokens@.len(),
            ts == toks_of(tokens@),
            on == shortening(ts, id),
            best matches Some((pat, gain)) ==> gain > 0 && MIN_MACRO_LEN <= pat@.len()
                <= SA_MAX_PAT_LEN && (is_short_offer(ts, on, pat@, gain as int) || (is_long_offer(
                ts,
                on,
                pat@,
                gain as int,
            ) && forall|t: int, len: nat, p: int|
                clamped(#[trigger] token_offer(ts, t, len, p, on)) < gain)),
            forall|t: int, len: nat, p: int|
                clamped(#[trigger] token_offer(ts, t, len, p, on)) <= top_gain(best),
            forall|t: int|
                0 <= t < i && #[trigger] ts[t] is Lit && ts[t]->data.len() >= SA_THRESHOLD
                    ==> long_bound(ts[t]->data, on, top_gain(best)),
        decreases tokens.len() - i,
    {
        let ghost before = best;
        if let SynthToken::Lit { data } = &tokens[i] {
            assert(ts[i as int] == (Tok::Lit { data: data@ }));
            if data.len() >= SA_THRESHOLD {
                match search_suffixes(data.as_slice(), id, Some(tokens)) {
                    Some((pat, occur, gain)) => {
                        let top: isize = match &best {
                            Some((_, g)) => *g,
                            None => 0,
                        };
                        if gain > top {
                            proof {
                                let p = choose|p: int| #[trigger]
                                    is_first_long(data@, p, pat@, occur as nat, on);
                                assert(is_first_long(
                                    ts[i as int]->data,
                                    p,
                                    pat@,
                                    occur as nat,
                                    on,
                                ));
                                assert(is_long_offer_of(ts, i as int, on, pat@, gain as int));
                                assert forall|u: int|
                                    0 <= u < i && #[trigger] ts[u] is Lit && ts[u]->data.len()
                                        >= SA_THRESHOLD implies long_below(
                                    ts[u]->data,
                                    on,
                                    gain as int,
                                ) by {
                                    assert(long_bound(ts[u]->data, on, top as int));
                                }
                            }
                            best = Some((pat, gain));
                        }
                        assert(long_bound(data@, on, gain as int));
                    },
                    None => {
                        assert(long_bound(data@, on, 0));
                    },
                }
            }
        } else {
            assert(!(ts[i as int] is Lit));
        }
        proof {
            assert forall|t: int|
                0 <= t < i + 1 && #[trigger] ts[t] is Lit && ts[t]->data.len()
                    >= SA_THRESHOLD implies long_bound(ts[t]->data, on, top_gain(best)) by {
                if t < i {
                    assert(long_bound(ts[t]->data, on, top_gain(before)));
                }
            }
        }
        i = i + 1;
    }
    best
}

/// The gain of the best block so far.
spec fn top_gain(best: Option<(Vec<u8>, isize)>) -> int {
    match best {
        Some((_, gain)) => gain as int,
        None => 0,
    }
}

/// Returns the size of the tokens with `mark` in place of `pat`.
pub fn marks_size(tokens: &Vec<SynthToken>, pat: &[u8], mark: &Mark) -> (n: usize)
    ensures
        n == capped(toks_size(with_marks(toks_of(tokens@), pat@, mark.tok()))),
{
    let ghost ts = toks_of(tokens@);
    let mut n: usize = 0;
    let mut i: usize = 0;
    while i < tokens.len()
        invariant
            i <= tokens@.len(),
            ts == toks_of(tokens@),
            n == capped(toks_size(with_marks(ts.take(i as int), pat@, mark.tok()))),
        decreases tokens.len() - i,
    {
        assert(ts.take(i + 1).drop_last() =~= ts.take(i as int));
        assert(ts.take(i + 1).last() == tok_of(tokens@[i as int]));
        let ghost before = with_marks(ts.take(i as int), pat@, mark.tok());
        match &tokens[i] {
            SynthToken::Lit { data } => {
                let mut parts: Vec<SynthToken> = Vec::new();
                split_literal(data.as_slice(), pat, mark, &mut parts);
                proof {
                    assert(toks_of(parts@) =~= split(data@, pat@, mark.tok(), 0)) by {
                        assert(toks_of(Seq::<SynthToken>::empty()) + split(data@, pat@, mark.tok(), 0)
                            =~= split(data@, pat@, mark.tok(), 0));
                    }
                    lemma_toks_bytes_concat(before, toks_of(parts@));
                }
                n = n.saturating_add(tokens_size(&parts));
            },
            other => {
                proof {
                    lemma_toks_one(tok_of(*other));
                    lemma_toks_bytes_concat(before, seq![tok_of(*other)]);
                }
                n = n.saturating_add(other.program_bytes());
            },
        }
        i = i + 1;
    }
    assert(ts.take(i as int) =~= ts);
    n
}

/// Takes token `i` out of a list, leaving another in its place.
fn take_token(tokens: &mut Vec<SynthToken>, i: usize) -> (t: SynthToken)
    requires
        i < old(tokens)@.len(),
    ensures
        t == old(tokens)@[i as int],
        final(tokens)@ == old(tokens)@.update(i as int, SynthToken::Next),
{
    let mut t: SynthToken = SynthToken::Next;
    core::mem::swap(&mut tokens[i], &mut t);
    t
}

/// Returns the tokens with `mark` in place of `pat`.
pub fn place_marks(tokens: Vec<SynthToken>, pat: &[u8], mark: &Mark) -> (out: Vec<SynthToken>)
    ensures
        toks_of(out@) == with_marks(toks_of(tokens@), pat@, mark.tok()),
{
    let ghost all = tokens@;
    let ghost ts = toks_of(all);
    let n: usize = tokens.len();
    let mut rest: Vec<SynthToken> = tokens;
    let mut out: Vec<SynthToken> = Vec::new();
    assert(toks_of(out@) =~= with_marks(ts.take(0), pat@, mark.tok()));
    let mut i: usize = 0;
    while i < n
        invariant
            i <= n,
            n == all.len(),
            rest@.len() == n,
            ts == toks_of(all),
            forall|j: int| i <= j < n ==> #[trigger] rest@[j] == all[j],
            toks_of(out@) == with_marks(ts.take(i as int), pat@, mark.tok()),
        decreases n - i,
    {
        assert(ts.take(i + 1).drop_last() =~= ts.take(i as int));
        assert(rest@[i as int] == all[i as int]);
        let t: SynthToken = take_token(&mut rest, i);
        assert(ts.take(i + 1).last() == tok_of(t));
        let ghost before = toks_of(out@);
        match t {
            SynthToken::Lit { data } => {
                split_literal(data.as_slice(), pat, mark, &mut out);
            },
            other => {
                proof {
                    lemma_toks_of_push(out@, other);
                    assert(before.push(tok_of(other)) =~= before + seq![tok_of(other)]);
                }
                out.push(other);
            },
        }
        i = i + 1;
    }
    assert(ts.take(i as int) =~= ts);
    out
}

impl SynthProgram {
    /// Writes a literal as a loop.
    fn apply_loop(&mut self, o: LoopOffer)
        requires
            o.at < old(self).toks().len(),
            old(self).toks()[o.at as int] is Lit,
            loop_in(old(self).toks()[o.at as int]->data) == Some((o.period as nat, o.count as nat)),
            o.period <= old(self).toks()[o.at as int]->data.len(),
            loop_offer(old(self).toks(), o.at as int) > 0,
        ensures
            is_loop_step(old(self).draft(), final(self).draft(), o.at as int),
            final(self).sub_defs@ == old(self).sub_defs@,
            final(self).next_sub_id == old(self).next_sub_id,
            final(self).input_len == old(self).input_len,
            final(self).consensus == old(self).consensus,
    {
        let ghost ts = self.toks();
        proof {
            lemma_loop_offer(ts, o.at as int);
        }
        let mut body: Vec<SynthToken> = Vec::new();
        if let SynthToken::Lit { data } = &self.tokens[o.at] {
            assert(ts[o.at as int] == (Tok::Lit { data: data@ }));
            assert(o.period <= data.len());
            let block: SynthToken = SynthToken::Lit {
                data: copy_of(&data.as_slice()[0..o.period]),
            };
            proof {
                lemma_toks_of_push(body@, block);
                assert(toks_of(body@) =~= Seq::empty());
                assert(data@.subrange(0, o.period as int) =~= data@.take(o.period as int));
            }
            body.push(block);
        }
        let ghost data = ts[o.at as int]->data;
        assert(toks_of(body@) =~= seq![Tok::Lit { data: data.take(o.period as int) }]);
        let t: SynthToken = SynthToken::Loop { count: o.count, body };
        proof {
            lemma_loop_body(o.count, body);
        }
        self.tokens[o.at] = t;
        proof {
            assert(tok_of(t) == loop_tok(data, o.period as nat, o.count as nat));
            assert(self.toks() =~= spliced(ts, o.at as int, seq![tok_of(t)]));
        }
    }

    /// Stores a block as a macro and calls it wherever it stands in a literal.
    fn apply_macro(&mut self, pat: Vec<u8>)
        requires
            old(self).next_sub_id < u32::MAX,
            old(self).ids_ok(),
        ensures
            final(self).toks() == with_macro(old(self).draft(), pat@).toks,
            final(self).defs() == with_macro(old(self).draft(), pat@).defs,
            final(self).next_sub_id == old(self).next_sub_id + 1,
            final(self).ids_ok(),
            final(self).input_len == old(self).input_len,
            final(self).consensus == old(self).consensus,
    {
        let id: u32 = self.next_sub_id;
        let mut tokens: Vec<SynthToken> = Vec::new();
        core::mem::swap(&mut self.tokens, &mut tokens);
        let placed: Vec<SynthToken> = place_marks(
            tokens,
            pat.as_slice(),
            &Mark::Call { sub_id: id },
        );
        self.tokens = placed;
        let mut body: Vec<SynthToken> = Vec::new();
        let lit: SynthToken = SynthToken::Lit { data: pat };
        proof {
            lemma_toks_of_push(body@, lit);
            assert(toks_of(body@) =~= Seq::empty());
        }
        body.push(lit);
        assert(toks_of(body@) =~= seq![Tok::Lit { data: pat@ }]);
        self.sub_defs.insert(id, body);
        self.next_sub_id = id + 1;
        proof {
            assert(self.defs() =~= old(self).defs().insert(id, seq![Tok::Lit { data: pat@ }]));
        }
    }
}

impl PatternSynthesizer {
    /// Applies loops and macros as long as they shorten the program.
    fn rewrite_structure(&self, prog: &mut SynthProgram)
        requires
            old(prog).ids_ok(),
        ensures
            final(prog).ids_ok(),
            self.leads_to(old(prog).draft(), final(prog).draft()),
            self.is_settled(final(prog).draft()),
            final(prog).input_len == old(prog).input_len,
            final(prog).consensus == old(prog).consensus,
    {
        let ghost start = prog.draft();
        proof {
            lemma_leads_self(self, start);
        }
        loop
            invariant
                prog.ids_ok(),
                start == old(prog).draft(),
                self.leads_to(start, prog.draft()),
                prog.input_len == old(prog).input_len,
                prog.consensus == old(prog).consensus,
            decreases prog.draft().size(),
        {
            let ghost before = prog.draft();
            proof {
                assert(before.defs.dom() =~= prog.sub_defs@.dom());
                assert(before.ok());
            }
            let looped: Option<LoopOffer> = if self.enable_loop {
                best_loop(&prog.tokens)
            } else {
                None
            };
            if self.enable_macro && prog.next_sub_id < u32::MAX {
                if let Some((pat, gain)) = best_macro(&prog.tokens, prog.next_sub_id) {
                    let top: isize = match &looped {
                        Some(o) => o.gain,
                        None => 0,
                    };
                    if gain > top {
                        let ghost block = pat@;
                        prog.apply_macro(pat);
                        proof {
                            let now = prog.draft();
                            lemma_top_allowed(
                                before.toks,
                                before.macro_terms(),
                                block,
                                gain as int,
                            );
                            lemma_macro_size(before, block);
                            assert(is_macro_step(before, now, block));
                            assert(self.is_best_macro(before, now, block, gain as int));
                            lemma_leads_step(self, start, before, now);
                            step_shortens(before, now);
                        }
                        continue;
                    }
                }
            }
            match looped {
                None => {
                    return;
                },
                Some(o) => {
                    let ghost at = o.at as int;
                    prog.apply_loop(o);
                    proof {
                        let now = prog.draft();
                        assert(is_loop_step(before, now, at));
                        assert(self.is_best_loop(before, now, at));
                        lemma_leads_step(self, start, before, now);
                        step_shortens(before, now);
                    }
                },
            }
        }
    }

    /// Writes those literals as differences on which `judge` expects entropy
    /// coding to save enough.
    fn map_pass<J: Judge>(&self, prog: &mut SynthProgram, judge: &J)
        requires
            old(prog).ids_ok(),
        ensures
            final(prog).ids_ok(),
            final(prog).sub_defs == old(prog).sub_defs,
            final(prog).next_sub_id == old(prog).next_sub_id,
            final(prog).input_len == old(prog).input_len,
            final(prog).consensus == old(prog).consensus,
            final(prog).toks() == with_deltas(
                old(prog).toks(),
                delta_picks(old(prog).toks(), judge.answers()),
            ),
    {
        let ghost all = prog.tokens@;
        let ghost ts = toks_of(all);
        let mut rest: Vec<SynthToken> = Vec::new();
        core::mem::swap(&mut prog.tokens, &mut rest);
        let n: usize = rest.len();
        let mut out: Vec<SynthToken> = Vec::new();
        let ghost mut picks: Seq<bool> = Seq::empty();
        assert(picks =~= delta_picks(ts, judge.answers()).take(0));
        assert(toks_of(out@) =~= with_deltas(ts.take(0), picks));
        let mut i: usize = 0;
        while i < n
            invariant
                i <= n,
                n == all.len(),
                rest@.len() == n,
                ts == toks_of(all),
                picks == delta_picks(ts, judge.answers()).take(i as int),
                forall|j: int| i <= j < n ==> #[trigger] rest@[j] == all[j],
                toks_of(out@) == with_deltas(ts.take(i as int), picks),
            decreases n - i,
        {
            assert(rest@[i as int] == all[i as int]);
            let t: SynthToken = take_token(&mut rest, i);
            let ghost before = toks_of(out@);
            let ghost old_picks = picks;
            assert(ts[i as int] == tok_of(t));
            let picked: Option<Vec<u8>> = match &t {
                SynthToken::Lit { data } => {
                    let delta: Vec<u8> = delta_bytes(data.as_slice());
                    let saving: isize = judge.delta_saving(data.as_slice(), delta.as_slice());
                    match estimate_delta_u8_gain(data.as_slice(), saving) {
                        Some((_, delta)) => Some(delta),
                        None => None,
                    }
                },
                _ => None,
            };
            proof {
                picks = picks.push(picked is Some);
                assert(picked is Some == is_delta_pick(ts[i as int], judge.answers()));
                assert(picks =~= delta_picks(ts, judge.answers()).take(i + 1));
                lemma_deltas_step(ts, i as int, old_picks, picked is Some);
            }
            match picked {
                Some(delta) => {
                    let size: usize = delta.len();
                    let lit: SynthToken = SynthToken::Lit { data: delta };
                    let sum: SynthToken = SynthToken::MapBlock {
                        transform: Transform::DeltaU8,
                        len: size,
                    };
                    proof {
                        lemma_toks_of_push(out@, lit);
                        lemma_toks_of_push(out@.push(lit), sum);
                    }
                    out.push(lit);
                    out.push(sum);
                    assert(toks_of(out@) =~= before + delta_toks(ts[i as int]->data));
                },
                None => {
                    proof {
                        lemma_toks_of_push(out@, t);
                        assert(before.push(tok_of(t)) =~= before + seq![tok_of(t)]);
                    }
                    out.push(t);
                },
            }
            i = i + 1;
        }
        assert(ts.take(i as int) =~= ts);
        prog.tokens = out;
        assert(picks =~= delta_picks(ts, judge.answers()));
    }
}

/// One more token, picked or not.
proof fn lemma_deltas_step(ts: Seq<Tok>, i: int, picks: Seq<bool>, pick: bool)
    requires
        0 <= i < ts.len(),
        picks.len() == i,
    ensures
        with_deltas(ts.take(i + 1), picks.push(pick)) == with_deltas(ts.take(i), picks) + if ts[i]
            is Lit && pick {
            delta_toks(ts[i]->data)
        } else {
            seq![ts[i]]
        },
{
    assert(ts.take(i + 1).drop_last() =~= ts.take(i));
    lemma_deltas_prefix(ts.take(i), picks, picks.push(pick));
}

/// Only the picks of the tokens themselves matter.
proof fn lemma_deltas_prefix(ts: Seq<Tok>, a: Seq<bool>, b: Seq<bool>)
    requires
        forall|i: int| 0 <= i < ts.len() ==> a[i] == b[i],
    ensures
        with_deltas(ts, a) == with_deltas(ts, b),
    decreases ts.len(),
{
    if ts.len() > 0 {
        lemma_deltas_prefix(ts.drop_last(), a, b);
    }
}

/// Returns the size of a literal of `n` bytes.
pub fn literal_cost(n: usize) -> (size: usize)
    ensures
        forall|data: Seq<u8>| data.len() == n ==> size == capped(
            #[trigger] tok_size(Tok::Lit { data }),
        ),
{
    n.saturating_add(
        1 + crate::synth::token::leb_len(crate::synth::token::low_bits(n)),
    )
}

/// A block that offers something may become a macro.
pub proof fn lemma_top_allowed(toks: Seq<Tok>, on: Terms, pat: Seq<u8>, gain: int)
    requires
        is_top_macro(toks, on, pat, gain),
    ensures
        on.allow(pat),
{
}

/// A macro that shortens the tokens by more than its own cost shortens the
/// program.
proof fn lemma_macro_size(a: Draft, pat: Seq<u8>)
    requires
        a.ok(),
        a.next < u32::MAX,
        macro_shortens(a.toks, pat, a.next as u32),
    ensures
        with_macro(a, pat).size() < a.size(),
{
    reveal(macro_shortens);
    let id = a.next as u32;
    let body = seq![Tok::Lit { data: pat }];
    assert(!a.defs.contains_key(id));
    crate::synth::program::lemma_macro_cost_insert(a.defs, id, body);
    lemma_toks_one(Tok::Lit { data: pat });
}

/// Synthesis keeps the output.
pub proof fn synthesis_keeps_the_output(
    s: &PatternSynthesizer,
    a: Draft,
    b: Draft,
    answers: Answers,
    consensus: vstd::map::Map<Seq<u8>, Seq<u8>>,
    data: Seq<u8>,
)
    requires
        s.is_result(a, b, answers),
        a.ok(),
        a.restores(consensus, data),
    ensures
        b.restores(consensus, data),
{
    let mid = choose|mid: Draft| s.passes_through(a, mid, b, answers);
    lemma_leads_reaches(s, a, mid);
    rewriting_keeps_the_output(a, mid, consensus, data);
    lemma_restores_within(mid, consensus, data);
    if s.enable_map {
        let picks = delta_picks(mid.toks, answers);
        deltas_keep_the_output(mid.toks, picks, mid.env(consensus));
        lemma_yields_refines(mid.toks, b.toks, data, mid.env(consensus));
    }
}

/// Synthesis never makes a program longer, unless it writes literals as
/// differences, and makes it shorter unless it leaves it as it is.
pub proof fn synthesis_never_lengthens(
    s: &PatternSynthesizer,
    a: Draft,
    b: Draft,
    answers: Answers,
)
    requires
        s.is_result(a, b, answers),
        !s.enable_map,
        a.ok(),
    ensures
        b.size() <= a.size(),
        b == a || b.size() < a.size(),
{
    let mid = choose|mid: Draft| s.passes_through(a, mid, b, answers);
    lemma_leads_reaches(s, a, mid);
    rewriting_never_lengthens(a, mid);
}

/// Synthesis makes no literal longer than the longest.
proof fn lemma_result_within(
    s: &PatternSynthesizer,
    a: Draft,
    b: Draft,
    answers: Answers,
    n: nat,
)
    requires
        s.is_result(a, b, answers),
        lits_within(a.toks, n),
    ensures
        lits_within(b.toks, n),
{
    let mid = choose|mid: Draft| s.passes_through(a, mid, b, answers);
    lemma_leads_reaches(s, a, mid);
    rewriting_lengthens_no_literal(a, mid, n);
    lemma_deltas_within(mid.toks, delta_picks(mid.toks, answers), n);
}

impl PatternSynthesizer {
    /// Rewrites a program: loops and macros first, then differences.
    fn rewrite_loop<J: Judge>(&self, prog: &mut SynthProgram, judge: &J)
        requires
            old(prog).ids_ok(),
        ensures
            final(prog).ids_ok(),
            self.is_result(old(prog).draft(), final(prog).draft(), judge.answers()),
            final(prog).input_len == old(prog).input_len,
            final(prog).consensus == old(prog).consensus,
    {
        self.rewrite_structure(prog);
        let ghost mid = prog.draft();
        if self.enable_map {
            self.map_pass(prog, judge);
        }
        assert(self.passes_through(old(prog).draft(), mid, prog.draft(), judge.answers()));
    }

    /// Turns the tables of the data into scans, from the front to the back. What
    /// is left of the data stays a literal.
    #[verifier::rlimit(30)]
    fn scan_pass(&self, data: &[u8]) -> (prog: SynthProgram)
        ensures
            prog.ids_ok(),
            self.is_scanned(data@, prog.draft()),
            prog.input_len == data@.len(),
            prog.consensus@ == vstd::map::Map::<Seq<u8>, Seq<u8>>::empty(),
    {
        let mut prog: SynthProgram = SynthProgram::new(data.len());
        let mut pending: Vec<u8> = copy_of(data);
        let ghost start = whole(data@);
        proof {
            lemma_reaches_self(start);
            assert(prog.toks() + lit_or_nothing(data@) =~= start.toks);
        }
        while self.enable_scan && pending.len() > 0 && prog.next_sub_id < u32::MAX
            invariant
                prog.ids_ok(),
                start == whole(data@),
                reaches(start, with_pending(prog.draft(), pending@)),
                prog.input_len == data@.len(),
                prog.consensus@ == vstd::map::Map::<Seq<u8>, Seq<u8>>::empty(),
                !self.enable_scan ==> with_pending(prog.draft(), pending@) == start,
                !self.enable_scan ==> prog.toks().len() == 0,
                forall|d: Draft| #[trigger]
                    is_scanning(pending@, prog.draft(), d) ==> is_scanning(data@, nothing(), d),
            ensures
                self.enable_scan && pending@.len() > 0 && prog.next_sub_id < u32::MAX ==> !fires(
                    pending@,
                    prog.next_sub_id,
                ),
            decreases with_pending(prog.draft(), pending@).size(),
        {
            let ghost before = with_pending(prog.draft(), pending@);
            let ghost old_defs = prog.defs();
            let ghost old_toks = prog.toks();
            proof {
                assert(before.defs.dom() =~= prog.sub_defs@.dom());
                assert(before.ok());
            }
            let id: u32 = prog.next_sub_id;
            match detect_scan_best(pending.as_slice(), id) {
                None => {
                    break;
                },
                Some(found) => {
                    let ghost whole_find = found;
                    let ghost was = pending@;
                    let ghost old_draft = prog.draft();
                    let ScanResult { prefix, scan_tok, template, suffix } = found;
                    let ghost (g, from, to) = choose|g: Grid, from: int, to: int|
                        g.varies() && pays_off(g, pending@, from, to, id) && #[trigger] is_split(
                            found,
                            g,
                            pending@,
                            from,
                            to,
                            id,
                        );
                    let ghost lead = lit_or_nothing(prefix@);
                    if prefix.len() > 0 {
                        let t: SynthToken = SynthToken::Lit { data: prefix };
                        proof {
                            lemma_toks_of_push(prog.tokens@, t);
                        }
                        prog.tokens.push(t);
                    }
                    assert(prog.toks() =~= old_toks + lead);
                    prog.sub_defs.insert(id, template);
                    prog.next_sub_id = id + 1;
                    proof {
                        lemma_toks_of_push(prog.tokens@, scan_tok);
                    }
                    prog.tokens.push(scan_tok);
                    pending = suffix;
                    proof {
                        assert(prog.defs() =~= old_defs.insert(id, g.template()));
                        let now = with_pending(prog.draft(), pending@);
                        let i = old_toks.len() as int;
                        assert(before.toks[i] == (Tok::Lit { data: before.toks[i]->data }));
                        let seg = lead + seq![g.scan(id)] + lit_or_nothing(pending@);
                        assert(before.toks.take(i) =~= old_toks);
                        assert(before.toks.skip(i + 1) =~= Seq::empty());
                        assert(now.toks =~= spliced(before.toks, i, seg));
                        assert(is_scan_step(before, now, i, g, from, to));
                        lemma_reaches_step(start, before, now);
                        step_shortens(before, now);
                        lemma_table_has_bytes(g, was, from, to, id);
                        assert(prog.draft().toks =~= with_scan(old_draft, whole_find).toks);
                        assert(prog.draft() == with_scan(old_draft, whole_find));
                        assert forall|d: Draft| #[trigger]
                            is_scanning(pending@, prog.draft(), d) implies is_scanning(
                            data@,
                            nothing(),
                            d,
                        ) by {
                            assert(is_best_scan(whole_find, was, id));
                            assert(is_scanning(was, old_draft, d));
                        }
                    }
                },
            }
        }
        let ghost done = with_pending(prog.draft(), pending@);
        let ghost scanned = prog.draft();
        let ghost left = pending@;
        if pending.len() > 0 {
            let t: SynthToken = SynthToken::Lit { data: pending };
            proof {
                lemma_toks_of_push(prog.tokens@, t);
            }
            prog.tokens.push(t);
        }
        assert(prog.toks() =~= done.toks);
        proof {
            if self.enable_scan {
                assert(is_scanning(left, scanned, prog.draft()));
            }
        }
        prog
    }

    /// Synthesizes the program of a parse. `judge` decides which literals are
    /// written as differences.
    pub fn synthesize<J: Judge>(&self, analysis: &LzAnalysis, judge: &J) -> (prog: SynthProgram)
        ensures
            prog.ids_ok(),
            prog.input_len == analysis.input_len,
            prog.consensus@ == vstd::map::Map::<Seq<u8>, Seq<u8>>::empty(),
            self.is_result(parsed(analysis), prog.draft(), judge.answers()),
            forall|data: Seq<u8>|
                parsed(analysis).restores(prog.consensus@, data) ==> #[trigger] prog.restores(data),
    {
        let mut prog: SynthProgram = SynthProgram::from_analysis(analysis);
        let ghost start = prog.draft();
        self.rewrite_loop(&mut prog, judge);
        proof {
            assert forall|data: Seq<u8>|
                parsed(analysis).restores(prog.consensus@, data) implies #[trigger] prog.restores(
                data,
            ) by {
                synthesis_keeps_the_output(
                    self,
                    start,
                    prog.draft(),
                    judge.answers(),
                    prog.consensus@,
                    data,
                );
            }
        }
        prog
    }

    /// Synthesizes a program for `data` as it is: tables first, then loops,
    /// macros and differences. `judge` decides which literals are written as
    /// differences.
    pub fn synthesize_raw<J: Judge>(&self, data: &[u8], judge: &J) -> (prog: SynthProgram)
        ensures
            prog.ids_ok(),
            prog.input_len == data@.len(),
            prog.consensus@ == vstd::map::Map::<Seq<u8>, Seq<u8>>::empty(),
            self.is_raw_result(data@, prog.draft(), judge.answers()),
            lits_within(prog.toks(), data@.len()),
            data@.len() <= MAX_OUTPUT_BYTES ==> prog.restores(data@),
    {
        let mut prog: SynthProgram = self.scan_pass(data);
        let ghost scanned = prog.draft();
        self.rewrite_loop(&mut prog, judge);
        proof {
            assert(self.is_scanned(data@, scanned));
            rewriting_lengthens_no_literal(whole(data@), scanned, data@.len());
            lemma_result_within(self, scanned, prog.draft(), judge.answers(), data@.len());
            if data@.len() <= MAX_OUTPUT_BYTES {
                lemma_literal_restores(data@, prog.consensus@);
                rewriting_keeps_the_output(whole(data@), scanned, prog.consensus@, data@);
                synthesis_keeps_the_output(
                    self,
                    scanned,
                    prog.draft(),
                    judge.answers(),
                    prog.consensus@,
                    data@,
                );
            }
        }
        prog
    }

    /// Synthesizes a program for `data` as it is, then parses every literal that
    /// is left. The back references of each parse stay inside its literal.
    pub fn synthesize_hybrid<J: Judge>(&self, data: &[u8], lz: &LzEncoder, judge: &J) -> (prog:
        SynthProgram)
        requires
            lz.suits(data@.len()),
        ensures
            prog.ids_ok(),
            prog.input_len == data@.len(),
            prog.consensus@ == vstd::map::Map::<Seq<u8>, Seq<u8>>::empty(),
            exists|raw: Draft| #[trigger]
                self.is_raw_result(data@, raw, judge.answers()) && prog.toks() == with_parses(
                    raw.toks,
                    lz,
                ) && prog.defs() == raw.defs && prog.next_sub_id == raw.next,
            data@.len() <= MAX_OUTPUT_BYTES ==> prog.restores(data@),
    {
        let mut prog: SynthProgram = self.synthesize_raw(data, judge);
        let ghost raw = prog.draft();
        let mut tokens: Vec<SynthToken> = Vec::new();
        core::mem::swap(&mut prog.tokens, &mut tokens);
        let parsed: Vec<SynthToken> = parse_literals(tokens, lz, Ghost(data@.len()));
        prog.tokens = parsed;
        proof {
            assert(self.is_raw_result(data@, raw, judge.answers()));
            if data@.len() <= MAX_OUTPUT_BYTES {
                let env = raw.env(prog.consensus@);
                parses_keep_the_output(raw.toks, lz, data@.len(), env);
                lemma_yields_refines(raw.toks, prog.toks(), data@, env);
            }
        }
        prog
    }
}

/// A table that pays off has bytes.
proof fn lemma_table_has_bytes(g: Grid, data: Seq<u8>, from: int, to: int, id: u32)
    requires
        pays_off(g, data, from, to, id),
        0 <= from <= to <= data.len(),
    ensures
        from < to,
{
    if from == to {
        assert(data.subrange(from, to).len() == 0);
        assert(tok_size(Tok::Lit { data: data.subrange(from, to) }) <= 3);
    }
}

/// The draft with the rest of the data as a literal at its end.
pub open spec fn with_pending(d: Draft, rest: Seq<u8>) -> Draft {
    Draft { toks: d.toks + lit_or_nothing(rest), ..d }
}

/// The program of a parse.
pub open spec fn parsed(a: &LzAnalysis) -> Draft {
    Draft { toks: a.toks(), defs: vstd::map::Map::empty(), next: 0 }
}

/// Returns the tokens in which each literal is replaced by its own parse.
fn parse_literals(tokens: Vec<SynthToken>, lz: &LzEncoder, Ghost(bound): Ghost<nat>) -> (out: Vec<
    SynthToken,
>)
    requires
        lits_within(toks_of(tokens@), bound),
        lz.suits(bound),
    ensures
        toks_of(out@) == with_parses(toks_of(tokens@), lz),
{
    let ghost all = tokens@;
    let ghost ts = toks_of(all);
    let n: usize = tokens.len();
    let mut rest: Vec<SynthToken> = tokens;
    let mut out: Vec<SynthToken> = Vec::new();
    assert(toks_of(out@) =~= with_parses(ts.take(0), lz));
    let mut i: usize = 0;
    while i < n
        invariant
            i <= n,
            n == all.len(),
            rest@.len() == n,
            ts == toks_of(all),
            lits_within(ts, bound),
            lz.suits(bound),
            forall|j: int| i <= j < n ==> #[trigger] rest@[j] == all[j],
            toks_of(out@) == with_parses(ts.take(i as int), lz),
        decreases n - i,
    {
        assert(ts.take(i + 1).drop_last() =~= ts.take(i as int));
        assert(rest@[i as int] == all[i as int]);
        let t: SynthToken = take_token(&mut rest, i);
        assert(ts.take(i + 1).last() == tok_of(t));
        assert(ts[i as int] == tok_of(t));
        let ghost before = toks_of(out@);
        match t {
            SynthToken::Lit { data } => {
                assert(ts[i as int] is Lit);
                let analysis: LzAnalysis = lz.analyze(data.as_slice());
                push_pieces(&analysis, &mut out);
            },
            other => {
                proof {
                    lemma_toks_of_push(out@, other);
                    assert(before.push(tok_of(other)) =~= before + seq![tok_of(other)]);
                }
                out.push(other);
            },
        }
        i = i + 1;
    }
    assert(ts.take(i as int) =~= ts);
    out
}

/// Appends the instructions of a parse.
fn push_pieces(analysis: &LzAnalysis, out: &mut Vec<SynthToken>)
    ensures
        toks_of(final(out)@) == toks_of(old(out)@) + analysis.toks(),
{
    let ghost start = toks_of(out@);
    let ghost goal = analysis.toks();
    assert(start + goal.take(0) =~= start);
    let mut k: usize = 0;
    while k < analysis.tokens.len()
        invariant
            k <= analysis.tokens@.len(),
            goal == analysis.toks(),
            toks_of(out@) == start + goal.take(k as int),
        decreases analysis.tokens.len() - k,
    {
        let t: SynthToken = match &analysis.tokens[k] {
            LzToken::Literal { data, .. } => SynthToken::Lit { data: copy_of(data.as_slice()) },
            LzToken::Match { offset, length, .. } => SynthToken::Cpy {
                offset: *offset,
                length: *length,
            },
        };
        proof {
            lemma_toks_of_push(out@, t);
            assert(tok_of(t) == goal[k as int]);
            assert(start + goal.take(k + 1) =~= (start + goal.take(k as int)).push(tok_of(t)));
        }
        out.push(t);
        k = k + 1;
    }
    assert(goal.take(k as int) =~= goal);
}

} // verus!
