//! What becomes a loop, a macro or differences, and what is left when nothing more
//! does.

use vstd::arithmetic::div_mod::lemma_fundamental_div_mod;
use vstd::prelude::*;
use crate::judge::Answers;
use crate::laws::texts::the_first_difference_decides;
use crate::leb::lemma_leb_size;
use crate::machine::Transform;
use crate::synth::delta::deltas;
use crate::synth::draft::{with_deltas, with_marks, Draft};
use crate::synth::loops::{
    is_period, loop_gain_is_exact, loop_in, loop_tok, repeated, shortest_period,
};
use crate::synth::macros::{
    candidates, finds_best, first_from, freely, is_candidate, lemma_candidates, lemma_first_from,
    lemma_first_place, macro_gain, macro_shortens, occurrences, offer, split, token_offer, window,
    window_count, window_total,
};
use crate::synth::rewrite::{is_delta_pick, loop_offer, PatternSynthesizer};
use crate::synth::suffix::{finds_longest, long_offer};
use crate::tokens::{lo32, size_is_exact, sizes_are_exact, tok_bytes, toks_bytes, Tok};

verus! {

/// The data repeats its first `p` bytes throughout, at least three times, and has
/// nothing behind them. There are at least four of them.
pub open spec fn repeats_every(data: Seq<u8>, p: int) -> bool {
    &&& p >= 4
    &&& data.len() >= 3 * p
    &&& data.len() as int % p == 0
    &&& forall|i: int| 0 <= i < data.len() - p ==> #[trigger] data[i] == data[i + p]
}

proof fn lemma_repeated(block: Seq<u8>, c: nat, k: int, j: int)
    requires
        0 <= k < c,
        0 <= j < block.len(),
    ensures
        repeated(block, c).len() == c * block.len(),
        0 <= k * block.len() + j < c * block.len(),
        repeated(block, c)[k * block.len() + j] == block[j],
    decreases c,
{
    let p = block.len() as int;
    let front = repeated(block, (c - 1) as nat);
    assert(c * p == (c - 1) * p + p) by (nonlinear_arith);
    assert(0 <= k * p && k * p + j < c * p) by (nonlinear_arith)
        requires
            0 <= k < c,
            0 <= j < p,
    ;
    if c > 1 {
        lemma_repeated(block, (c - 1) as nat, if k < c - 1 {
            k
        } else {
            0
        }, j);
    } else {
        assert(front =~= Seq::<u8>::empty());
        assert((c - 1) * p == 0) by (nonlinear_arith)
            requires
                c == 1,
        ;
    }
    assert(front.len() == (c - 1) * p);
    if k < c - 1 {
        assert(repeated(block, c)[k * p + j] == front[k * p + j]);
    } else {
        assert(k * p == (c - 1) * p);
        assert(repeated(block, c)[k * p + j] == block[j]);
    }
}

proof fn lemma_blocks_agree(data: Seq<u8>, p: int, k: int, j: int)
    requires
        repeats_every(data, p),
        0 <= k,
        0 <= j < p,
        k * p + j < data.len(),
    ensures
        data[k * p + j] == data[j],
    decreases k,
{
    if k > 0 {
        assert(k * p + j == (k - 1) * p + j + p) by (nonlinear_arith);
        assert(0 <= (k - 1) * p) by (nonlinear_arith)
            requires
                k > 0,
                p > 0,
        ;
        lemma_blocks_agree(data, p, k - 1, j);
        let i = (k - 1) * p + j;
        assert(data[i] == data[i + p]);
    } else {
        assert(k * p == 0) by (nonlinear_arith)
            requires
                k == 0,
        ;
    }
}

/// In which block a place stands, and where in it.
proof fn lemma_block_place(i: int, p: int, c: int)
    requires
        0 <= i < p * c,
        p >= 4,
    ensures
        0 <= i / p < c,
        0 <= i % p < p,
        i == (i / p) * p + i % p,
{
    lemma_fundamental_div_mod(i, p);
    let (k, j) = (i / p, i % p);
    assert(p * k == k * p) by (nonlinear_arith);
    assert(0 <= k < c) by (nonlinear_arith)
        requires
            0 <= i < p * c,
            i == p * k + j,
            0 <= j < p,
            p >= 4,
    ;
}

/// To repeat a block is to agree with oneself one block further on.
proof fn lemma_period(data: Seq<u8>, p: nat)
    ensures
        is_period(data, p) <==> repeats_every(data, p as int),
{
    if p >= 4 && data.len() % p == 0 && data.len() >= 3 * p {
        let c = data.len() / p;
        let block = data.take(p as int);
        lemma_fundamental_div_mod(data.len() as int, p as int);
        assert(data.len() == p * c);
        assert(c >= 3) by (nonlinear_arith)
            requires
                data.len() == p * c,
                data.len() >= 3 * p,
                p >= 4,
        ;
        assert(c * p == p * c) by (nonlinear_arith);
        lemma_repeated(block, c, 0, 0);
        let all = repeated(block, c);
        if is_period(data, p) {
            assert forall|i: int| 0 <= i < data.len() - p implies #[trigger] data[i] == data[i
                + p] by {
                let (k, j) = (i / p as int, i % p as int);
                lemma_block_place(i, p as int, c as int);
                lemma_repeated(block, c, k, j);
                assert((k + 1) * p == k * p + p) by (nonlinear_arith);
                assert(k + 1 < c) by (nonlinear_arith)
                    requires
                        k * p + j + p < p * c,
                        0 <= j,
                        p >= 4,
                ;
                lemma_repeated(block, c, k + 1, j);
            }
        }
        if repeats_every(data, p as int) {
            assert forall|i: int| 0 <= i < data.len() implies data[i] == #[trigger] all[i] by {
                let (k, j) = (i / p as int, i % p as int);
                lemma_block_place(i, p as int, c as int);
                lemma_repeated(block, c, k, j);
                lemma_blocks_agree(data, p as int, k, j);
            }
            assert(data =~= all);
        }
    } else if is_period(data, p) {
        let c = data.len() / p;
        lemma_fundamental_div_mod(data.len() as int, p as int);
        assert(data.len() >= 3 * p) by (nonlinear_arith)
            requires
                data.len() == p * c + data.len() % p,
                c >= 3,
                p >= 4,
                data.len() % p == 0,
        ;
    }
}

proof fn lemma_least(data: Seq<u8>, p: nat) -> (q: nat)
    requires
        is_period(data, p),
    ensures
        is_period(data, q),
        forall|r: nat| is_period(data, r) ==> q <= r,
    decreases p,
{
    if exists|r: nat| is_period(data, r) && r < p {
        let r = choose|r: nat| is_period(data, r) && r < p;
        lemma_least(data, r)
    } else {
        p
    }
}

/// A literal is a loop exactly where it repeats a block of at least four bytes at
/// least three times and nothing else. The block is the shortest there is, and the
/// rounds make up the literal.
#[verifier::rlimit(30)]
pub proof fn loops_are_the_shortest_repetition(data: Seq<u8>, q: int)
    ensures
        match loop_in(data) {
            Some((p, c)) => {
                &&& repeats_every(data, p as int)
                &&& p * c == data.len()
                &&& c >= 3
                &&& repeats_every(data, q) ==> p <= q
            },
            None => !repeats_every(data, q),
        },
{
    reveal(loop_in);
    if exists|p: nat| is_period(data, p) {
        let p0 = choose|p: nat| is_period(data, p);
        let least = lemma_least(data, p0);
        let p = shortest_period(data);
        assert(is_period(data, least) && (forall|r: nat| is_period(data, r) ==> least <= r));
        assert(is_period(data, p));
        lemma_period(data, p);
        lemma_fundamental_div_mod(data.len() as int, p as int);
        let c = data.len() / p;
        assert(p * c == data.len());
    }
    if q >= 0 {
        lemma_period(data, q as nat);
        if repeats_every(data, q) {
            assert(is_period(data, q as nat));
        }
    }
}

/// A loop is written as its rounds over the block.
pub proof fn loops_are_written_as_rounds_over_a_block(data: Seq<u8>, p: nat, c: nat)
    requires
        p <= data.len(),
        c < 0x1_0000_0000,
        p < 0x8000_0000,
    ensures
        ({
            let lit = tok_bytes(Tok::Lit { data: data.take(p as int) });
            tok_bytes(loop_tok(data, p, c)) == seq![0x03u8] + crate::leb::leb_bytes(c)
                + crate::leb::leb_bytes(lit.len()) + lit
        }),
{
    let inner = Tok::Lit { data: data.take(p as int) };
    let ts = seq![inner];
    assert(ts.drop_last() =~= Seq::<Tok>::empty());
    assert(toks_bytes(ts.drop_last()) =~= Seq::<u8>::empty());
    assert(toks_bytes(ts) =~= tok_bytes(inner));
    size_is_exact(inner);
    lemma_leb_size(p);
    assert(lo32(p) == p);
    assert(lo32(tok_bytes(inner).len()) == tok_bytes(inner).len());
}

/// Where nothing is left to rewrite, no literal is longer than the loop that it is.
pub proof fn no_loop_is_left(s: &PatternSynthesizer, d: Draft, i: int, p: nat, c: nat)
    requires
        s.is_settled(d),
        s.enable_loop,
        0 <= i < d.toks.len(),
        d.toks[i] is Lit,
        loop_in(d.toks[i]->data) == Some((p, c)),
    ensures
        tok_bytes(d.toks[i]).len() <= tok_bytes(
            Tok::Loop { count: c, body: seq![Tok::Lit { data: d.toks[i]->data.take(p as int) }] },
        ).len(),
{
    reveal(loop_offer);
    let data = d.toks[i]->data;
    let block = data.take(p as int);
    loops_are_the_shortest_repetition(data, 0);
    assert(loop_offer(d.toks, i) <= 0);
    loop_gain_is_exact(data, block, c);
    size_is_exact(d.toks[i]);
    size_is_exact(Tok::Loop { count: c, body: seq![Tok::Lit { data: block }] });
}

/// The block stands at all these places, one behind the other.
pub open spec fn stands_at(data: Seq<u8>, pat: Seq<u8>, places: Seq<int>) -> bool {
    &&& forall|i: int|
        0 <= i < places.len() ==> 0 <= #[trigger] places[i] && places[i] + pat.len() <= data.len()
            && data.subrange(places[i], places[i] + pat.len()) == pat
    &&& forall|i: int|
        0 <= i < places.len() - 1 ==> #[trigger] places[i] + pat.len() <= places[i + 1]
}

proof fn lemma_occurs_as_often(data: Seq<u8>, pat: Seq<u8>, places: Seq<int>, i: int)
    requires
        pat.len() > 0,
        0 <= i,
        stands_at(data, pat, places),
        places.len() > 0 ==> i <= places[0],
    ensures
        occurrences(data, pat, i) >= places.len(),
    decreases data.len() - i,
{
    if places.len() > 0 {
        assert(places[0] + pat.len() <= data.len());
        if window(data, i, pat.len()) == pat {
            let rest = places.drop_first();
            assert forall|k: int| 0 <= k < rest.len() implies 0 <= #[trigger] rest[k] && rest[k]
                + pat.len() <= data.len() && data.subrange(rest[k], rest[k] + pat.len())
                == pat by {
                assert(rest[k] == places[k + 1]);
            }
            assert forall|k: int| 0 <= k < rest.len() - 1 implies #[trigger] rest[k] + pat.len()
                <= rest[k + 1] by {
                assert(rest[k] == places[k + 1]);
                assert(places[k + 1] + pat.len() <= places[k + 2]);
            }
            if rest.len() > 0 {
                assert(places[0] + pat.len() <= places[1]);
            }
            lemma_occurs_as_often(data, pat, rest, i + pat.len());
        } else {
            if i == places[0] {
                assert(data.subrange(places[0], places[0] + pat.len()) == pat);
            }
            lemma_occurs_as_often(data, pat, places, i + 1);
        }
    }
}

proof fn lemma_places(data: Seq<u8>, pat: Seq<u8>, i: int) -> (places: Seq<int>)
    requires
        pat.len() > 0,
        0 <= i,
    ensures
        stands_at(data, pat, places),
        places.len() == occurrences(data, pat, i),
        places.len() > 0 ==> i <= places[0],
    decreases data.len() - i,
{
    if i + pat.len() > data.len() {
        Seq::empty()
    } else if window(data, i, pat.len()) == pat {
        let rest = lemma_places(data, pat, i + pat.len());
        let places = seq![i] + rest;
        assert forall|k: int| 0 <= k < places.len() implies 0 <= #[trigger] places[k] && places[k]
            + pat.len() <= data.len() && data.subrange(places[k], places[k] + pat.len())
            == pat by {
            if k > 0 {
                assert(places[k] == rest[k - 1]);
            }
        }
        assert forall|k: int| 0 <= k < places.len() - 1 implies #[trigger] places[k] + pat.len()
            <= places[k + 1] by {
            assert(places[k + 1] == rest[k]);
            if k > 0 {
                assert(places[k] == rest[k - 1]);
            }
        }
        places
    } else {
        lemma_places(data, pat, i + 1)
    }
}

/// A block occurs as often as it fits: it stands at so many places without overlap,
/// and at no more, however they are chosen.
pub proof fn occurrences_are_as_many_as_fit(data: Seq<u8>, pat: Seq<u8>, places: Seq<int>)
    requires
        pat.len() > 0,
    ensures
        stands_at(data, pat, places) ==> places.len() <= occurrences(data, pat, 0),
        exists|most: Seq<int>|
            #![trigger stands_at(data, pat, most)]
            stands_at(data, pat, most) && most.len() == occurrences(data, pat, 0),
{
    if stands_at(data, pat, places) {
        lemma_occurs_as_often(data, pat, places, 0);
    }
    let most = lemma_places(data, pat, 0);
    assert(stands_at(data, pat, most));
}

/// What a macro gains: for each occurrence a literal less and a call more, less four
/// bytes and one literal for the macro itself.
pub proof fn macros_gain_literals_for_calls(pat: Seq<u8>, occur: nat, id: u32)
    ensures
        macro_gain(pat.len(), occur, id) == occur * tok_bytes(Tok::Lit { data: pat }).len() - occur
            * tok_bytes(Tok::Call { id }).len() - 4 - tok_bytes(Tok::Lit { data: pat }).len(),
{
    size_is_exact(Tok::Lit { data: pat });
    size_is_exact(Tok::Call { id });
}

pub proof fn lemma_gain_grows(len: nat, a: nat, b: nat, id: u32)
    requires
        a <= b,
        len >= 8,
    ensures
        macro_gain(len, a, id) <= macro_gain(len, b, id),
{
    let lit = 1 + crate::leb::leb_size(lo32(len)) + len;
    let call = 1 + crate::leb::leb_size(id as nat);
    lemma_leb_size(id as nat);
    assert(a * lit - a * call <= b * lit - b * call) by (nonlinear_arith)
        requires
            a <= b,
            call <= lit,
    ;
}

/// The search for macros passes over no block: whatever block of 8 to 64 bytes stands
/// twice or more in a literal and would gain, what is found gains at least as much.
/// What is found is such a block itself.
pub proof fn the_best_short_macro_is_found(
    ts: Seq<Tok>,
    t: int,
    pat: Seq<u8>,
    places: Seq<int>,
    id: u32,
    r: Option<(Vec<u8>, usize, isize)>,
)
    requires
        finds_best(ts, freely(id), r),
        0 <= t < ts.len(),
        ts[t] is Lit,
        8 <= pat.len() <= 64,
        stands_at(ts[t]->data, pat, places),
        places.len() >= 2,
    ensures
        macro_gain(pat.len(), places.len(), id) > 0 ==> (r matches Some(f) && macro_gain(
            f.0@.len(),
            f.1 as nat,
            id,
        ) >= macro_gain(pat.len(), places.len(), id)),
        r matches Some(f) ==> 8 <= f.0@.len() <= 64 && f.1 >= 2 && macro_gain(
            f.0@.len(),
            f.1 as nat,
            id,
        ) > 0,
{
    let data = ts[t]->data;
    occurrences_are_as_many_as_fit(data, pat, places);
    let p = places[0];
    lemma_gain_grows(pat.len(), places.len(), occurrences(data, pat, 0), id);
    assert(window(data, p, pat.len()) == pat);
    assert(offer(data, pat.len(), p, freely(id)) == token_offer(ts, t, pat.len(), p, freely(id)));
    if let Some(f) = r {
        let (t1, l1, p1) = choose|t: int, len: nat, p: int|
            crate::synth::macros::is_first_offer(ts, t, len, p, freely(id), f.0@, f.1 as nat);
        assert(crate::synth::macros::is_token_offer(
            ts,
            t1,
            l1,
            p1,
            freely(id),
            f.0@,
            f.1 as nat,
        ));
    }
}

/// The search for long macros passes over no block either: whatever block of 65 to
/// 1024 bytes stands twice or more in the data and would gain, what is found gains at
/// least as much.
pub proof fn the_best_long_macro_is_found(
    data: Seq<u8>,
    pat: Seq<u8>,
    places: Seq<int>,
    id: u32,
    r: Option<(Vec<u8>, usize, isize)>,
)
    requires
        finds_longest(data, freely(id), r),
        65 <= pat.len() <= 1024,
        stands_at(data, pat, places),
        places.len() >= 2,
    ensures
        macro_gain(pat.len(), places.len(), id) > 0 ==> (r matches Some(f) && macro_gain(
            f.0@.len(),
            f.1 as nat,
            id,
        ) >= macro_gain(pat.len(), places.len(), id)),
        r matches Some(f) ==> 65 <= f.0@.len() <= 1024 && f.1 >= 2,
{
    occurrences_are_as_many_as_fit(data, pat, places);
    let p = places[0];
    lemma_gain_grows(pat.len(), places.len(), occurrences(data, pat, 0), id);
    assert(window(data, p, pat.len()) == pat);
    assert(long_offer(data, pat.len(), p, freely(id)) == macro_gain(
        pat.len(),
        occurrences(data, pat, 0),
        id,
    ));
    if let Some(f) = r {
        let q = choose|q: int| #[trigger]
            crate::synth::suffix::is_first_long(data, q, f.0@, f.1 as nat, freely(id));
        assert(long_offer(data, f.0@.len(), q, freely(id)) > 0);
    }
}

/// Of long blocks that gain as much the longest is found: one that is longer than what
/// is found gains less. Of those as long, the one with the smaller byte where they
/// first differ is found.
pub proof fn the_longest_of_the_best_is_found(
    data: Seq<u8>,
    pat: Seq<u8>,
    places: Seq<int>,
    id: u32,
    f: (Vec<u8>, usize, isize),
    n: int,
)
    requires
        finds_longest(data, freely(id), Some(f)),
        65 <= pat.len() <= 1024,
        stands_at(data, pat, places),
        places.len() >= 2,
        macro_gain(pat.len(), places.len(), id) == macro_gain(f.0@.len(), f.1 as nat, id),
    ensures
        f.0@.len() >= pat.len(),
        f.0@.len() == pat.len() && 0 <= n < pat.len() && f.0@.take(n) == pat.take(n) ==> f.0@[n]
            <= pat[n],
{
    let found = f.0@;
    let q = choose|q: int| #[trigger]
        crate::synth::suffix::is_first_long(data, q, found, f.1 as nat, freely(id));
    occurrences_are_as_many_as_fit(data, pat, places);
    let p = places[0];
    lemma_gain_grows(pat.len(), places.len(), occurrences(data, pat, 0), id);
    assert(window(data, p, pat.len()) == pat);
    assert(long_offer(data, found.len(), q, freely(id)) > 0);
    assert(long_offer(data, pat.len(), p, freely(id)) == macro_gain(
        pat.len(),
        occurrences(data, pat, 0),
        id,
    ));
    if found.len() == pat.len() && 0 <= n < pat.len() && found.take(n) == pat.take(n) {
        the_first_difference_decides(pat, found, n as nat);
    }
}

/// Storing the block as macro `id` and calling it wherever it stands makes the program
/// shorter, with four bytes for the macro.
pub open spec fn saves_bytes(toks: Seq<Tok>, pat: Seq<u8>, id: u32) -> bool {
    toks_bytes(with_marks(toks, pat, Tok::Call { id })).len() + 4 + tok_bytes(
        Tok::Lit { data: pat },
    ).len() < toks_bytes(toks).len()
}

/// Where nothing is left to rewrite, no macro is left either: a block of a literal that
/// stands twice or more, has 8 to 64 bytes, or up to 1024 in a literal of 256 or more,
/// and would gain, saves no bytes when it is stored and called.
pub proof fn no_macro_is_left(
    s: &PatternSynthesizer,
    d: Draft,
    t: int,
    pat: Seq<u8>,
    places: Seq<int>,
)
    requires
        s.is_settled(d),
        s.enable_macro,
        d.next < u32::MAX,
        toks_bytes(d.toks).len() <= usize::MAX,
        0 <= t < d.toks.len(),
        d.toks[t] is Lit,
        8 <= pat.len() <= 64 || (65 <= pat.len() <= 1024 && d.toks[t]->data.len() >= 256),
        stands_at(d.toks[t]->data, pat, places),
        places.len() >= 2,
        macro_gain(pat.len(), places.len(), d.next as u32) > 0,
    ensures
        !saves_bytes(d.toks, pat, d.next as u32),
{
    let id = d.next as u32;
    let data = d.toks[t]->data;
    let on = d.macro_terms();
    occurrences_are_as_many_as_fit(data, pat, places);
    let p = places[0];
    lemma_gain_grows(pat.len(), places.len(), occurrences(data, pat, 0), id);
    assert(window(data, p, pat.len()) == pat);
    reveal(macro_shortens);
    sizes_are_exact(d.toks);
    sizes_are_exact(with_marks(d.toks, pat, Tok::Call { id }));
    size_is_exact(Tok::Lit { data: pat });
    if saves_bytes(d.toks, pat, id) {
        assert(on.allow(pat));
        if pat.len() <= 64 {
            assert(token_offer(d.toks, t, pat.len(), p, on) > 0);
        } else {
            assert(long_offer(data, pat.len(), p, on) > 0);
        }
    }
}

/// How many of the tokens are `mark`.
pub open spec fn marks_in(ts: Seq<Tok>, mark: Tok) -> nat
    decreases ts.len(),
{
    if ts.len() == 0 {
        0
    } else {
        marks_in(ts.drop_first(), mark) + if ts[0] == mark {
            1nat
        } else {
            0
        }
    }
}

proof fn lemma_marks_concat(a: Seq<Tok>, b: Seq<Tok>, mark: Tok)
    ensures
        marks_in(a + b, mark) == marks_in(a, mark) + marks_in(b, mark),
    decreases a.len(),
{
    if a.len() == 0 {
        assert(a + b =~= b);
    } else {
        assert((a + b).drop_first() =~= a.drop_first() + b);
        lemma_marks_concat(a.drop_first(), b, mark);
    }
}

proof fn lemma_next_occurrence(data: Seq<u8>, pat: Seq<u8>, pos: int)
    requires
        0 <= pos,
        pat.len() > 0,
    ensures
        match first_from(data, pat, pos) {
            Some(hit) => occurrences(data, pat, pos) == 1 + occurrences(data, pat, hit + pat.len()),
            None => occurrences(data, pat, pos) == 0,
        },
    decreases data.len() - pos,
{
    if pos + pat.len() <= data.len() && window(data, pos, pat.len()) != pat {
        lemma_next_occurrence(data, pat, pos + 1);
    }
}

/// A literal is split at every occurrence of the block: as many marks stand in it as
/// the block occurs in it.
pub proof fn splitting_marks_every_occurrence(data: Seq<u8>, pat: Seq<u8>, mark: Tok, pos: int)
    requires
        pat.len() > 0,
        !(mark is Lit),
        0 <= pos,
    ensures
        marks_in(split(data, pat, mark, pos), mark) == occurrences(data, pat, pos),
    decreases data.len() - pos,
{
    if pos < data.len() {
        lemma_first_from(data, pat, pos);
        lemma_next_occurrence(data, pat, pos);
        match first_from(data, pat, pos) {
            Some(hit) => {
                splitting_marks_every_occurrence(data, pat, mark, hit + pat.len());
                let lead = if hit > pos {
                    seq![Tok::Lit { data: data.subrange(pos, hit) }]
                } else {
                    Seq::empty()
                };
                let rest = split(data, pat, mark, hit + pat.len());
                lemma_marks_concat(lead + seq![mark], rest, mark);
                lemma_marks_concat(lead, seq![mark], mark);
                assert(seq![mark].drop_first() =~= Seq::<Tok>::empty());
                if hit > pos {
                    assert(lead.drop_first() =~= Seq::<Tok>::empty());
                }
                assert(marks_in(Seq::<Tok>::empty(), mark) == 0);
            },
            None => {
                let only = seq![Tok::Lit { data: data.skip(pos) }];
                assert(only.drop_first() =~= Seq::<Tok>::empty());
                assert(marks_in(Seq::<Tok>::empty(), mark) == 0);
            },
        }
    }
}

/// Differences: the first byte stays, and each later one is what has to be added to
/// the byte before it, modulo 256.
pub proof fn differences_lead_from_byte_to_byte(data: Seq<u8>, i: int)
    requires
        0 <= i < data.len(),
    ensures
        deltas(data).len() == data.len(),
        i == 0 ==> deltas(data)[0] == data[0],
        i > 0 ==> (data[i - 1] + deltas(data)[i]) % 256 == data[i] as int,
{
}

/// A literal is written as differences exactly where it has at least eight bytes and
/// the judge expects to save more on them than the summing instruction takes.
pub proof fn differences_are_written_where_they_save(t: Tok, answers: Answers)
    ensures
        is_delta_pick(t, answers) <==> t is Lit && t->data.len() >= 8 && (answers.saving)(
            t->data,
            deltas(t->data),
        ) > tok_bytes(
            Tok::MapBlock { transform: Transform::DeltaU8, length: t->data.len() },
        ).len(),
{
    if t is Lit {
        size_is_exact(Tok::MapBlock { transform: Transform::DeltaU8, length: t->data.len() });
    }
}

/// Literals that are picked become their differences and a summing instruction of
/// their length; other tokens stay, and so does the order.
pub proof fn picked_literals_become_differences(front: Seq<Tok>, t: Tok, picks: Seq<bool>)
    requires
        picks.len() == front.len() + 1,
    ensures
        ({
            let all = with_deltas(front.push(t), picks);
            let before = with_deltas(front, picks);
            &&& t is Lit && picks.last() ==> all == before + seq![
                Tok::Lit { data: deltas(t->data) },
                Tok::MapBlock { transform: Transform::DeltaU8, length: t->data.len() },
            ]
            &&& !(t is Lit && picks.last()) ==> all == before + seq![t]
        }),
        with_deltas(Seq::empty(), picks) == Seq::<Tok>::empty(),
{
    assert(front.push(t).drop_last() =~= front);
}

proof fn lemma_counted_places(data: Seq<u8>, len: nat, w: Seq<u8>, places: Seq<int>, k: nat)
    requires
        forall|i: int|
            0 <= i < places.len() ==> 0 <= #[trigger] places[i] < k && window(data, places[i], len)
                == w,
        forall|i: int| 0 <= i < places.len() - 1 ==> #[trigger] places[i] < places[i + 1],
    ensures
        window_count(data, len, w, k) >= places.len(),
    decreases k,
{
    if k == 0 {
        if places.len() > 0 {
            assert(places[0] < 0);
        }
    } else if places.len() > 0 && places.last() == k - 1 {
        let front = places.drop_last();
        assert forall|i: int| 0 <= i < front.len() implies 0 <= #[trigger] front[i] < k - 1
            && window(data, front[i], len) == w by {
            assert(front[i] == places[i]);
            assert(places[i] < places[i + 1]);
            lemma_ascends(places, i + 1, places.len() - 1);
        }
        assert forall|i: int| 0 <= i < front.len() - 1 implies #[trigger] front[i] < front[i
            + 1] by {
            assert(places[i] < places[i + 1]);
        }
        lemma_counted_places(data, len, w, front, (k - 1) as nat);
        assert(window(data, places[places.len() - 1], len) == w);
    } else {
        assert forall|i: int| 0 <= i < places.len() implies 0 <= #[trigger] places[i] < k - 1
            && window(data, places[i], len) == w by {
            lemma_ascends(places, i, places.len() - 1);
        }
        lemma_counted_places(data, len, w, places, (k - 1) as nat);
    }
}

proof fn lemma_ascends(places: Seq<int>, i: int, j: int)
    requires
        0 <= i <= j < places.len(),
        forall|i: int| 0 <= i < places.len() - 1 ==> #[trigger] places[i] < places[i + 1],
    ensures
        places[i] <= places[j],
    decreases j - i,
{
    if i < j {
        lemma_ascends(places, i, j - 1);
        assert(places[j - 1] < places[j - 1 + 1]);
    }
}

/// Every block of `len` bytes that stands at enough places is a candidate, overlapping
/// or not.
pub proof fn repeated_blocks_are_candidates(
    data: Seq<u8>,
    len: nat,
    w: Seq<u8>,
    places: Seq<int>,
    min_occur: nat,
)
    requires
        0 < len <= data.len(),
        places.len() >= min_occur,
        places.len() >= 1,
        forall|i: int|
            0 <= i < places.len() ==> 0 <= #[trigger] places[i] <= data.len() - len
                && data.subrange(places[i], places[i] + len) == w,
        forall|i: int| 0 <= i < places.len() - 1 ==> #[trigger] places[i] < places[i + 1],
    ensures
        candidates(data, len, min_occur, window_total(data, len)).contains(w),
{
    let total = window_total(data, len);
    lemma_counted_places(data, len, w, places, total);
    let p = lemma_first_place(data, len, places[0]);
    assert(window(data, places[0], len) == w);
    assert(is_candidate(data, len, p, min_occur));
    lemma_candidates(data, len, min_occur, total);
}

/// The first place of a block from a place on: it stands there, and nowhere between. If
/// there is none, it stands nowhere.
pub proof fn the_first_place_is_found(data: Seq<u8>, pat: Seq<u8>, from: int, p: int)
    requires
        0 <= from,
        pat.len() > 0,
    ensures
        match first_from(data, pat, from) {
            Some(hit) => {
                &&& from <= hit
                &&& hit + pat.len() <= data.len()
                &&& data.subrange(hit, hit + pat.len()) == pat
                &&& from <= p < hit ==> data.subrange(p, p + pat.len()) != pat
            },
            None => from <= p && p + pat.len() <= data.len() ==> data.subrange(p, p + pat.len())
                != pat,
        },
    decreases data.len() - from,
{
    if from + pat.len() <= data.len() && window(data, from, pat.len()) != pat {
        the_first_place_is_found(data, pat, from + 1, p);
    }
}

} // verus!
