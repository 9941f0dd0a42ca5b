//! The LZ77 parse: literals and back references that cover the input.

use std::collections::HashMap;
use vstd::prelude::*;
use crate::bytes::{append, copy_of, le32_value, read_le32, same};
use crate::consensus::Consensus;
use crate::leb::encode_leb128;
use crate::machine::{copied, copy_step, fresh, step, Env, State, MAX_OUTPUT_BYTES};
use crate::tokens::{
    all_fit, appends, fits, instr_of, lemma_appends_yields, running_code_is_running_tokens,
    tok_bytes, toks_bytes, toks_run, with_output, yields, Tok,
};
use crate::vm::{bodies, env_of, Subs, VmState};

verus! {

/// How far back a reference may reach.
pub const WINDOW_SIZE: usize = 32_768;

/// The shortest back reference.
pub const MIN_MATCH: usize = 4;

/// The longest back reference.
pub const MAX_MATCH: usize = 258;

/// How many hash chains there are.
const HASH_SIZE: usize = 65_536;

/// How many earlier positions are tried for each back reference.
const MAX_CHAIN: usize = 64;

/// A piece of the parse, with its place in the input.
#[derive(Debug, Clone)]
pub enum LzToken {
    /// Raw bytes.
    Literal { start: usize, data: Vec<u8> },
    /// A back reference.
    Match { start: usize, offset: usize, length: usize },
}

/// A piece of the parse as mathematics.
#[verifier::ext_equal]
pub enum Piece {
    Literal { start: nat, data: Seq<u8> },
    Match { start: nat, offset: nat, length: nat },
}

impl View for LzToken {
    type V = Piece;

    open spec fn view(&self) -> Piece {
        match *self {
            LzToken::Literal { start, data } => Piece::Literal { start: start as nat, data: data@ },
            LzToken::Match { start, offset, length } => Piece::Match {
                start: start as nat,
                offset: offset as nat,
                length: length as nat,
            },
        }
    }
}

impl Piece {
    /// Where the piece starts.
    pub open spec fn from(self) -> nat {
        match self {
            Piece::Literal { start, .. } => start,
            Piece::Match { start, .. } => start,
        }
    }

    /// How many input bytes the piece covers.
    pub open spec fn size(self) -> nat {
        match self {
            Piece::Literal { data, .. } => data.len(),
            Piece::Match { length, .. } => length,
        }
    }

    /// The instruction that writes the piece.
    pub open spec fn tok(self) -> Tok {
        match self {
            Piece::Literal { data, .. } => Tok::Lit { data },
            Piece::Match { offset, length, .. } => Tok::Cpy { offset, length },
        }
    }
}

impl LzToken {
    /// Returns where the piece starts.
    pub fn start(&self) -> (n: usize)
        ensures
            n == self@.from(),
    {
        match self {
            LzToken::Literal { start, .. } => *start,
            LzToken::Match { start, .. } => *start,
        }
    }

    /// Returns how many input bytes the piece covers.
    pub fn len(&self) -> (n: usize)
        ensures
            n == self@.size(),
    {
        match self {
            LzToken::Literal { data, .. } => data.len(),
            LzToken::Match { length, .. } => *length,
        }
    }

    /// Returns whether the piece covers nothing.
    pub fn is_empty(&self) -> (r: bool)
        ensures
            r == (self@.size() == 0),
    {
        self.len() == 0
    }
}

/// The pieces of a token list.
pub open spec fn pieces(tokens: Seq<LzToken>) -> Seq<Piece> {
    tokens.map_values(|t: LzToken| t@)
}

/// The instructions that write the pieces.
pub open spec fn piece_toks(ps: Seq<Piece>) -> Seq<Tok> {
    ps.map_values(|p: Piece| p.tok())
}

/// How many bytes the literals among the pieces hold.
pub open spec fn literal_total(ps: Seq<Piece>) -> nat
    decreases ps.len(),
{
    if ps.len() == 0 {
        0
    } else {
        literal_total(ps.drop_last()) + if ps.last() is Literal {
            ps.last().size()
        } else {
            0
        }
    }
}

/// How many bytes the back references among the pieces cover.
pub open spec fn match_total(ps: Seq<Piece>) -> nat
    decreases ps.len(),
{
    if ps.len() == 0 {
        0
    } else {
        match_total(ps.drop_last()) + if ps.last() is Match {
            ps.last().size()
        } else {
            0
        }
    }
}

/// The literals among the pieces, each as its first place and the place behind
/// it.
pub open spec fn literal_spans(ps: Seq<Piece>) -> Seq<(nat, nat)>
    decreases ps.len(),
{
    if ps.len() == 0 {
        Seq::empty()
    } else {
        let before = literal_spans(ps.drop_last());
        if ps.last() is Literal {
            before.push((ps.last().from(), ps.last().from() + ps.last().size()))
        } else {
            before
        }
    }
}

/// The back references among the pieces, each as place, offset and length.
pub open spec fn match_spans(ps: Seq<Piece>) -> Seq<(nat, nat, nat)>
    decreases ps.len(),
{
    if ps.len() == 0 {
        Seq::empty()
    } else {
        let before = match_spans(ps.drop_last());
        match ps.last() {
            Piece::Match { start, offset, length } => before.push((start, offset, length)),
            Piece::Literal { .. } => before,
        }
    }
}

/// The pieces stand one behind the other from `from` to `to`.
pub open spec fn tiles(ps: Seq<Piece>, from: nat, to: nat) -> bool
    decreases ps.len(),
{
    if ps.len() == 0 {
        from == to
    } else {
        &&& ps.last().size() <= to
        &&& ps.last().from() == to - ps.last().size()
        &&& tiles(ps.drop_last(), from, (to - ps.last().size()) as nat)
    }
}

/// A complete parse of an input.
pub struct LzAnalysis {
    pub tokens: Vec<LzToken>,
    pub input_len: usize,
}

/// The parse settings.
pub struct LzEncoder {
    pub window: usize,
    pub min_match: usize,
    pub max_match: usize,
    pub max_chain: usize,
}

/// The hash of the four bytes from `p` on.
#[verifier::opaque]
pub open spec fn hash_at(data: Seq<u8>, p: int) -> nat {
    le32_value(data.subrange(p, p + 4)) * 0x9E37_79B9 % 0x1_0000_0000 / 65536
}

/// The last place before `p` whose hash is `h`, or -1.
pub open spec fn last_with_hash(data: Seq<u8>, p: int, h: nat) -> int
    decreases p,
{
    if p <= 0 {
        -1
    } else if hash_at(data, p - 1) == h {
        p - 1
    } else {
        last_with_hash(data, p - 1, h)
    }
}

/// How many bytes from `a` and from `b` on agree, up to `max`.
pub open spec fn agreement(data: Seq<u8>, a: int, b: int, max: nat) -> nat
    decreases max,
{
    if max == 0 || b >= data.len() || data[a] != data[b] {
        0
    } else {
        1 + agreement(data, a + 1, b + 1, (max - 1) as nat)
    }
}

impl LzEncoder {
    /// How many bytes a back reference from `pos` to `cand` may cover.
    pub open spec fn reach(&self, data: Seq<u8>, cand: int, pos: int) -> nat {
        agreement(data, cand, pos, self.max_match as nat)
    }

    /// The better of `best` and what the candidates from `cand` on offer: going
    /// back through at most `hops` places with the same hash inside the window,
    /// a longer match wins and among equals the nearest. A match is a length
    /// and an offset.
    pub open spec fn search(
        &self,
        data: Seq<u8>,
        pos: int,
        cand: int,
        hops: nat,
        best: (nat, nat),
    ) -> (nat, nat)
        decreases hops,
    {
        if cand < 0 || hops == 0 || pos - cand > self.window {
            best
        } else {
            let length = self.reach(data, cand, pos);
            let better = if length > best.0 {
                (length, (pos - cand) as nat)
            } else {
                best
            };
            self.search(
                data,
                pos,
                last_with_hash(data, cand, hash_at(data, pos)),
                (hops - 1) as nat,
                better,
            )
        }
    }

    /// The back reference chosen at `pos`, as offset and length.
    pub open spec fn choice(&self, data: Seq<u8>, pos: int) -> Option<(nat, nat)> {
        let found = self.search(
            data,
            pos,
            last_with_hash(data, pos, hash_at(data, pos)),
            self.max_chain as nat,
            ((self.min_match - 1) as nat, 0),
        );
        if found.0 >= self.min_match {
            Some((found.1, found.0))
        } else {
            None
        }
    }

    /// The parse from `i` on, where the bytes from `lit` to `i` wait to be
    /// written as a literal: at each place the chosen back reference is taken
    /// if there is one.
    pub open spec fn parse_from(&self, data: Seq<u8>, lit: int, i: int) -> Seq<Piece>
        decreases data.len() - i,
        via Self::parse_from_decreases
    {
        if i < 0 || i >= data.len() || self.min_match == 0 || i + self.min_match > data.len() {
            pending(data, lit, data.len() as int)
        } else {
            match self.choice(data, i) {
                Some((offset, length)) => pending(data, lit, i) + seq![
                    Piece::Match { start: i as nat, offset, length },
                ] + self.parse_from(data, i + length, i + length),
                None => self.parse_from(data, lit, i + 1),
            }
        }
    }

    #[via_fn]
    proof fn parse_from_decreases(&self, data: Seq<u8>, lit: int, i: int) {
        if 0 <= i < data.len() && self.min_match > 0 {
            self.choice_is_a_match(data, i);
        }
    }

    /// The parse of an input.
    pub open spec fn parse(&self, data: Seq<u8>) -> Seq<Piece> {
        self.parse_from(data, 0, 0)
    }

    /// The settings make sense for an input of this length: unless the input is
    /// too short for any back reference, references have at least the four
    /// bytes that are hashed, and the window is not empty.
    pub open spec fn suits(&self, n: nat) -> bool {
        &&& n + self.min_match <= usize::MAX
        &&& n > 0 && n >= self.min_match ==> self.min_match >= 4 && self.window >= 1
    }
}

/// The literal from `lit` to `i`, if it is not empty.
pub open spec fn pending(data: Seq<u8>, lit: int, i: int) -> Seq<Piece> {
    if lit < i {
        seq![Piece::Literal { start: lit as nat, data: data.subrange(lit, i) }]
    } else {
        Seq::empty()
    }
}

impl Default for LzEncoder {
    fn default() -> (e: LzEncoder)
        ensures
            e.window == WINDOW_SIZE,
            e.min_match == MIN_MATCH,
            e.max_match == MAX_MATCH,
            e.max_chain == 64,
            e.window == 0x8000 && e.min_match == 4 && e.max_match == 258,
    {
        LzEncoder {
            window: WINDOW_SIZE,
            min_match: MIN_MATCH,
            max_match: MAX_MATCH,
            max_chain: MAX_CHAIN,
        }
    }
}

/// A link of the hash chains: a place, or `usize::MAX` for none.
spec fn link(p: int) -> usize {
    if p < 0 {
        usize::MAX
    } else {
        p as usize
    }
}

/// The chain heads know the last place of every hash among the first `ins`
/// places.
spec fn heads_ok(data: Seq<u8>, head: Seq<usize>, ins: int) -> bool {
    &&& head.len() == HASH_SIZE
    &&& forall|h: int|
        0 <= h < HASH_SIZE ==> #[trigger] head[h] == link(last_with_hash(data, ins, h as nat))
}

/// The ring knows, for each of the last places, the one before it with the same
/// hash.
spec fn ring_ok(data: Seq<u8>, prev: Seq<usize>, ins: int) -> bool {
    &&& prev.len() > 0
    &&& forall|q: int|
        0 <= q < ins && ins - prev.len() <= q ==> prev[q % (prev.len() as int)] == link(
            #[trigger] last_with_hash(data, q, hash_at(data, q)),
        )
}

proof fn lemma_last_with_hash(data: Seq<u8>, p: int, h: nat)
    ensures
        -1 <= last_with_hash(data, p, h),
        last_with_hash(data, p, h) < p || p <= 0,
        last_with_hash(data, p, h) >= 0 ==> hash_at(data, last_with_hash(data, p, h)) == h,
    decreases p,
{
    if p > 0 && hash_at(data, p - 1) != h {
        lemma_last_with_hash(data, p - 1, h);
    }
}

/// Two places less than a ring apart have different slots.
proof fn lemma_slots_differ(p: int, q: int, r: int)
    requires
        0 <= q < p,
        p - q < r,
    ensures
        p % r != q % r,
{
    if p % r == q % r {
        let a = p / r;
        let b = q / r;
        vstd::arithmetic::div_mod::lemma_fundamental_div_mod(p, r);
        vstd::arithmetic::div_mod::lemma_fundamental_div_mod(q, r);
        assert(p - q == r * a - r * b);
        assert(false) by (nonlinear_arith)
            requires
                p - q == r * a - r * b,
                0 < p - q < r,
        ;
    }
}

proof fn lemma_agreement(data: Seq<u8>, a: int, b: int, max: nat)
    requires
        0 <= a < b,
    ensures
        agreement(data, a, b, max) <= max,
        b <= data.len() ==> b + agreement(data, a, b, max) <= data.len(),
        forall|k: int|
            0 <= k < agreement(data, a, b, max) ==> #[trigger] data[a + k] == data[b + k],
    decreases max,
{
    if !(max == 0 || b >= data.len() || data[a] != data[b]) {
        lemma_agreement(data, a + 1, b + 1, (max - 1) as nat);
        let n = agreement(data, a, b, max);
        assert forall|k: int| 0 <= k < n implies #[trigger] data[a + k] == data[b + k] by {
            if k > 0 {
                assert(data[a + 1 + (k - 1)] == data[b + 1 + (k - 1)]);
            }
        }
    }
}

/// The agreement is what a walk finds that stops at the first difference.
proof fn lemma_agreement_at(data: Seq<u8>, a: int, b: int, max: nat, n: nat)
    requires
        0 <= a < b,
        n <= max,
        b + n <= data.len(),
        forall|k: int| 0 <= k < n ==> #[trigger] data[a + k] == data[b + k],
        n == max || b + n == data.len() || data[a + n] != data[b + n],
    ensures
        agreement(data, a, b, max) == n,
    decreases n,
{
    if n > 0 {
        assert(data[a + 0] == data[b + 0]);
        assert forall|k: int| 0 <= k < n - 1 implies #[trigger] data[a + 1 + k] == data[b + 1
            + k] by {
            assert(data[a + (k + 1)] == data[b + (k + 1)]);
        }
        lemma_agreement_at(data, a + 1, b + 1, (max - 1) as nat, (n - 1) as nat);
    }
}

/// Returns the hash of the four bytes from `pos` on.
fn hash4(data: &[u8], pos: usize) -> (h: usize)
    requires
        pos + 4 <= data@.len(),
    ensures
        h == hash_at(data@, pos as int),
        h < HASH_SIZE,
{
    let v: u32 = read_le32(data, pos);
    reveal(hash_at);
    (v.wrapping_mul(0x9E37_79B9) / 65536) as usize
}

/// Returns how many bytes from `a` and from `b` on agree, up to `max`.
fn prefix_match_len(data: &[u8], a: usize, b: usize, max: usize) -> (n: usize)
    requires
        a < b <= data@.len(),
    ensures
        n == agreement(data@, a as int, b as int, max as nat),
{
    let limit: usize = if max < data.len() - b {
        max
    } else {
        data.len() - b
    };
    let mut n: usize = 0;
    while n < limit && data[a + n] == data[b + n]
        invariant
            a < b <= data.len(),
            n <= limit <= data@.len() - b,
            forall|k: int| 0 <= k < n ==> #[trigger] data@[a + k] == data@[b + k],
        decreases limit - n,
    {
        n = n + 1;
    }
    proof {
        lemma_agreement_at(data@, a as int, b as int, max as nat, n as nat);
    }
    n
}

impl LzEncoder {
    /// Returns the standard settings.
    pub fn new() -> (e: LzEncoder)
        ensures
            e.window == WINDOW_SIZE,
            e.min_match == MIN_MATCH,
            e.max_match == MAX_MATCH,
            e.max_chain == 64,
            e.window == 0x8000 && e.min_match == 4 && e.max_match == 258,
    {
        LzEncoder::default()
    }

    /// Once the longest possible match is found, the search keeps it.
    proof fn lemma_search_full(
        &self,
        data: Seq<u8>,
        pos: int,
        cand: int,
        hops: nat,
        best: (nat, nat),
    )
        requires
            best.0 >= self.max_match,
            cand < pos,
        ensures
            self.search(data, pos, cand, hops, best) == best,
        decreases hops,
    {
        if !(cand < 0 || hops == 0 || pos - cand > self.window) {
            lemma_agreement(data, cand, pos, self.max_match as nat);
            let h = hash_at(data, pos);
            lemma_last_with_hash(data, cand, h);
            self.lemma_search_full(
                data,
                pos,
                last_with_hash(data, cand, h),
                (hops - 1) as nat,
                best,
            );
        }
    }

    /// What the search finds is a match.
    proof fn lemma_search(&self, data: Seq<u8>, pos: int, cand: int, hops: nat, best: (nat, nat))
        requires
            cand < pos <= data.len(),
            pos + best.0 <= data.len() || best.1 == 0,
            best.1 > 0 ==> self.is_match(data, pos, best.1, best.0),
        ensures
            ({
                let found = self.search(data, pos, cand, hops, best);
                &&& found.0 >= best.0
                &&& found.1 > 0 || found == best
                &&& found.1 > 0 ==> self.is_match(data, pos, found.1, found.0)
            }),
        decreases hops,
    {
        if !(cand < 0 || hops == 0 || pos - cand > self.window) {
            lemma_agreement(data, cand, pos, self.max_match as nat);
            let h = hash_at(data, pos);
            lemma_last_with_hash(data, cand, h);
            let length = self.reach(data, cand, pos);
            let better = if length > best.0 {
                (length, (pos - cand) as nat)
            } else {
                best
            };
            if length > best.0 {
                assert forall|k: int| 0 <= k < length implies #[trigger] data[pos + k] == data[pos
                    - better.1 + k] by {
                    assert(data[cand + k] == data[pos + k]);
                }
            }
            self.lemma_search(
                data,
                pos,
                last_with_hash(data, cand, h),
                (hops - 1) as nat,
                better,
            );
        }
    }

    /// The `length` bytes from `pos` on stand `offset` bytes earlier too, inside
    /// the window.
    pub open spec fn is_match(&self, data: Seq<u8>, pos: int, offset: nat, length: nat) -> bool {
        &&& 1 <= offset <= pos
        &&& offset <= self.window
        &&& length <= self.max_match
        &&& pos + length <= data.len()
        &&& forall|k: int| 0 <= k < length ==> #[trigger] data[pos + k] == data[pos - offset + k]
    }

    /// A piece is a literal, or a match of at least the shortest length.
    pub open spec fn sound(&self, data: Seq<u8>, p: Piece) -> bool {
        match p {
            Piece::Literal { .. } => true,
            Piece::Match { start, offset, length } => length >= self.min_match && self.is_match(
                data,
                start as int,
                offset,
                length,
            ),
        }
    }

    /// The back reference that is chosen is a match of at least the shortest
    /// length.
    pub proof fn choice_is_a_match(&self, data: Seq<u8>, pos: int)
        requires
            0 <= pos <= data.len(),
            self.min_match >= 1,
        ensures
            self.choice(data, pos) matches Some((offset, length)) ==> length >= self.min_match
                && self.is_match(data, pos, offset, length),
    {
        let h = hash_at(data, pos);
        lemma_last_with_hash(data, pos, h);
        self.lemma_search(
            data,
            pos,
            last_with_hash(data, pos, h),
            self.max_chain as nat,
            ((self.min_match - 1) as nat, 0),
        );
    }

    /// Parses `data`.
    pub fn analyze(&self, data: &[u8]) -> (a: LzAnalysis)
        requires
            self.suits(data@.len()),
        ensures
            a.input_len == data@.len(),
            pieces(a.tokens@) == self.parse(data@),
    {
        let n: usize = data.len();
        let ring: usize = if self.window < n {
            self.window
        } else {
            n
        };
        let mut head: Vec<usize> = vec![usize::MAX;HASH_SIZE];
        let mut prev: Vec<usize> = vec![usize::MAX;ring];
        let mut tokens: Vec<LzToken> = Vec::new();
        let mut lit: usize = 0;
        let mut i: usize = 0;
        proof {
            assert(pieces(tokens@) =~= Seq::empty());
            assert(Seq::<Piece>::empty() + self.parse(data@) =~= self.parse(data@));
        }
        while i < n && n - i >= self.min_match
            invariant
                n == data@.len(),
                self.suits(n as nat),
                ring == (if self.window < n {
                    self.window
                } else {
                    n
                }),
                lit <= i <= n,
                heads_ok(data@, head@, chained(i as int, n as int, self.min_match as int)),
                prev@.len() == ring,
                ring > 0 ==> ring_ok(
                    data@,
                    prev@,
                    chained(i as int, n as int, self.min_match as int),
                ),
                pieces(tokens@) + self.parse_from(data@, lit as int, i as int) == self.parse(data@),
            decreases n - i,
        {
            let best: Option<(usize, usize)> = self.find_match(data, i, &head, &prev);
            let ghost before = pieces(tokens@);
            chain_in(data, i, &mut head, &mut prev);
            match best {
                Some((offset, length)) => {
                    proof {
                        self.choice_is_a_match(data@, i as int);
                    }
                    flush_literal(data, lit, i, &mut tokens);
                    tokens.push(LzToken::Match { start: i, offset, length });
                    let mut k: usize = 1;
                    while k < length
                        invariant
                            n == data@.len(),
                            self.suits(n as nat),
                            n > 0,
                            n >= self.min_match,
                            prev@.len() > 0,
                            1 <= k <= length,
                            i + length <= n,
                            heads_ok(
                                data@,
                                head@,
                                chained(i + k, n as int, self.min_match as int),
                            ),
                            ring_ok(data@, prev@, chained(i + k, n as int, self.min_match as int)),
                            prev@.len() == ring,
                        decreases length - k,
                    {
                        let pos: usize = i + k;
                        if n - pos >= self.min_match {
                            chain_in(data, pos, &mut head, &mut prev);
                        }
                        k = k + 1;
                    }
                    proof {
                        let piece = Piece::Match {
                            start: i as nat,
                            offset: offset as nat,
                            length: length as nat,
                        };
                        let rest = self.parse_from(data@, i + length, i + length);
                        assert(pieces(tokens@) =~= before + pending(data@, lit as int, i as int)
                            + seq![piece]);
                        assert(before + (pending(data@, lit as int, i as int) + seq![piece] + rest)
                            =~= pieces(tokens@) + rest);
                    }
                    i = i + length;
                    lit = i;
                },
                None => {
                    i = i + 1;
                },
            }
        }
        let ghost before = pieces(tokens@);
        flush_literal(data, lit, n, &mut tokens);
        LzAnalysis { tokens, input_len: n }
    }

    /// Returns the back reference to take at `pos`, as offset and length.
    fn find_match(&self, data: &[u8], pos: usize, head: &Vec<usize>, prev: &Vec<usize>) -> (r:
        Option<(usize, usize)>)
        requires
            pos + 4 <= data@.len(),
            self.min_match >= 1,
            heads_ok(data@, head@, pos as int),
            ring_ok(data@, prev@, pos as int),
            prev@.len() == self.window || prev@.len() == data@.len(),
        ensures
            match self.choice(data@, pos as int) {
                Some((offset, length)) => r matches Some((o, l)) && o == offset && l == length,
                None => r is None,
            },
    {
        let h: usize = hash4(data, pos);
        let mut best_len: usize = self.min_match - 1;
        let mut best_offset: usize = 0;
        let mut candidate: usize = head[h];
        let mut hops: usize = 0;
        let ghost all = self.search(
            data@,
            pos as int,
            last_with_hash(data@, pos as int, h as nat),
            self.max_chain as nat,
            ((self.min_match - 1) as nat, 0),
        );
        let ghost mut at: int = last_with_hash(data@, pos as int, h as nat);
        proof {
            lemma_last_with_hash(data@, pos as int, h as nat);
        }
        while candidate != usize::MAX && hops < self.max_chain
            invariant_except_break
                all == self.search(
                    data@,
                    pos as int,
                    at,
                    (self.max_chain - hops) as nat,
                    (best_len as nat, best_offset as nat),
                ),
            invariant
                pos + 4 <= data@.len(),
                ring_ok(data@, prev@, pos as int),
                prev@.len() == self.window || prev@.len() == data@.len(),
                h == hash_at(data@, pos as int),
                candidate == link(at),
                -1 <= at < pos,
                at >= 0 ==> hash_at(data@, at) == h,
                hops <= self.max_chain,
            ensures
                all == (best_len as nat, best_offset as nat),
            decreases self.max_chain - hops,
        {
            assert(at == candidate);
            let dist: usize = pos - candidate;
            if dist > self.window {
                break;
            }
            let length: usize = prefix_match_len(data, candidate, pos, self.max_match);
            let ghost next = last_with_hash(data@, at, h as nat);
            proof {
                lemma_last_with_hash(data@, at, h as nat);
                assert(prev@[at % (prev@.len() as int)] == link(
                    last_with_hash(data@, at, hash_at(data@, at)),
                ));
                lemma_agreement(data@, at, pos as int, self.max_match as nat);
            }
            if length > best_len {
                best_len = length;
                best_offset = dist;
                if best_len == self.max_match {
                    proof {
                        self.lemma_search_full(
                            data@,
                            pos as int,
                            next,
                            (self.max_chain - hops - 1) as nat,
                            (best_len as nat, best_offset as nat),
                        );
                    }
                    break;
                }
            }
            candidate = prev[candidate % prev.len()];
            hops = hops + 1;
            proof {
                at = next;
            }
        }
        if best_len >= self.min_match {
            Some((best_offset, best_len))
        } else {
            None
        }
    }
}

/// How many places have entered the hash chains when the parse stands at `i`.
spec fn chained(i: int, n: int, min_match: int) -> int {
    if i + min_match <= n {
        i
    } else {
        n - min_match + 1
    }
}

/// Enters `pos` into the hash chains.
fn chain_in(data: &[u8], pos: usize, head: &mut Vec<usize>, prev: &mut Vec<usize>)
    requires
        pos + 4 <= data@.len(),
        heads_ok(data@, old(head)@, pos as int),
        ring_ok(data@, old(prev)@, pos as int),
    ensures
        heads_ok(data@, final(head)@, pos + 1),
        ring_ok(data@, final(prev)@, pos + 1),
        final(prev)@.len() == old(prev)@.len(),
{
    let h: usize = hash4(data, pos);
    let slot: usize = pos % prev.len();
    let ghost old_prev = prev@;
    let ghost r = prev@.len() as int;
    prev[slot] = head[h];
    head[h] = pos;
    proof {
        assert forall|q: int| 0 <= q < pos + 1 && pos + 1 - r <= q implies prev@[q % r] == link(
            #[trigger] last_with_hash(data@, q, hash_at(data@, q)),
        ) by {
            if q < pos {
                lemma_slots_differ(pos as int, q, r);
                assert(0 <= q % r < r);
                assert(old_prev[q % r] == link(last_with_hash(data@, q, hash_at(data@, q))));
            }
        }
    }
}

/// Appends the literal from `lit` to `i`, if it is not empty.
fn flush_literal(data: &[u8], lit: usize, i: usize, tokens: &mut Vec<LzToken>)
    requires
        lit <= i <= data@.len(),
    ensures
        pieces(final(tokens)@) == pieces(old(tokens)@) + pending(data@, lit as int, i as int),
{
    let ghost before = pieces(tokens@);
    if lit < i {
        tokens.push(LzToken::Literal { start: lit, data: copy_of(&data[lit..i]) });
        assert(pieces(tokens@) =~= before + pending(data@, lit as int, i as int));
    } else {
        assert(before + pending(data@, lit as int, i as int) =~= before);
    }
}


/// The tables of a program that refers to none.
pub open spec fn no_tables() -> Env {
    Env { subs: vstd::map::Map::empty(), consensus: vstd::map::Map::empty() }
}

/// Appends the byte code of a literal.
pub fn push_lit(prog: &mut Vec<u8>, data: &[u8])
    ensures
        final(prog)@ == old(prog)@ + tok_bytes(Tok::Lit { data: data@ }),
{
    let ghost before = prog@;
    prog.push(0x00);
    let size: Vec<u8> = encode_leb128((data.len() as u64 % 0x1_0000_0000) as u32);
    append(prog, size.as_slice());
    append(prog, data);
    assert(prog@ =~= before + tok_bytes(Tok::Lit { data: data@ }));
}

/// Appends the byte code of a back reference.
pub fn push_cpy(prog: &mut Vec<u8>, offset: usize, length: usize)
    ensures
        final(prog)@ == old(prog)@ + tok_bytes(
            Tok::Cpy { offset: offset as nat, length: length as nat },
        ),
{
    let ghost before = prog@;
    prog.push(0x01);
    let back: Vec<u8> = encode_leb128((offset as u64 % 0x1_0000_0000) as u32);
    append(prog, back.as_slice());
    let size: Vec<u8> = encode_leb128((length as u64 % 0x1_0000_0000) as u32);
    append(prog, size.as_slice());
    assert(prog@ =~= before + tok_bytes(
        Tok::Cpy { offset: offset as nat, length: length as nat },
    ));
}

impl LzAnalysis {
    /// The pieces of the parse.
    pub open spec fn pieces(&self) -> Seq<Piece> {
        pieces(self.tokens@)
    }

    /// The instructions that write the pieces.
    pub open spec fn toks(&self) -> Seq<Tok> {
        piece_toks(self.pieces())
    }

    /// Returns the program that writes the pieces.
    pub fn to_program(&self) -> (prog: Vec<u8>)
        ensures
            prog@ == toks_bytes(self.toks()),
    {
        let mut prog: Vec<u8> = Vec::new();
        let mut i: usize = 0;
        while i < self.tokens.len()
            invariant
                i <= self.tokens@.len(),
                prog@ == toks_bytes(self.toks().take(i as int)),
            decreases self.tokens.len() - i,
        {
            assert(self.toks().take(i + 1).drop_last() =~= self.toks().take(i as int));
            match &self.tokens[i] {
                LzToken::Literal { data, .. } => {
                    push_lit(&mut prog, data.as_slice());
                },
                LzToken::Match { offset, length, .. } => {
                    push_cpy(&mut prog, *offset, *length);
                },
            }
            i = i + 1;
        }
        assert(self.toks().take(i as int) =~= self.toks());
        prog
    }

    /// Runs the program and returns whether it yields `original`.
    pub fn verify_round_trip(&self, original: &[u8]) -> (r: bool)
        ensures
            r == ({
                let end = crate::machine::execute(toks_bytes(self.toks()), no_tables());
                end.err is None && end.out == original@
            }),
    {
        let prog: Vec<u8> = self.to_program();
        let mut vm: VmState = VmState::new();
        let subs: Subs = HashMap::new();
        let consensus: Consensus = Consensus::new();
        proof {
            assert(bodies(subs@) =~= vstd::map::Map::empty());
            assert(env_of(subs, consensus) == no_tables());
        }
        match vm.exec(prog.as_slice(), &subs, &consensus) {
            Ok(_) => same(vm.into_output().as_slice(), original),
            Err(_) => false,
        }
    }

    /// Returns how many bytes the literals hold, or `usize::MAX` if that is
    /// more than a `usize` can say.
    pub fn literal_bytes(&self) -> (n: usize)
        ensures
            n == (if literal_total(self.pieces()) <= usize::MAX {
                literal_total(self.pieces()) as int
            } else {
                usize::MAX as int
            }),
    {
        let mut n: usize = 0;
        let mut i: usize = 0;
        while i < self.tokens.len()
            invariant
                i <= self.tokens@.len(),
                n == (if literal_total(self.pieces().take(i as int)) <= usize::MAX {
                    literal_total(self.pieces().take(i as int)) as int
                } else {
                    usize::MAX as int
                }),
            decreases self.tokens.len() - i,
        {
            assert(self.pieces().take(i + 1).drop_last() =~= self.pieces().take(i as int));
            if let LzToken::Literal { data, .. } = &self.tokens[i] {
                n = n.saturating_add(data.len());
            }
            i = i + 1;
        }
        assert(self.pieces().take(i as int) =~= self.pieces());
        n
    }

    /// Returns the literals, each as its first place and the place behind it.
    pub fn literal_regions(&self) -> (out: Vec<(usize, usize)>)
        requires
            forall|i: int|
                0 <= i < self.pieces().len() ==> (#[trigger] self.pieces()[i]).from()
                    + self.pieces()[i].size() <= usize::MAX,
        ensures
            out@.map_values(|r: (usize, usize)| (r.0 as nat, r.1 as nat)) == literal_spans(
                self.pieces(),
            ),
    {
        let mut out: Vec<(usize, usize)> = Vec::new();
        let ghost f = |r: (usize, usize)| (r.0 as nat, r.1 as nat);
        assert(out@.map_values(f) =~= Seq::empty());
        let mut i: usize = 0;
        while i < self.tokens.len()
            invariant
                i <= self.tokens@.len(),
                f == (|r: (usize, usize)| (r.0 as nat, r.1 as nat)),
                forall|i: int|
                    0 <= i < self.pieces().len() ==> (#[trigger] self.pieces()[i]).from()
                        + self.pieces()[i].size() <= usize::MAX,
                out@.map_values(f) == literal_spans(self.pieces().take(i as int)),
            decreases self.tokens.len() - i,
        {
            assert(self.pieces().take(i + 1).drop_last() =~= self.pieces().take(i as int));
            let ghost before = out@;
            let ghost piece = self.pieces()[i as int];
            if let LzToken::Literal { start, data } = &self.tokens[i] {
                out.push((*start, *start + data.len()));
                assert(out@.map_values(f) =~= before.map_values(f).push(
                    (piece.from(), piece.from() + piece.size()),
                ));
            }
            i = i + 1;
        }
        assert(self.pieces().take(i as int) =~= self.pieces());
        out
    }

    /// Returns the back references, each as place, offset and length.
    pub fn match_regions(&self) -> (out: Vec<(usize, usize, usize)>)
        ensures
            out@.map_values(|r: (usize, usize, usize)| (r.0 as nat, r.1 as nat, r.2 as nat))
                == match_spans(self.pieces()),
    {
        let mut out: Vec<(usize, usize, usize)> = Vec::new();
        let ghost f = |r: (usize, usize, usize)| (r.0 as nat, r.1 as nat, r.2 as nat);
        assert(out@.map_values(f) =~= Seq::empty());
        let mut i: usize = 0;
        while i < self.tokens.len()
            invariant
                i <= self.tokens@.len(),
                f == (|r: (usize, usize, usize)| (r.0 as nat, r.1 as nat, r.2 as nat)),
                out@.map_values(f) == match_spans(self.pieces().take(i as int)),
            decreases self.tokens.len() - i,
        {
            assert(self.pieces().take(i + 1).drop_last() =~= self.pieces().take(i as int));
            let ghost before = out@;
            if let LzToken::Match { start, offset, length } = &self.tokens[i] {
                out.push((*start, *offset, *length));
                assert(out@.map_values(f) =~= before.map_values(f).push(
                    (*start as nat, *offset as nat, *length as nat),
                ));
            }
            i = i + 1;
        }
        assert(self.pieces().take(i as int) =~= self.pieces());
        out
    }

    /// Returns how many back references there are.
    pub fn match_count(&self) -> (n: usize)
        ensures
            n == match_spans(self.pieces()).len(),
    {
        let mut n: usize = 0;
        let mut i: usize = 0;
        while i < self.tokens.len()
            invariant
                n <= i <= self.tokens@.len(),
                n == match_spans(self.pieces().take(i as int)).len(),
            decreases self.tokens.len() - i,
        {
            assert(self.pieces().take(i + 1).drop_last() =~= self.pieces().take(i as int));
            if let LzToken::Match { .. } = &self.tokens[i] {
                n = n + 1;
            }
            i = i + 1;
        }
        assert(self.pieces().take(i as int) =~= self.pieces());
        n
    }

    /// Returns how many literals there are.
    pub fn literal_count(&self) -> (n: usize)
        ensures
            n == literal_spans(self.pieces()).len(),
    {
        let mut n: usize = 0;
        let mut i: usize = 0;
        while i < self.tokens.len()
            invariant
                n <= i <= self.tokens@.len(),
                n == literal_spans(self.pieces().take(i as int)).len(),
            decreases self.tokens.len() - i,
        {
            assert(self.pieces().take(i + 1).drop_last() =~= self.pieces().take(i as int));
            if let LzToken::Literal { .. } = &self.tokens[i] {
                n = n + 1;
            }
            i = i + 1;
        }
        assert(self.pieces().take(i as int) =~= self.pieces());
        n
    }
}

/// Copying a match behind other output extends a prefix of the input.
proof fn lemma_copied_match(
    enc: &LzEncoder,
    pre: Seq<u8>,
    data: Seq<u8>,
    i: int,
    offset: nat,
    length: nat,
)
    requires
        0 <= i <= data.len(),
        enc.is_match(data, i, offset, length),
    ensures
        copied(pre + data.take(i), offset, length) == pre + data.take(i + length),
    decreases length,
{
    if length > 0 {
        let shorter = (length - 1) as nat;
        assert forall|k: int| 0 <= k < shorter implies #[trigger] data[i + k] == data[i - offset
            + k] by {}
        lemma_copied_match(enc, pre, data, i, offset, shorter);
        let prev = pre + data.take(i + shorter);
        assert(data[i + shorter] == data[i - offset + shorter]);
        assert(prev[prev.len() - offset] == data[i + shorter]);
        assert(pre + data.take(i + length) =~= prev.push(data[i + shorter]));
    } else {
        assert(data.take(i + length) =~= data.take(i));
    }
}

/// Running a piece in front of others.
proof fn lemma_piece_runs(p: Piece, m: State, env: Env, after: State, rest: Seq<Piece>)
    requires
        step(instr_of(p.tok()), m, env, 0, Seq::empty()) == after,
        after.err is None,
    ensures
        toks_run(piece_toks(seq![p] + rest), m, env, 0, Seq::empty()) == toks_run(
            piece_toks(rest),
            after,
            env,
            0,
            Seq::empty(),
        ),
{
    let ts = piece_toks(seq![p] + rest);
    assert(ts[0] == p.tok());
    assert(ts.drop_first() =~= piece_toks(rest));
}

/// The parse from `i` on covers the input from `lit` on with sound pieces.
proof fn lemma_parse_shape(enc: &LzEncoder, data: Seq<u8>, lit: int, i: int)
    requires
        0 <= lit <= i <= data.len(),
        enc.min_match >= 1 || data.len() == 0,
    ensures
        tiles(enc.parse_from(data, lit, i), lit as nat, data.len()),
        forall|k: int|
            0 <= k < enc.parse_from(data, lit, i).len() ==> enc.sound(
                data,
                #[trigger] enc.parse_from(data, lit, i)[k],
            ),
    decreases data.len() - i,
{
    let none = Seq::<Piece>::empty();
    let ps = enc.parse_from(data, lit, i);
    if i >= data.len() || i + enc.min_match > data.len() {
        let n = data.len() as int;
        assert(ps == pending(data, lit, n));
        if lit < n {
            assert(ps.drop_last() =~= none);
            assert(tiles(none, lit as nat, lit as nat));
        }
    } else {
        match enc.choice(data, i) {
            None => {
                lemma_parse_shape(enc, data, lit, i + 1);
            },
            Some((offset, length)) => {
                enc.choice_is_a_match(data, i);
                lemma_parse_shape(enc, data, i + length, i + length);
                let piece = Piece::Match { start: i as nat, offset, length };
                let rest = enc.parse_from(data, i + length, i + length);
                let tail = seq![piece] + rest;
                lemma_tiles_front(piece, rest, i as nat, data.len());
                if lit < i {
                    let first = Piece::Literal {
                        start: lit as nat,
                        data: data.subrange(lit, i),
                    };
                    assert(ps =~= seq![first] + tail);
                    lemma_tiles_front(first, tail, lit as nat, data.len());
                } else {
                    assert(ps =~= tail);
                }
                assert forall|k: int| 0 <= k < ps.len() implies enc.sound(
                    data,
                    #[trigger] ps[k],
                ) by {
                    let skip = if lit < i {
                        2int
                    } else {
                        1int
                    };
                    if k >= skip {
                        assert(ps[k] == rest[k - skip]);
                    }
                }
            },
        }
    }
}

/// The output `out` behind `m`.
spec fn behind(m: State, out: Seq<u8>) -> State {
    State { out: m.out + out, ..m }
}

/// The parse from `i` on writes the rest of the input.
#[verifier::rlimit(30)]
proof fn lemma_parse_runs(enc: &LzEncoder, data: Seq<u8>, lit: int, i: int, m: State, env: Env)
    requires
        0 <= lit <= i <= data.len(),
        m.err is None,
        m.out.len() + data.len() <= MAX_OUTPUT_BYTES,
        enc.min_match >= 1 || data.len() == 0,
    ensures
        toks_run(
            piece_toks(enc.parse_from(data, lit, i)),
            behind(m, data.take(lit)),
            env,
            0,
            Seq::empty(),
        ) == behind(m, data),
        all_fit(piece_toks(enc.parse_from(data, lit, i))),
    decreases data.len() - i,
{
    let start = behind(m, data.take(lit));
    let none = Seq::<Piece>::empty();
    let ps = enc.parse_from(data, lit, i);
    if i >= data.len() || i + enc.min_match > data.len() {
        let n = data.len() as int;
        assert(ps == pending(data, lit, n));
        assert(data.take(n) =~= data);
        if lit < n {
            assert(ps =~= seq![ps[0]] + none);
            assert(m.out + data.take(lit) + data.subrange(lit, n) =~= m.out + data);
            lemma_piece_runs(ps[0], start, env, behind(m, data), none);
        } else {
            assert(piece_toks(ps) =~= Seq::empty());
        }
    } else {
        match enc.choice(data, i) {
            None => {
                lemma_parse_runs(enc, data, lit, i + 1, m, env);
            },
            Some((offset, length)) => {
                enc.choice_is_a_match(data, i);
                lemma_parse_runs(enc, data, i + length, i + length, m, env);
                let piece = Piece::Match { start: i as nat, offset, length };
                let rest = enc.parse_from(data, i + length, i + length);
                let mid = behind(m, data.take(i));
                let end = behind(m, data.take(i + length));
                lemma_copied_match(enc, m.out, data, i, offset, length);
                assert(copy_step(mid, offset, length) == end);
                lemma_piece_runs(piece, mid, env, end, rest);
                let tail = seq![piece] + rest;
                if lit < i {
                    let first = Piece::Literal {
                        start: lit as nat,
                        data: data.subrange(lit, i),
                    };
                    assert(m.out + data.take(lit) + data.subrange(lit, i) =~= m.out + data.take(
                        i,
                    ));
                    lemma_piece_runs(first, start, env, mid, tail);
                    assert(ps =~= seq![first] + tail);
                } else {
                    assert(ps =~= tail);
                }
                assert forall|k: int| 0 <= k < piece_toks(ps).len() implies #[trigger] fits(
                    piece_toks(ps)[k],
                ) by {
                    let skip = if lit < i {
                        2int
                    } else {
                        1int
                    };
                    if k >= skip {
                        assert(ps[k] == rest[k - skip]);
                        assert(fits(piece_toks(rest)[k - skip]));
                    }
                }
            },
        }
    }
}

/// A piece in front of a tiling extends it.
proof fn lemma_tiles_front(p: Piece, rest: Seq<Piece>, from: nat, to: nat)
    requires
        p.from() == from,
        tiles(rest, from + p.size(), to),
    ensures
        tiles(seq![p] + rest, from, to),
    decreases rest.len(),
{
    let all = seq![p] + rest;
    if rest.len() == 0 {
        assert(all.drop_last() =~= Seq::<Piece>::empty());
        assert(tiles(Seq::<Piece>::empty(), from, from));
    } else {
        assert(all.drop_last() =~= seq![p] + rest.drop_last());
        lemma_tiles_front(p, rest.drop_last(), from, (to - rest.last().size()) as nat);
    }
}

/// The instructions of a parse append exactly the input, wherever it fits.
pub proof fn parse_appends_the_input(enc: &LzEncoder, data: Seq<u8>, env: Env)
    requires
        enc.suits(data.len()),
        data.len() <= MAX_OUTPUT_BYTES,
    ensures
        appends(piece_toks(enc.parse(data)), data, env),
        all_fit(piece_toks(enc.parse(data))),
{
    lemma_parse_runs(enc, data, 0, 0, fresh(), env);
    assert forall|m: State|
        m.err is None && m.out.len() + data.len() <= MAX_OUTPUT_BYTES implies #[trigger] toks_run(
        piece_toks(enc.parse(data)),
        m,
        env,
        0,
        Seq::empty(),
    ) == with_output(m, data) by {
        lemma_parse_runs(enc, data, 0, 0, m, env);
        assert(m.out + data.take(0) =~= m.out);
    }
}

/// The parse of any input that a program may produce restores it: run from the
/// start, its instructions yield exactly the input, whatever the tables.
pub proof fn parse_restores_the_input(enc: &LzEncoder, data: Seq<u8>, env: Env)
    requires
        enc.suits(data.len()),
        data.len() <= MAX_OUTPUT_BYTES,
    ensures
        yields(piece_toks(enc.parse(data)), data, env),
        all_fit(piece_toks(enc.parse(data))),
        crate::machine::execute(toks_bytes(piece_toks(enc.parse(data))), env) == (State {
            out: data,
            params: None,
            err: None,
        }),
{
    parse_appends_the_input(enc, data, env);
    lemma_appends_yields(piece_toks(enc.parse(data)), data, env);
    running_code_is_running_tokens(
        piece_toks(enc.parse(data)),
        fresh(),
        env,
        0,
        Seq::empty(),
    );
}

/// Every input byte is covered exactly once: the pieces stand one behind the
/// other, and literals and back references together cover the input.
pub proof fn parse_covers_the_input(enc: &LzEncoder, data: Seq<u8>)
    requires
        enc.suits(data.len()),
    ensures
        tiles(enc.parse(data), 0, data.len()),
        literal_total(enc.parse(data)) + match_total(enc.parse(data)) == data.len(),
{
    lemma_parse_shape(enc, data, 0, 0);
    lemma_tiles_total(enc.parse(data), 0, data.len());
}

proof fn lemma_tiles_total(ps: Seq<Piece>, from: nat, to: nat)
    requires
        tiles(ps, from, to),
    ensures
        literal_total(ps) + match_total(ps) == to - from,
    decreases ps.len(),
{
    if ps.len() > 0 {
        lemma_tiles_total(ps.drop_last(), from, (to - ps.last().size()) as nat);
    }
}

/// Every back reference of a parse has at least the shortest length and at most
/// the longest, stays inside the window and the input, and points at the bytes
/// that it stands for.
pub proof fn parse_has_sound_matches(enc: &LzEncoder, data: Seq<u8>, k: int)
    requires
        enc.suits(data.len()),
        0 <= k < enc.parse(data).len(),
    ensures
        enc.sound(data, enc.parse(data)[k]),
{
    lemma_parse_shape(enc, data, 0, 0);
}

/// No candidate within reach of the search gives a longer match than the one
/// that is chosen.
pub proof fn search_finds_the_longest(
    enc: &LzEncoder,
    data: Seq<u8>,
    pos: int,
    cand: int,
    hops: nat,
    best: (nat, nat),
)
    ensures
        enc.search(data, pos, cand, hops, best).0 >= best.0,
        cand >= 0 && hops > 0 && pos - cand <= enc.window ==> enc.search(
            data,
            pos,
            cand,
            hops,
            best,
        ).0 >= enc.reach(data, cand, pos),
    decreases hops,
{
    if cand >= 0 && hops > 0 && pos - cand <= enc.window {
        let length = enc.reach(data, cand, pos);
        let better = if length > best.0 {
            (length, (pos - cand) as nat)
        } else {
            best
        };
        search_finds_the_longest(
            enc,
            data,
            pos,
            last_with_hash(data, cand, hash_at(data, pos)),
            (hops - 1) as nat,
            better,
        );
    }
}

} // verus!
