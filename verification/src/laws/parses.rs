//! What the parse into literals and back references leaves and what it takes.

use vstd::prelude::*;
use crate::lz::{
    agreement, hash_at, last_with_hash, literal_spans, literal_total, match_spans, match_total,
    pending, search_finds_the_longest, LzEncoder, Piece,
};
use crate::sched::is_standard;

verus! {

/// How many places behind `q` and before `pos` have the hash `h`.
pub open spec fn rivals(data: Seq<u8>, q: int, pos: int, h: nat) -> nat
    decreases pos - q,
{
    if pos - 1 <= q {
        0
    } else {
        rivals(data, q, pos - 1, h) + if hash_at(data, pos - 1) == h {
            1nat
        } else {
            0
        }
    }
}

/// A reference from `pos` to `q` is looked at: `q` stands before `pos` inside the
/// window, with the same hash, and is one of the nearest with that hash.
pub open spec fn is_tried(enc: &LzEncoder, data: Seq<u8>, q: int, pos: int) -> bool {
    &&& 0 <= q < pos
    &&& pos - q <= enc.window
    &&& hash_at(data, q) == hash_at(data, pos)
    &&& rivals(data, q, pos, hash_at(data, pos)) < enc.max_chain
}

/// The same `n` bytes stand at both places.
pub open spec fn agree(data: Seq<u8>, q: int, pos: int, n: nat) -> bool {
    &&& pos + n <= data.len()
    &&& forall|k: int| 0 <= k < n ==> #[trigger] data[q + k] == data[pos + k]
}

/// The hash of a place is made of the four bytes there alone: the upper half of
/// their product with a fixed number, modulo 2^32.
pub proof fn places_are_hashed_by_four_bytes(data: Seq<u8>, p: int)
    requires
        0 <= p,
        p + 4 <= data.len(),
    ensures
        hash_at(data, p) == (data[p] + 0x100 * data[p + 1] + 0x1_0000 * data[p + 2] + 0x100_0000
            * data[p + 3]) * 2654435769 % 0x1_0000_0000 / 0x1_0000,
{
    reveal(hash_at);
    crate::laws::codes::fixed_numbers_add_up_their_bytes(data.subrange(p, p + 4));
}

/// Places where the same four bytes stand have the same hash, so that every
/// repetition of four bytes or more can be found.
pub proof fn repetitions_have_the_same_hash(data: Seq<u8>, q: int, pos: int)
    requires
        0 <= q < pos,
        agree(data, q, pos, 4),
    ensures
        hash_at(data, q) == hash_at(data, pos),
{
    reveal(hash_at);
    let (a, b) = (data.subrange(q, q + 4), data.subrange(pos, pos + 4));
    assert forall|k: int| 0 <= k < 4 implies #[trigger] a[k] == b[k] by {
        assert(data[q + k] == data[pos + k]);
    }
    assert(a =~= b);
}

/// No place between has the hash.
proof fn lemma_no_rivals(data: Seq<u8>, q: int, a: int, b: int, h: nat)
    requires
        q < a <= b,
        forall|p: int| a <= p < b ==> #[trigger] hash_at(data, p) != h,
    ensures
        rivals(data, q, a, h) == rivals(data, q, b, h),
    decreases b - a,
{
    if a < b {
        lemma_no_rivals(data, q, a, b - 1, h);
        assert(hash_at(data, b - 1) != h);
    }
}

proof fn lemma_last(data: Seq<u8>, p: int, h: nat)
    ensures
        ({
            let l = last_with_hash(data, p, h);
            &&& -1 <= l
            &&& l < p || p <= 0
            &&& l >= 0 ==> hash_at(data, l) == h
            &&& forall|r: int| l < r < p && 0 <= r ==> #[trigger] hash_at(data, r) != h
        }),
    decreases p,
{
    if p > 0 && hash_at(data, p - 1) != h {
        lemma_last(data, p - 1, h);
    }
}

proof fn lemma_agreement_reaches(data: Seq<u8>, a: int, b: int, max: nat, n: nat)
    requires
        0 <= a < b,
        n <= max,
        agree(data, a, b, n),
    ensures
        agreement(data, a, b, max) >= n,
    decreases n,
{
    if n > 0 {
        assert(data[a + 0] == data[b + 0]);
        assert forall|k: int| 0 <= k < n - 1 implies #[trigger] data[a + 1 + k] == data[b + 1
            + k] by {
            assert(data[a + (k + 1)] == data[b + (k + 1)]);
        }
        lemma_agreement_reaches(data, a + 1, b + 1, (max - 1) as nat, (n - 1) as nat);
    }
}

proof fn lemma_agreement_agrees(data: Seq<u8>, a: int, b: int, max: nat)
    requires
        0 <= a < b <= data.len(),
    ensures
        agree(data, a, b, agreement(data, a, b, max)),
        agreement(data, a, b, max) <= max,
    decreases max,
{
    if !(max == 0 || b >= data.len() || data[a] != data[b]) {
        lemma_agreement_agrees(data, a + 1, b + 1, (max - 1) as nat);
        let n = agreement(data, a, b, max);
        assert forall|k: int| 0 <= k < n implies #[trigger] data[a + k] == data[b + k] by {
            if k > 0 {
                assert(data[a + 1 + (k - 1)] == data[b + 1 + (k - 1)]);
            }
        }
    }
}

/// The search comes past every place that is to be tried.
proof fn lemma_search_tries(
    enc: &LzEncoder,
    data: Seq<u8>,
    pos: int,
    cand: int,
    hops: nat,
    best: (nat, nat),
    q: int,
)
    requires
        0 <= q <= cand < pos,
        pos - q <= enc.window,
        hash_at(data, q) == hash_at(data, pos),
        hash_at(data, cand) == hash_at(data, pos),
        rivals(data, q, cand + 1, hash_at(data, pos)) < hops,
    ensures
        enc.search(data, pos, cand, hops, best).0 >= enc.reach(data, q, pos),
    decreases hops,
{
    let h = hash_at(data, pos);
    if cand == q {
        search_finds_the_longest(enc, data, pos, cand, hops, best);
    } else {
        let length = enc.reach(data, cand, pos);
        let better = if length > best.0 {
            (length, (pos - cand) as nat)
        } else {
            best
        };
        let next = last_with_hash(data, cand, h);
        lemma_last(data, cand, h);
        if next < q {
            assert(hash_at(data, q) != h);
        }
        lemma_no_rivals(data, q, next + 1, cand, h);
        assert(rivals(data, q, cand + 1, h) == rivals(data, q, cand, h) + 1);
        lemma_search_tries(enc, data, pos, next, (hops - 1) as nat, better, q);
    }
}

/// The reference that is chosen is at least as long as any that is tried.
proof fn lemma_choice_covers(enc: &LzEncoder, data: Seq<u8>, pos: int, q: int, n: nat)
    requires
        is_tried(enc, data, q, pos),
        agree(data, q, pos, n),
        enc.min_match <= n <= enc.max_match,
        enc.min_match >= 1,
    ensures
        enc.choice(data, pos) matches Some((offset, length)) && length >= n,
{
    let h = hash_at(data, pos);
    let cand = last_with_hash(data, pos, h);
    lemma_last(data, pos, h);
    if cand < q {
        assert(hash_at(data, q) != h);
    }
    lemma_no_rivals(data, q, cand + 1, pos, h);
    let best = ((enc.min_match - 1) as nat, 0nat);
    lemma_search_tries(enc, data, pos, cand, enc.max_chain as nat, best, q);
    lemma_agreement_reaches(data, q, pos, enc.max_match as nat, n);
}

/// Where the found reference comes from: a place that is tried, and every nearer one
/// agrees on fewer bytes.
proof fn lemma_search_origin(
    enc: &LzEncoder,
    data: Seq<u8>,
    pos: int,
    cand: int,
    hops: nat,
    best: (nat, nat),
)
    requires
        cand < pos,
        cand >= 0 ==> hash_at(data, cand) == hash_at(data, pos),
    ensures
        ({
            let found = enc.search(data, pos, cand, hops, best);
            let h = hash_at(data, pos);
            found != best ==> {
                &&& found.0 > best.0
                &&& 0 <= pos - found.1 <= cand
                &&& found.1 <= enc.window
                &&& hash_at(data, pos - found.1) == h
                &&& rivals(data, pos - found.1, cand + 1, h) < hops
                &&& found.0 == enc.reach(data, pos - found.1, pos)
                &&& forall|q: int|
                    pos - found.1 < q <= cand && #[trigger] hash_at(data, q) == h ==> enc.reach(
                        data,
                        q,
                        pos,
                    ) < found.0
            }
        }),
    decreases hops,
{
    let h = hash_at(data, pos);
    if !(cand < 0 || hops == 0 || pos - cand > enc.window) {
        let length = enc.reach(data, cand, pos);
        let better = if length > best.0 {
            (length, (pos - cand) as nat)
        } else {
            best
        };
        let next = last_with_hash(data, cand, h);
        lemma_last(data, cand, h);
        lemma_search_origin(enc, data, pos, next, (hops - 1) as nat, better);
        let found = enc.search(data, pos, cand, hops, best);
        if found != better {
            let from = pos - found.1;
            assert(from <= next);
            lemma_no_rivals(data, from, next + 1, cand, h);
            assert(rivals(data, from, cand + 1, h) == rivals(data, from, cand, h) + 1);
            assert forall|q: int|
                from < q <= cand && #[trigger] hash_at(data, q) == h implies enc.reach(
                data,
                q,
                pos,
            ) < found.0 by {
                if q < cand && q > next {
                    assert(hash_at(data, q) != h);
                }
            }
        } else if found != best {
            assert(rivals(data, cand, cand + 1, h) == 0);
        }
    }
}

/// Every literal stands at places where no reference is chosen, and every reference
/// is the chosen one.
proof fn lemma_parse_choices(enc: &LzEncoder, data: Seq<u8>, lit: int, i: int)
    requires
        0 <= lit <= i <= data.len(),
        enc.min_match >= 1,
        forall|j: int|
            lit <= j < i && j + enc.min_match <= data.len() ==> #[trigger] enc.choice(data, j)
                is None,
    ensures
        forall|k: int|
            0 <= k < enc.parse_from(data, lit, i).len() ==> #[trigger] is_chosen(
                enc,
                data,
                enc.parse_from(data, lit, i)[k],
            ),
    decreases data.len() - i,
{
    let ps = enc.parse_from(data, lit, i);
    if i >= data.len() || i + enc.min_match > data.len() {
        let n = data.len() as int;
        assert(ps == pending(data, lit, n));
        assert forall|k: int| 0 <= k < ps.len() implies #[trigger] is_chosen(enc, data, ps[k]) by {
            assert(ps[k] == Piece::Literal { start: lit as nat, data: data.subrange(lit, n) });
        }
    } else {
        match enc.choice(data, i) {
            None => {
                assert forall|j: int|
                    lit <= j < i + 1 && j + enc.min_match <= data.len() implies #[trigger] enc.choice(
                    data,
                    j,
                ) is None by {}
                lemma_parse_choices(enc, data, lit, i + 1);
                assert(ps == enc.parse_from(data, lit, i + 1));
                assert forall|k: int| 0 <= k < ps.len() implies #[trigger] is_chosen(
                    enc,
                    data,
                    ps[k],
                ) by {
                    assert(is_chosen(enc, data, enc.parse_from(data, lit, i + 1)[k]));
                }
            },
            Some((offset, length)) => {
                enc.choice_is_a_match(data, i);
                lemma_parse_choices(enc, data, i + length, i + length);
                let rest = enc.parse_from(data, i + length, i + length);
                let skip = if lit < i {
                    2int
                } else {
                    1int
                };
                assert forall|k: int| 0 <= k < ps.len() implies #[trigger] is_chosen(
                    enc,
                    data,
                    ps[k],
                ) by {
                    if k >= skip {
                        assert(ps[k] == rest[k - skip]);
                        assert(is_chosen(enc, data, rest[k - skip]));
                    } else if k == skip - 1 {
                        assert(ps[k] == Piece::Match { start: i as nat, offset, length });
                    } else {
                        assert(ps[k] == Piece::Literal {
                            start: lit as nat,
                            data: data.subrange(lit, i),
                        });
                    }
                }
            },
        }
    }
}

spec fn is_chosen(enc: &LzEncoder, data: Seq<u8>, p: Piece) -> bool {
    match p {
        Piece::Literal { start, data: bytes } => {
            &&& bytes.len() > 0
            &&& start + bytes.len() <= data.len()
            &&& bytes == data.subrange(start as int, (start + bytes.len()) as int)
            &&& forall|j: int|
                start <= j < start + bytes.len() && j + enc.min_match <= data.len()
                    ==> #[trigger] enc.choice(data, j) is None
        },
        Piece::Match { start, offset, length } => start < data.len() && enc.choice(
            data,
            start as int,
        ) == Some((offset, length)),
    }
}

/// No reference is left unused: wherever a byte stands in a literal, none of the
/// places that are tried from there has the next bytes too, as many as the shortest
/// reference covers.
pub proof fn no_reference_is_left_unused(
    enc: &LzEncoder,
    data: Seq<u8>,
    k: int,
    i: int,
    q: int,
)
    requires
        enc.suits(data.len()),
        enc.min_match <= enc.max_match,
        0 <= k < enc.parse(data).len(),
        enc.parse(data)[k] is Literal,
        enc.parse(data)[k].from() <= i < enc.parse(data)[k].from() + enc.parse(data)[k].size(),
        i + enc.min_match <= data.len(),
        is_tried(enc, data, q, i),
    ensures
        !agree(data, q, i, enc.min_match as nat),
{
    assert(enc.min_match >= 4);
    lemma_parse_choices(enc, data, 0, 0);
    assert(is_chosen(enc, data, enc.parse(data)[k]));
    if agree(data, q, i, enc.min_match as nat) {
        lemma_choice_covers(enc, data, i, q, enc.min_match as nat);
        assert(enc.choice(data, i) is None);
    }
}

/// With the standard settings, a byte in a literal starts no four bytes that stand at
/// one of the sixty-four nearest places with their hash in the 32 KiB before it.
pub proof fn the_standard_parse_uses_every_reference(
    enc: &LzEncoder,
    data: Seq<u8>,
    k: int,
    i: int,
    q: int,
)
    requires
        enc.window == 0x8000,
        enc.min_match == 4,
        enc.max_match == 258,
        enc.max_chain == 64,
        data.len() + 4 <= usize::MAX,
        0 <= k < enc.parse(data).len(),
        enc.parse(data)[k] is Literal,
        enc.parse(data)[k].from() <= i < enc.parse(data)[k].from() + enc.parse(data)[k].size(),
        i + 4 <= data.len(),
        0 <= q < i,
        i - q <= 0x8000,
        rivals(data, q, i, hash_at(data, i)) < 64,
    ensures
        !agree(data, q, i, 4),
{
    if agree(data, q, i, 4) {
        repetitions_have_the_same_hash(data, q, i);
        no_reference_is_left_unused(enc, data, k, i, q);
    }
}

/// A reference is the longest that is tried, and the nearest of those: no place that
/// is tried agrees on one byte more, and no nearer one on as many.
pub proof fn references_are_the_longest_and_nearest(
    enc: &LzEncoder,
    data: Seq<u8>,
    k: int,
    q: int,
)
    requires
        enc.suits(data.len()),
        0 <= k < enc.parse(data).len(),
        enc.parse(data)[k] is Match,
    ensures
        ({
            let (start, offset, length) = (
                enc.parse(data)[k].from(),
                enc.parse(data)[k]->offset,
                enc.parse(data)[k]->length,
            );
            let pos = start as int;
            &&& is_tried(enc, data, pos - offset, pos)
            &&& agree(data, pos - offset, pos, length)
            &&& enc.min_match <= length <= enc.max_match
            &&& is_tried(enc, data, q, pos) && length < enc.max_match ==> !agree(
                data,
                q,
                pos,
                length + 1,
            )
            &&& is_tried(enc, data, q, pos) && q > pos - offset ==> !agree(data, q, pos, length)
        }),
{
    if enc.min_match == 0 || data.len() < enc.min_match {
        assert(enc.parse(data)[k] is Literal);
    } else {
        lemma_parse_choices(enc, data, 0, 0);
        assert(is_chosen(enc, data, enc.parse(data)[k]));
        let pos = enc.parse(data)[k].from() as int;
        let offset = enc.parse(data)[k]->offset;
        let length = enc.parse(data)[k]->length;
        let h = hash_at(data, pos);
        let cand = last_with_hash(data, pos, h);
        let best = ((enc.min_match - 1) as nat, 0nat);
        lemma_last(data, pos, h);
        lemma_search_origin(enc, data, pos, cand, enc.max_chain as nat, best);
        let from = pos - offset;
        assert(enc.search(data, pos, cand, enc.max_chain as nat, best) == (length, offset));
        lemma_no_rivals(data, from, cand + 1, pos, h);
        lemma_agreement_agrees(data, from, pos, enc.max_match as nat);
        if is_tried(enc, data, q, pos) {
            if length < enc.max_match && agree(data, q, pos, length + 1) {
                lemma_choice_covers(enc, data, pos, q, length + 1);
            }
            if q > from && agree(data, q, pos, length) {
                lemma_agreement_reaches(data, q, pos, enc.max_match as nat, length);
                if q > cand {
                    assert(hash_at(data, q) != h);
                }
            }
        }
    }
}

/// The spans tell exactly the pieces: each literal with where it starts and ends,
/// each reference with its place, offset and length.
pub proof fn spans_tell_the_pieces(ps: Seq<Piece>)
    ensures
        literal_spans(ps).len() + match_spans(ps).len() == ps.len(),
        forall|k: int|
            0 <= k < ps.len() ==> match #[trigger] ps[k] {
                Piece::Literal { start, data } => literal_spans(ps).contains(
                    (start, start + data.len()),
                ),
                Piece::Match { start, offset, length } => match_spans(ps).contains(
                    (start, offset, length),
                ),
            },
        forall|j: int|
            0 <= j < match_spans(ps).len() ==> ps.contains(
                Piece::Match {
                    start: (#[trigger] match_spans(ps)[j]).0,
                    offset: match_spans(ps)[j].1,
                    length: match_spans(ps)[j].2,
                },
            ),
    decreases ps.len(),
{
    if ps.len() > 0 {
        let front = ps.drop_last();
        spans_tell_the_pieces(front);
        let (l, f) = (literal_spans(ps), literal_spans(front));
        let (m, g) = (match_spans(ps), match_spans(front));
        assert forall|k: int| 0 <= k < ps.len() implies match #[trigger] ps[k] {
            Piece::Literal { start, data } => l.contains((start, start + data.len())),
            Piece::Match { start, offset, length } => m.contains((start, offset, length)),
        } by {
            if k < front.len() {
                assert(front[k] == ps[k]);
                match ps[k] {
                    Piece::Literal { start, data } => {
                        let x = (start, start + data.len());
                        assert(f.contains(x));
                        let j = choose|j: int| 0 <= j < f.len() && f[j] == x;
                        assert(l[j] == x);
                    },
                    Piece::Match { start, offset, length } => {
                        let x = (start, offset, length);
                        assert(g.contains(x));
                        let j = choose|j: int| 0 <= j < g.len() && g[j] == x;
                        assert(m[j] == x);
                    },
                }
            } else {
                match ps[k] {
                    Piece::Literal { start, data } => {
                        assert(l[l.len() - 1] == (start, start + data.len()));
                    },
                    Piece::Match { start, offset, length } => {
                        assert(m[m.len() - 1] == (start, offset, length));
                    },
                }
            }
        }
        assert forall|j: int| 0 <= j < m.len() implies ps.contains(
            Piece::Match { start: (#[trigger] m[j]).0, offset: m[j].1, length: m[j].2 },
        ) by {
            let x = Piece::Match { start: m[j].0, offset: m[j].1, length: m[j].2 };
            if j < g.len() {
                assert(m[j] == g[j]);
                assert(front.contains(x));
                let i = choose|i: int| 0 <= i < front.len() && front[i] == x;
                assert(ps[i] == x);
            } else {
                assert(ps[ps.len() - 1] == x);
            }
        }
    }
}

/// The standard settings: a window of 32 KiB, references of 4 to 258 bytes, and 64
/// places to try.
pub proof fn the_standard_settings(enc: LzEncoder)
    ensures
        is_standard(enc) <==> enc.window == 0x8000 && enc.min_match == 4 && enc.max_match == 258
            && enc.max_chain == 64,
{
}

/// How many bytes stand in literals and how many in references: each piece adds its
/// size to the one or the other.
pub proof fn totals_add_up_the_pieces(ps: Seq<Piece>, p: Piece)
    ensures
        literal_total(Seq::<Piece>::empty()) == 0,
        match_total(Seq::<Piece>::empty()) == 0,
        match p {
            Piece::Literal { start, data } => literal_total(ps.push(p)) == literal_total(ps)
                + data.len() && match_total(ps.push(p)) == match_total(ps),
            Piece::Match { start, offset, length } => literal_total(ps.push(p)) == literal_total(ps)
                && match_total(ps.push(p)) == match_total(ps) + length,
        },
{
    assert(ps.push(p).drop_last() =~= ps);
}

} // verus!
