//! Long repeated blocks, found through the suffix array.

use vstd::prelude::*;
use crate::bytes::{copy_of, lemma_lex_at, lemma_lex_total, lex_less};
use crate::leb::{leb_size, lemma_leb_size};
use crate::sorting::{
    in_order, indices_below, is_permutation, key_le, lemma_permutation, sort_by_pair,
};
use crate::synth::loops::{clamp, clamped};
use crate::synth::macros::{
    allowed, count_nonoverlap, covers, freely, lemma_occurrences_bound,
    lemma_occurrences_counted, macro_gain, occurrences, terms_of, wide_macro_gain, window,
    window_count, window_total, Found, Terms, MIN_MACRO_OCCUR,
};
use crate::synth::token::SynthToken;
use crate::tokens::lo32;

verus! {

/// The shortest literal that is searched for long blocks.
pub const SA_THRESHOLD: usize = 256;

/// The shortest block that this search finds.
pub const SA_MIN_PAT_LEN: usize = 65;

/// The longest block that this search finds.
pub const SA_MAX_PAT_LEN: usize = 1024;

/// The first `k` bytes of the suffix at `i`, or all of it if it is shorter.
pub open spec fn head(data: Seq<u8>, i: int, k: nat) -> Seq<u8> {
    data.subrange(
        i,
        if i + k < data.len() {
            i + k
        } else {
            data.len() as int
        },
    )
}

/// The places where suffixes start, in the lexicographic order of the suffixes.
pub open spec fn is_suffix_array(data: Seq<u8>, sa: Seq<usize>) -> bool {
    &&& is_permutation(sa, data.len())
    &&& forall|a: int, b: int|
        0 <= a < b < sa.len() ==> lex_less(
            data.skip(#[trigger] sa[a] as int),
            data.skip(#[trigger] sa[b] as int),
        )
}

/// The ranks order the places as the heads of `k` bytes do.
spec fn ranks_heads(data: Seq<u8>, rank: Seq<usize>, k: nat) -> bool {
    &&& rank.len() == data.len()
    &&& forall|i: int, j: int|
        0 <= i < data.len() && 0 <= j < data.len() ==> (#[trigger] rank[i] < #[trigger] rank[j]
            <==> lex_less(head(data, i, k), head(data, j, k)))
    &&& forall|i: int| 0 <= i < data.len() ==> #[trigger] rank[i] < usize::MAX
}

/// No later place has a smaller head of `k` bytes.
spec fn sorted_heads(data: Seq<u8>, sa: Seq<usize>, k: nat) -> bool {
    forall|a: int, b: int|
        0 <= a <= b < sa.len() ==> !lex_less(
            head(data, #[trigger] sa[b] as int, k),
            head(data, #[trigger] sa[a] as int, k),
        )
}

/// Where a smaller sequence first differs.
proof fn lemma_lex_witness(a: Seq<u8>, b: Seq<u8>) -> (n: nat)
    requires
        lex_less(a, b),
    ensures
        n <= a.len(),
        n < b.len(),
        forall|i: int| 0 <= i < n ==> a[i] == b[i],
        n == a.len() || a[n as int] < b[n as int],
    decreases a.len(),
{
    if a.len() == 0 || a[0] < b[0] {
        0
    } else {
        let m = lemma_lex_witness(a.drop_first(), b.drop_first());
        assert forall|i: int| 0 <= i < m + 1 implies a[i] == b[i] by {
            if i > 0 {
                assert(a.drop_first()[i - 1] == b.drop_first()[i - 1]);
            }
        }
        m + 1
    }
}

/// A common beginning does not matter for the order.
proof fn lemma_lex_common(x: Seq<u8>, a: Seq<u8>, b: Seq<u8>)
    ensures
        lex_less(x + a, x + b) == lex_less(a, b),
    decreases x.len(),
{
    if x.len() == 0 {
        assert(x + a =~= a);
        assert(x + b =~= b);
    } else {
        lemma_lex_common(x.drop_first(), a, b);
        assert((x + a).drop_first() =~= x.drop_first() + a);
        assert((x + b).drop_first() =~= x.drop_first() + b);
    }
}

/// Two heads that differ within `k` bytes keep their order when they get longer.
proof fn lemma_longer_heads(data: Seq<u8>, i: int, j: int, k: nat, l: nat)
    requires
        0 <= i < data.len(),
        0 <= j < data.len(),
        k <= l,
        lex_less(head(data, i, k), head(data, j, k)),
    ensures
        lex_less(head(data, i, l), head(data, j, l)),
{
    let (a, b) = (head(data, i, k), head(data, j, k));
    let (c, d) = (head(data, i, l), head(data, j, l));
    let n = lemma_lex_witness(a, b);
    assert forall|t: int| 0 <= t < n implies c[t] == d[t] by {
        assert(a[t] == b[t]);
    }
    if n == a.len() {
        // The shorter head ends where the data ends.
        assert(a.len() < k || k == 0);
        assert(c.len() == a.len());
    } else {
        assert(c[n as int] == a[n as int] && d[n as int] == b[n as int]);
    }
    lemma_lex_at(c, d, n);
}

/// The pair of ranks of a head and of the head behind it orders heads of twice
/// the length.
proof fn lemma_double(data: Seq<u8>, rank: Seq<usize>, second: Seq<usize>, k: nat, i: int, j: int)
    requires
        k >= 1,
        ranks_heads(data, rank, k),
        is_second(data, rank, second, k),
        0 <= i < data.len(),
        0 <= j < data.len(),
    ensures
        (rank[i] < rank[j] || (rank[i] == rank[j] && second[i] < second[j])) <==> lex_less(
            head(data, i, 2 * k),
            head(data, j, 2 * k),
        ),
{
    let (x, y) = (head(data, i, k), head(data, j, k));
    lemma_lex_total(x, y);
    if rank[i] < rank[j] {
        lemma_longer_heads(data, i, j, k, 2 * k);
    } else if rank[j] < rank[i] {
        lemma_longer_heads(data, j, i, k, 2 * k);
        lemma_lex_total(head(data, i, 2 * k), head(data, j, 2 * k));
    } else {
        assert(x == y);
        if x.len() < k {
            assert(i + x.len() == data.len() && j + y.len() == data.len());
            assert(i == j);
            lemma_lex_total(head(data, i, 2 * k), head(data, i, 2 * k));
        } else {
            let a = if i + k < data.len() {
                head(data, i + k, k)
            } else {
                Seq::<u8>::empty()
            };
            let b = if j + k < data.len() {
                head(data, j + k, k)
            } else {
                Seq::<u8>::empty()
            };
            assert(head(data, i, 2 * k) =~= x + a);
            assert(head(data, j, 2 * k) =~= x + b);
            lemma_lex_common(x, a, b);
            if i + k < data.len() && j + k < data.len() {
                assert(rank[i + k] < rank[j + k] <==> lex_less(a, b));
            }
        }
    }
}

/// The second keys: the rank of the head behind, plus one, or zero if there is
/// none.
spec fn is_second(data: Seq<u8>, rank: Seq<usize>, second: Seq<usize>, k: nat) -> bool {
    &&& second.len() == data.len()
    &&& forall|i: int|
        0 <= i < data.len() ==> #[trigger] second[i] == if i + k < data.len() {
            rank[i + k] + 1
        } else {
            0
        }
}

fn second_keys(data: &[u8], rank: &Vec<usize>, k: usize) -> (second: Vec<usize>)
    requires
        ranks_heads(data@, rank@, k as nat),
    ensures
        is_second(data@, rank@, second@, k as nat),
{
    let n: usize = data.len();
    let mut second: Vec<usize> = Vec::new();
    let mut i: usize = 0;
    while i < n
        invariant
            n == data@.len(),
            i <= n,
            ranks_heads(data@, rank@, k as nat),
            second@.len() == i,
            forall|t: int|
                0 <= t < i ==> #[trigger] second@[t] == if t + k < data@.len() {
                    rank@[t + k] + 1
                } else {
                    0
                },
        decreases n - i,
    {
        if k < n - i {
            assert(rank@[i + k] < usize::MAX);
            second.push(rank[i + k] + 1);
        } else {
            second.push(0);
        }
        i = i + 1;
    }
    second
}

/// The new ranks: equal for places with equal keys, and growing along the
/// sorted list otherwise.
spec fn is_rerank(
    sa: Seq<usize>,
    rank: Seq<usize>,
    second: Seq<usize>,
    next: Seq<usize>,
    upto: int,
) -> bool {
    &&& next.len() == sa.len()
    &&& forall|a: int| 0 <= a < upto ==> #[trigger] next[sa[a] as int] <= a
    &&& forall|a: int, b: int|
        0 <= a < b < upto ==> (#[trigger] next[sa[a] as int]) <= (#[trigger] next[sa[b] as int])
            && (next[sa[a] as int] == next[sa[b] as int] <==> rank[sa[a] as int]
            == rank[sa[b] as int] && second[sa[a] as int] == second[sa[b] as int])
    &&& upto > 0 && next[sa[upto - 1] as int] == upto - 1 ==> forall|a: int|
        0 <= a < upto ==> #[trigger] next[sa[a] as int] == a
}

fn rerank(sa: &Vec<usize>, rank: &Vec<usize>, second: &Vec<usize>) -> (next: Vec<usize>)
    requires
        is_permutation(sa@, sa@.len()),
        rank@.len() == sa@.len(),
        second@.len() == sa@.len(),
        in_order(sa@, rank@, second@),
        sa@.len() > 0,
    ensures
        is_rerank(sa@, rank@, second@, next@, sa@.len() as int),
{
    let n: usize = sa.len();
    let mut next: Vec<usize> = vec![0usize;n];
    next[sa[0]] = 0;
    let mut b: usize = 1;
    while b < n
        invariant
            n == sa@.len(),
            1 <= b <= n,
            is_permutation(sa@, n as nat),
            rank@.len() == n,
            second@.len() == n,
            in_order(sa@, rank@, second@),
            is_rerank(sa@, rank@, second@, next@, b as int),
        decreases n - b,
    {
        let prev: usize = sa[b - 1];
        let cur: usize = sa[b];
        assert(prev != cur);
        let same_keys: bool = rank[prev] == rank[cur] && second[prev] == second[cur];
        assert(next@[sa@[b - 1] as int] <= b - 1);
        let value: usize = if same_keys {
            next[prev]
        } else {
            next[prev] + 1
        };
        let ghost before = next@;
        next[cur] = value;
        proof {
            assert forall|a: int| 0 <= a < b implies #[trigger] next@[sa@[a] as int]
                == before[sa@[a] as int] by {
                assert(sa@[a] != sa@[b as int]);
            }
            assert forall|a: int| 0 <= a < b + 1 implies #[trigger] next@[sa@[a] as int] <= a by {
                if a < b {
                    assert(before[sa@[a] as int] <= a);
                }
            }
            assert forall|a: int, c: int| 0 <= a < c < b + 1 implies (
            #[trigger] next@[sa@[a] as int]) <= (#[trigger] next@[sa@[c] as int]) && (
            next@[sa@[a] as int] == next@[sa@[c] as int] <==> rank@[sa@[a] as int]
                == rank@[sa@[c] as int] && second@[sa@[a] as int] == second@[sa@[c] as int]) by {
                assert(next@[sa@[a] as int] == before[sa@[a] as int]);
                if c < b {
                    assert(next@[sa@[c] as int] == before[sa@[c] as int]);
                } else {
                    assert(key_le(rank@, second@, sa@[a], sa@[b - 1]));
                    assert(key_le(rank@, second@, sa@[b - 1], sa@[b as int]));
                    if a < b - 1 {
                        assert(before[sa@[a] as int] <= before[sa@[b - 1] as int]);
                    }
                }
            }
            if next@[sa@[b as int] as int] == b {
                assert(before[sa@[b - 1] as int] == b - 1);
                assert forall|a: int| 0 <= a < b + 1 implies #[trigger] next@[sa@[a] as int]
                    == a by {
                    if a < b {
                        assert(before[sa@[a] as int] == a);
                    }
                }
            }
        }
        b = b + 1;
    }
    next
}

/// Sorting by the pair of keys sorts the heads of twice the length, and the new
/// ranks rank them.
proof fn lemma_round(
    data: Seq<u8>,
    sa: Seq<usize>,
    rank: Seq<usize>,
    second: Seq<usize>,
    next: Seq<usize>,
    k: nat,
)
    requires
        k >= 1,
        data.len() <= usize::MAX,
        ranks_heads(data, rank, k),
        is_second(data, rank, second, k),
        is_permutation(sa, data.len()),
        in_order(sa, rank, second),
        is_rerank(sa, rank, second, next, sa.len() as int),
    ensures
        sorted_heads(data, sa, 2 * k),
        ranks_heads(data, next, 2 * k),
{
    assert forall|a: int, b: int| 0 <= a <= b < sa.len() implies !lex_less(
        head(data, #[trigger] sa[b] as int, 2 * k),
        head(data, #[trigger] sa[a] as int, 2 * k),
    ) by {
        lemma_double(data, rank, second, k, sa[b] as int, sa[a] as int);
        assert(key_le(rank, second, sa[a], sa[b]));
    }
    assert forall|i: int, j: int| 0 <= i < data.len() && 0 <= j < data.len() implies (
    #[trigger] next[i] < #[trigger] next[j] <==> lex_less(
        head(data, i, 2 * k),
        head(data, j, 2 * k),
    )) by {
        lemma_double(data, rank, second, k, i, j);
        assert(sa.contains(i as usize) && sa.contains(j as usize));
        let a = choose|a: int| 0 <= a < sa.len() && sa[a] == i as usize;
        let b = choose|b: int| 0 <= b < sa.len() && sa[b] == j as usize;
        assert(next[sa[a] as int] == next[i] && next[sa[b] as int] == next[j]);
        if a < b {
            assert(key_le(rank, second, sa[a], sa[b]));
        } else if b < a {
            assert(key_le(rank, second, sa[b], sa[a]));
        }
    }
    assert forall|i: int| 0 <= i < data.len() implies #[trigger] next[i] < usize::MAX by {
        assert(sa.contains(i as usize));
        let a = choose|a: int| 0 <= a < sa.len() && sa[a] == i as usize;
        assert(next[sa[a] as int] <= a);
    }
}

/// When all ranks differ, or the heads are whole suffixes, the suffixes are
/// sorted.
proof fn lemma_done(data: Seq<u8>, sa: Seq<usize>, next: Seq<usize>, k: nat)
    requires
        is_permutation(sa, data.len()),
        sorted_heads(data, sa, k),
        ranks_heads(data, next, k),
        k >= data.len() || (forall|a: int|
            0 <= a < sa.len() ==> #[trigger] next[sa[a] as int] == a),
    ensures
        is_suffix_array(data, sa),
{
    assert forall|a: int, b: int| 0 <= a < b < sa.len() implies lex_less(
        data.skip(#[trigger] sa[a] as int),
        data.skip(#[trigger] sa[b] as int),
    ) by {
        let (i, j) = (sa[a] as int, sa[b] as int);
        assert(sa[a] != sa[b]);
        if k >= data.len() {
            assert(head(data, i, k) =~= data.skip(i));
            assert(head(data, j, k) =~= data.skip(j));
            assert(data.skip(i).len() != data.skip(j).len());
            lemma_lex_total(data.skip(i), data.skip(j));
        } else {
            assert(next[i] < next[j]);
            let l = k + data.len();
            lemma_longer_heads(data, i, j, k, l);
            assert(head(data, i, l) =~= data.skip(i));
            assert(head(data, j, l) =~= data.skip(j));
        }
    }
}

/// Returns the ranks of the places by their first byte.
fn first_ranks(data: &[u8]) -> (rank: Vec<usize>)
    ensures
        ranks_heads(data@, rank@, 1),
{
    let mut rank: Vec<usize> = Vec::new();
    let mut i: usize = 0;
    while i < data.len()
        invariant
            i <= data@.len(),
            rank@.len() == i,
            forall|t: int| 0 <= t < i ==> #[trigger] rank@[t] == data@[t],
        decreases data.len() - i,
    {
        rank.push(data[i] as usize);
        i = i + 1;
    }
    proof {
        assert forall|i: int, j: int| 0 <= i < data@.len() && 0 <= j < data@.len() implies (
        #[trigger] rank@[i] < #[trigger] rank@[j] <==> lex_less(
            head(data@, i, 1),
            head(data@, j, 1),
        )) by {
            let (x, y) = (head(data@, i, 1), head(data@, j, 1));
            assert(x =~= seq![data@[i]]);
            assert(y =~= seq![data@[j]]);
            assert(x.drop_first() =~= Seq::empty());
            assert(y.drop_first() =~= Seq::empty());
            assert(!lex_less(x.drop_first(), y.drop_first()));
        }
    }
    rank
}

/// Returns the places where suffixes start, in the lexicographic order of the
/// suffixes.
pub fn build_suffix_array(data: &[u8]) -> (sa: Vec<usize>)
    ensures
        is_suffix_array(data@, sa@),
{
    let n: usize = data.len();
    let mut sa: Vec<usize> = indices_below(n);
    if n == 0 {
        return sa;
    }
    let mut rank: Vec<usize> = first_ranks(data);
    let mut k: usize = 1;
    loop
        invariant
            n == data@.len(),
            1 <= k <= n,
            is_permutation(sa@, n as nat),
            ranks_heads(data@, rank@, k as nat),
        decreases n - k,
    {
        let second: Vec<usize> = second_keys(data, &rank, k);
        let ghost before = sa@;
        sa = sort_by_pair(sa.as_slice(), &rank, &second);
        proof {
            lemma_permutation(before, sa@, n as nat);
        }
        let next: Vec<usize> = rerank(&sa, &rank, &second);
        proof {
            lemma_round(data@, sa@, rank@, second@, next@, k as nat);
        }
        rank = next;
        if rank[sa[n - 1]] == n - 1 {
            proof {
                lemma_done(data@, sa@, rank@, 2 * k as nat);
            }
            return sa;
        }
        if k >= n - k {
            proof {
                lemma_done(data@, sa@, rank@, 2 * k as nat);
            }
            return sa;
        }
        k = k * 2;
    }
}

/// How many bytes two sequences have in common at their beginning.
pub open spec fn common(s: Seq<u8>, t: Seq<u8>) -> nat
    decreases s.len(),
{
    if s.len() == 0 || t.len() == 0 || s[0] != t[0] {
        0
    } else {
        1 + common(s.drop_first(), t.drop_first())
    }
}

/// The common beginning is what a walk finds that stops at the first
/// difference.
pub proof fn lemma_common_at(s: Seq<u8>, t: Seq<u8>, n: nat)
    requires
        n <= s.len(),
        n <= t.len(),
        forall|i: int| 0 <= i < n ==> s[i] == t[i],
    ensures
        n == s.len() || n == t.len() || s[n as int] != t[n as int] ==> common(s, t) == n,
        common(s, t) >= n,
    decreases n,
{
    if n > 0 {
        assert forall|i: int| 0 <= i < n - 1 implies s.drop_first()[i] == t.drop_first()[i] by {
            assert(s[i + 1] == t[i + 1]);
        }
        lemma_common_at(s.drop_first(), t.drop_first(), (n - 1) as nat);
    }
}

pub proof fn lemma_common(s: Seq<u8>, t: Seq<u8>)
    ensures
        common(s, t) <= s.len(),
        common(s, t) <= t.len(),
        forall|i: int| 0 <= i < common(s, t) ==> s[i] == t[i],
    decreases s.len(),
{
    if !(s.len() == 0 || t.len() == 0 || s[0] != t[0]) {
        lemma_common(s.drop_first(), t.drop_first());
        assert forall|i: int| 0 <= i < common(s, t) implies s[i] == t[i] by {
            if i > 0 {
                assert(s.drop_first()[i - 1] == t.drop_first()[i - 1]);
            }
        }
    }
}

/// Of two smaller sequences, the larger has at least as much in common with a
/// third.
proof fn lemma_common_between(s: Seq<u8>, t: Seq<u8>, u: Seq<u8>)
    requires
        s == t || lex_less(s, t),
        lex_less(t, u),
    ensures
        common(t, u) >= common(s, u),
    decreases s.len(),
{
    if s != t && common(s, u) > 0 {
        lemma_common_between(s.drop_first(), t.drop_first(), u.drop_first());
    }
}

/// What the list of common lengths holds at each place: how much the suffix
/// there has in common with the one before it.
pub open spec fn common_with_previous(data: Seq<u8>, sa: Seq<usize>, r: int) -> nat {
    if r == 0 {
        0
    } else {
        common(data.skip(sa[r - 1] as int), data.skip(sa[r] as int))
    }
}

/// A smaller suffix that has `h` bytes in common with the suffix at `i` makes
/// the one just before it have at least as many.
proof fn lemma_previous_has_as_much(
    data: Seq<u8>,
    sa: Seq<usize>,
    rank: Seq<usize>,
    i: int,
    j: int,
    h: nat,
)
    requires
        is_suffix_array(data, sa),
        rank.len() == sa.len(),
        forall|x: int| 0 <= x < sa.len() ==> #[trigger] rank[x] < sa.len() && sa[rank[x] as int] == x,
        0 <= i < data.len(),
        0 <= j < data.len(),
        lex_less(data.skip(j), data.skip(i)),
        common(data.skip(j), data.skip(i)) >= h,
    ensures
        rank[i] > 0,
        common(data.skip(sa[rank[i] - 1] as int), data.skip(i)) >= h,
{
    let (a, b) = (rank[j] as int, rank[i] as int);
    assert(sa[a] == j && sa[b] == i);
    lemma_lex_total(data.skip(j), data.skip(i));
    if a >= b {
        if a > b {
            assert(lex_less(data.skip(sa[b] as int), data.skip(sa[a] as int)));
        }
        assert(false);
    }
    let p = sa[b - 1] as int;
    assert(lex_less(data.skip(sa[b - 1] as int), data.skip(sa[b] as int)));
    if a < b - 1 {
        assert(lex_less(data.skip(sa[a] as int), data.skip(sa[b - 1] as int)));
    }
    lemma_common_between(data.skip(j), data.skip(p), data.skip(i));
}

/// Returns, for each place of the suffix array, how much the suffix there has
/// in common with the one before it.
pub fn build_lcp_array(data: &[u8], sa: &Vec<usize>) -> (lcp: Vec<usize>)
    requires
        is_suffix_array(data@, sa@),
    ensures
        lcp@.len() == data@.len(),
        forall|r: int|
            0 <= r < data@.len() ==> #[trigger] lcp@[r] == common_with_previous(data@, sa@, r),
{
    let n: usize = data.len();
    let mut rank: Vec<usize> = vec![0usize;n];
    let mut p: usize = 0;
    while p < n
        invariant
            n == data@.len(),
            p <= n,
            is_suffix_array(data@, sa@),
            rank@.len() == n,
            forall|q: int| 0 <= q < p ==> rank@[#[trigger] sa@[q] as int] == q,
        decreases n - p,
    {
        let ghost before = rank@;
        rank[sa[p]] = p;
        assert forall|q: int| 0 <= q < p + 1 implies rank@[#[trigger] sa@[q] as int] == q by {
            if q < p {
                assert(sa@[q] != sa@[p as int]);
                assert(before[sa@[q] as int] == q);
            }
        }
        p = p + 1;
    }
    proof {
        assert forall|x: int| 0 <= x < n implies #[trigger] rank@[x] < n && sa@[rank@[x] as int]
            == x by {
            assert(sa@.contains(x as usize));
            let q = choose|q: int| 0 <= q < sa@.len() && sa@[q] == x as usize;
            assert(rank@[sa@[q] as int] == q);
        }
    }
    let mut lcp: Vec<usize> = vec![0usize;n];
    let mut h: usize = 0;
    let mut i: usize = 0;
    while i < n
        invariant
            n == data@.len(),
            n == data.len(),
            i <= n,
            is_suffix_array(data@, sa@),
            rank@.len() == n,
            forall|x: int|
                0 <= x < n ==> #[trigger] rank@[x] < n && sa@[rank@[x] as int] == x,
            lcp@.len() == n,
            forall|r: int|
                0 <= r < n && sa@[r] < i ==> #[trigger] lcp@[r] == common_with_previous(
                    data@,
                    sa@,
                    r,
                ),
            forall|r: int| 0 <= r < n && sa@[r] >= i ==> #[trigger] lcp@[r] == 0,
            h > 0 && i < n ==> exists|j: int|
                0 <= j < n && #[trigger] lex_less(data@.skip(j), data@.skip(i as int)) && common(
                    data@.skip(j),
                    data@.skip(i as int),
                ) >= h,
            h <= n,
        decreases n - i,
    {
        let ghost before = lcp@;
        let ghost me = data@.skip(i as int);
        if rank[i] > 0 {
            let j: usize = sa[rank[i] - 1];
            let ghost other = data@.skip(j as int);
            proof {
                if h > 0 {
                    let w = choose|w: int|
                        0 <= w < n && #[trigger] lex_less(data@.skip(w), data@.skip(i as int))
                            && common(data@.skip(w), data@.skip(i as int)) >= h;
                    lemma_previous_has_as_much(data@, sa@, rank@, i as int, w, h as nat);
                }
                lemma_common(other, me);
            }
            assert(i + h <= n && j + h <= n);
            while h < n - i && h < n - j && data[i + h] == data[j + h]
                invariant
                    n == data@.len(),
                    n == data.len(),
                    i + h <= n,
                    j + h <= n,
                    me == data@.skip(i as int),
                    other == data@.skip(j as int),
                    forall|t: int| 0 <= t < h ==> #[trigger] other[t] == me[t],
                decreases n - i - h,
            {
                h = h + 1;
            }
            proof {
                lemma_common_at(other, me, h as nat);
                assert(sa@[rank@[i as int] as int] == i);
                assert(common(other, me) == h);
            }
            let ghost length = h as nat;
            lcp[rank[i]] = h;
            if h > 0 {
                h = h - 1;
            }
            proof {
                if h > 0 && i + 1 < n {
                    assert(lex_less(
                        data@.skip(sa@[rank@[i as int] - 1] as int),
                        data@.skip(sa@[rank@[i as int] as int] as int),
                    ));
                    assert(other.drop_first() =~= data@.skip(j + 1));
                    assert(me.drop_first() =~= data@.skip(i + 1));
                    lemma_common(other, me);
                    assert(lex_less(data@.skip(j + 1), data@.skip(i + 1)));
                }
            }
        } else {
            proof {
                if h > 0 {
                    let w = choose|w: int|
                        0 <= w < n && #[trigger] lex_less(data@.skip(w), data@.skip(i as int))
                            && common(data@.skip(w), data@.skip(i as int)) >= h;
                    lemma_previous_has_as_much(data@, sa@, rank@, i as int, w, h as nat);
                }
                assert(sa@[0] == i);
            }
        }
        proof {
            assert forall|r: int| 0 <= r < n && sa@[r] < i + 1 implies #[trigger] lcp@[r]
                == common_with_previous(data@, sa@, r) by {
                if sa@[r] == i {
                    assert(sa@[rank@[i as int] as int] == i);
                    assert(r == rank@[i as int]);
                } else {
                    assert(before[r] == common_with_previous(data@, sa@, r));
                }
            }
        }
        i = i + 1;
    }
    lcp
}

/// What the block of `len` bytes at `p` offers as a macro: the stated gain, if it
/// has a length that is searched for, occurs twice or more without overlap, and
/// may become one, else nothing.
pub open spec fn long_offer(data: Seq<u8>, len: nat, p: int, on: Terms) -> int {
    let pat = window(data, p, len);
    if SA_MIN_PAT_LEN <= len <= SA_MAX_PAT_LEN && 0 <= p < window_total(data, len) && occurrences(
        data,
        pat,
        0,
    ) >= MIN_MACRO_OCCUR && on.allow(pat) {
        macro_gain(len, occurrences(data, pat, 0), on.id)
    } else {
        0
    }
}

/// The block comes before another one: it is longer, or as long and smaller.
pub open spec fn comes_before(a: Seq<u8>, b: Seq<u8>) -> bool {
    a.len() > b.len() || (a.len() == b.len() && lex_less(a, b))
}

/// The block stands at `p` and occurs `occur` times, and every block that comes
/// before it offers less.
pub open spec fn is_first_long(
    data: Seq<u8>,
    p: int,
    pat: Seq<u8>,
    occur: nat,
    on: Terms,
) -> bool {
    &&& 0 <= p < window_total(data, pat.len())
    &&& pat == window(data, p, pat.len())
    &&& occur == occurrences(data, pat, 0)
    &&& long_offer(data, pat.len(), p, on) == macro_gain(pat.len(), occur, on.id)
    &&& forall|len: nat, q: int|
        0 <= q < window_total(data, len) && comes_before(window(data, q, len), pat)
            ==> #[trigger] long_offer(data, len, q, on) < macro_gain(pat.len(), occur, on.id)
}

/// A longest run of places from `s` up to `e` whose suffixes begin with the same
/// `len` bytes.
spec fn is_run(data: Seq<u8>, sa: Seq<usize>, len: nat, s: int, e: int) -> bool {
    &&& 0 <= s < e <= sa.len()
    &&& forall|r: int| s < r < e ==> #[trigger] common_with_previous(data, sa, r) >= len
    &&& common_with_previous(data, sa, s) < len
    &&& e < sa.len() ==> common_with_previous(data, sa, e) < len
}

/// What suffixes have in common is a window of both.
proof fn lemma_common_window(data: Seq<u8>, p: int, q: int, len: nat)
    requires
        0 <= p <= data.len(),
        0 <= q <= data.len(),
    ensures
        common(data.skip(p), data.skip(q)) >= len <==> p + len <= data.len() && q + len
            <= data.len() && window(data, p, len) == window(data, q, len),
{
    let (a, b) = (data.skip(p), data.skip(q));
    lemma_common(a, b);
    if common(a, b) >= len {
        assert forall|j: int| 0 <= j < len implies window(data, p, len)[j] == window(
            data,
            q,
            len,
        )[j] by {
            assert(a[j] == b[j]);
        }
        assert(window(data, p, len) =~= window(data, q, len));
    }
    if p + len <= data.len() && q + len <= data.len() && window(data, p, len) == window(
        data,
        q,
        len,
    ) {
        assert forall|j: int| 0 <= j < len implies a[j] == b[j] by {
            assert(window(data, p, len)[j] == window(data, q, len)[j]);
        }
        lemma_common_at(a, b, len);
    }
}

/// All suffixes of a run begin with the same block.
proof fn lemma_run_block(data: Seq<u8>, sa: Seq<usize>, len: nat, s: int, e: int, r: int)
    requires
        is_suffix_array(data, sa),
        is_run(data, sa, len, s, e),
        sa[s] + len <= data.len(),
        s <= r < e,
    ensures
        sa[r] + len <= data.len(),
        window(data, sa[r] as int, len) == window(data, sa[s] as int, len),
    decreases r - s,
{
    if r > s {
        lemma_run_block(data, sa, len, s, e, r - 1);
        assert(common_with_previous(data, sa, r) >= len);
        lemma_common_window(data, sa[r - 1] as int, sa[r] as int, len);
    }
}

/// Suffixes that begin with the same block have all those between them begin with
/// it too.
proof fn lemma_between(data: Seq<u8>, sa: Seq<usize>, len: nat, a: int, b: int)
    requires
        is_suffix_array(data, sa),
        0 <= a < b < sa.len(),
        sa[a] + len <= data.len(),
        sa[b] + len <= data.len(),
        window(data, sa[a] as int, len) == window(data, sa[b] as int, len),
    ensures
        common_with_previous(data, sa, a + 1) >= len,
        common_with_previous(data, sa, b) >= len,
    decreases b - a,
{
    let (x, y, z) = (
        data.skip(sa[a] as int),
        data.skip(sa[b - 1] as int),
        data.skip(sa[b] as int),
    );
    lemma_common_window(data, sa[a] as int, sa[b] as int, len);
    assert(lex_less(y, z));
    if a < b - 1 {
        assert(lex_less(x, y));
        lemma_common_between(x, y, z);
        lemma_common_window(data, sa[b - 1] as int, sa[b] as int, len);
        lemma_between(data, sa, len, a, b - 1);
    }
}

/// The block of a run is found nowhere else.
proof fn lemma_run_has_all(
    data: Seq<u8>,
    sa: Seq<usize>,
    len: nat,
    s: int,
    e: int,
    p: int,
) -> (r: int)
    requires
        data.len() <= usize::MAX,
        is_suffix_array(data, sa),
        is_run(data, sa, len, s, e),
        sa[s] + len <= data.len(),
        len > 0,
        0 <= p,
        p + len <= data.len(),
        window(data, p, len) == window(data, sa[s] as int, len),
    ensures
        s <= r < e,
        sa[r] == p,
{
    assert(sa.contains(p as usize));
    let r = choose|r: int| 0 <= r < sa.len() && sa[r] == p as usize;
    if r < s {
        lemma_between(data, sa, len, r, s);
    }
    if r >= e {
        lemma_run_block(data, sa, len, s, e, e - 1);
        lemma_between(data, sa, len, e - 1, r);
    }
    r
}

/// How many of the places from `s` up to `e` hold a number below `k`.
spec fn ranked(sa: Seq<usize>, s: int, e: int, k: nat) -> nat
    decreases e - s,
{
    if e <= s {
        0
    } else {
        ranked(sa, s, e - 1, k) + if sa[e - 1] < k {
            1nat
        } else {
            0
        }
    }
}

proof fn lemma_ranked(sa: Seq<usize>, s: int, e: int, k: nat, r: int)
    ensures
        ranked(sa, s, e, k) <= ranked(sa, s, e, k + 1),
        s <= r < e && sa[r] == k ==> ranked(sa, s, e, k) < ranked(sa, s, e, k + 1),
        s <= e ==> ranked(sa, s, e, k) <= e - s,
    decreases e - s,
{
    if s < e {
        lemma_ranked(sa, s, e - 1, k, r);
    }
}

/// The block of a run occurs no more often than the run has places.
proof fn lemma_run_count(data: Seq<u8>, sa: Seq<usize>, len: nat, s: int, e: int, k: nat)
    requires
        data.len() <= usize::MAX,
        is_suffix_array(data, sa),
        is_run(data, sa, len, s, e),
        sa[s] + len <= data.len(),
        len > 0,
        k <= window_total(data, len),
    ensures
        window_count(data, len, window(data, sa[s] as int, len), k) <= ranked(sa, s, e, k),
    decreases k,
{
    if k > 0 {
        let j = (k - 1) as nat;
        lemma_run_count(data, sa, len, s, e, j);
        if window(data, j as int, len) == window(data, sa[s] as int, len) {
            let r = lemma_run_has_all(data, sa, len, s, e, j as int);
            lemma_ranked(sa, s, e, j, r);
        } else {
            lemma_ranked(sa, s, e, j, s);
        }
    }
}

/// The block of a run occurs without overlap no more often than the run has
/// places.
proof fn lemma_run_occurrences(data: Seq<u8>, sa: Seq<usize>, len: nat, s: int, e: int)
    requires
        data.len() <= usize::MAX,
        is_suffix_array(data, sa),
        is_run(data, sa, len, s, e),
        sa[s] + len <= data.len(),
        len > 0,
    ensures
        occurrences(data, window(data, sa[s] as int, len), 0) <= e - s,
{
    let pat = window(data, sa[s] as int, len);
    let total = window_total(data, len);
    assert(pat.len() == len);
    lemma_occurrences_counted(data, pat, 0);
    lemma_run_count(data, sa, len, s, e, total);
    lemma_ranked(sa, s, e, total, s);
}

/// A block that is smaller than that of a place stands at an earlier place.
proof fn lemma_smaller_is_earlier(
    data: Seq<u8>,
    sa: Seq<usize>,
    len: nat,
    s: int,
    p: int,
) -> (r: int)
    requires
        data.len() <= usize::MAX,
        is_suffix_array(data, sa),
        0 <= s < sa.len(),
        sa[s] + len <= data.len(),
        0 <= p < data.len(),
        p + len <= data.len(),
        lex_less(window(data, p, len), window(data, sa[s] as int, len)),
    ensures
        0 <= r < s,
        sa[r] == p,
{
    assert(sa.contains(p as usize));
    let r = choose|r: int| 0 <= r < sa.len() && sa[r] == p as usize;
    let (v, w) = (window(data, p, len), window(data, sa[s] as int, len));
    let (x, y) = (data.skip(p), data.skip(sa[s] as int));
    let n = lemma_lex_witness(v, w);
    assert(n < v.len());
    assert forall|j: int| 0 <= j < n implies x[j] == y[j] by {
        assert(v[j] == w[j]);
    }
    assert(x[n as int] == v[n as int] && y[n as int] == w[n as int]);
    lemma_lex_at(x, y, n);
    lemma_lex_total(x, y);
    if r >= s {
        if r > s {
            assert(lex_less(data.skip(sa[s] as int), data.skip(sa[r] as int)));
        }
        assert(false);
    }
    r
}

/// More occurrences gain more.
proof fn lemma_gain_grows(len: nat, a: nat, b: nat, id: u32)
    requires
        a <= b,
        len >= SA_MIN_PAT_LEN,
    ensures
        macro_gain(len, a, id) <= macro_gain(len, b, id),
{
    let lit = 1 + leb_size(lo32(len)) + len;
    let call = 1 + leb_size(id as nat);
    lemma_leb_size(id as nat);
    assert(a * lit - a * call <= b * lit - b * call) by (nonlinear_arith)
        requires
            a <= b,
            call <= lit,
    ;
}

/// What was found so far is the first of the blocks that offer as much.
spec fn is_kept(data: Seq<u8>, on: Terms, found: Option<Found>) -> bool {
    found matches Some(f) ==> {
        &&& f.gain > 0
        &&& f.gain == macro_gain(f.pattern@.len(), f.occur as nat, on.id)
        &&& SA_MIN_PAT_LEN <= f.pattern@.len() <= SA_MAX_PAT_LEN
        &&& exists|p: int| #[trigger] is_first_long(data, p, f.pattern@, f.occur as nat, on)
    }
}

proof fn lemma_kept(data: Seq<u8>, on: Terms, p: int, found: Option<Found>)
    requires
        found matches Some(f) && {
            &&& f.gain > 0
            &&& f.gain == macro_gain(f.pattern@.len(), f.occur as nat, on.id)
            &&& SA_MIN_PAT_LEN <= f.pattern@.len() <= SA_MAX_PAT_LEN
            &&& is_first_long(data, p, f.pattern@, f.occur as nat, on)
        },
    ensures
        is_kept(data, on, found),
{
}

/// All blocks that are longer than `len` bytes are covered.
spec fn longer_covered(data: Seq<u8>, on: Terms, len: nat, found: Option<Found>) -> bool {
    forall|l: nat, p: int| l > len ==> covers(found, #[trigger] long_offer(data, l, p, on))
}

/// The blocks of `len` bytes at the first `k` places of the array are covered.
spec fn places_covered(
    data: Seq<u8>,
    sa: Seq<usize>,
    on: Terms,
    len: nat,
    k: int,
    found: Option<Found>,
) -> bool {
    forall|r: int|
        0 <= r < k ==> covers(found, long_offer(data, len, #[trigger] sa[r] as int, on))
}

/// A block that beats all before it is the first to offer as much.
proof fn lemma_run_is_first(
    data: Seq<u8>,
    sa: Seq<usize>,
    len: nat,
    s: int,
    occur: nat,
    gain: int,
    on: Terms,
    best: Option<Found>,
)
    requires
        data.len() <= usize::MAX,
        is_suffix_array(data, sa),
        SA_MIN_PAT_LEN <= len <= SA_MAX_PAT_LEN,
        0 <= s < sa.len(),
        sa[s] + len <= data.len(),
        occur == occurrences(data, window(data, sa[s] as int, len), 0),
        occur >= MIN_MACRO_OCCUR,
        on.allow(window(data, sa[s] as int, len)),
        gain == macro_gain(len, occur, on.id),
        gain > 0,
        best matches Some(f) ==> f.gain < gain,
        longer_covered(data, on, len, best),
        places_covered(data, sa, on, len, s, best),
    ensures
        is_first_long(data, sa[s] as int, window(data, sa[s] as int, len), occur, on),
{
    let pat = window(data, sa[s] as int, len);
    assert(pat.len() == len);
    assert forall|m: nat, q: int|
        0 <= q < window_total(data, m) && comes_before(window(data, q, m), pat)
        implies #[trigger] long_offer(data, m, q, on) < gain by {
        assert(window(data, q, m).len() == m);
        if m > len {
            assert(covers(best, long_offer(data, m, q, on)));
        } else {
            assert(m == len);
            let r = lemma_smaller_is_earlier(data, sa, len, s, q);
            assert(covers(best, long_offer(data, len, sa[r] as int, on)));
        }
    }
}

/// Holds the block of a run against the best block so far.
#[verifier::spinoff_prover]
fn try_run(
    data: &[u8],
    sa: &Vec<usize>,
    len: usize,
    s: usize,
    e: usize,
    id: u32,
    program: Option<&Vec<SynthToken>>,
    best: Option<Found>,
) -> (found: Option<Found>)
    requires
        is_suffix_array(data@, sa@),
        SA_MIN_PAT_LEN <= len <= SA_MAX_PAT_LEN,
        is_run(data@, sa@, len as nat, s as int, e as int),
        is_kept(data@, terms_of(id, program), best),
        longer_covered(data@, terms_of(id, program), len as nat, best),
        places_covered(data@, sa@, terms_of(id, program), len as nat, s as int, best),
    ensures
        is_kept(data@, terms_of(id, program), found),
        longer_covered(data@, terms_of(id, program), len as nat, found),
        places_covered(data@, sa@, terms_of(id, program), len as nat, e as int, found),
{
    let ghost on = terms_of(id, program);
    let from: usize = sa[s];
    let ghost l = len as nat;
    let ghost pat = window(data@, from as int, l);
    assert(from < data@.len() && data.len() <= usize::MAX);
    if len > data.len() - from {
        proof {
            if e > s + 1 {
                assert(common_with_previous(data@, sa@, s + 1) >= l);
                lemma_common_window(data@, sa@[s as int] as int, sa@[s + 1] as int, l);
            }
        }
        return best;
    }
    proof {
        lemma_run_occurrences(data@, sa@, l, s as int, e as int);
        assert forall|r: int| s <= r < e implies long_offer(data@, l, #[trigger] sa@[r] as int, on)
            == long_offer(data@, l, from as int, on) by {
            lemma_run_block(data@, sa@, l, s as int, e as int, r);
        }
        lemma_gain_grows(l, occurrences(data@, pat, 0), (e - s) as nat, id);
    }
    let size: usize = e - s;
    if size < MIN_MACRO_OCCUR {
        return best;
    }
    if size as u64 <= 0x7FFF_FFFF_FFFF_FFFFu64 {
        let bound: i128 = wide_macro_gain(len, size, id);
        let hopeless: bool = match &best {
            Some(f) => bound <= f.gain,
            None => bound <= 0,
        };
        if hopeless {
            return best;
        }
    }
    let block: Vec<u8> = copy_of(&data[from..from + len]);
    assert(block@ =~= pat);
    let occur: usize = count_nonoverlap(data, block.as_slice());
    proof {
        assert(occur <= data@.len() / 2) by (nonlinear_arith)
            requires
                occur * block@.len() <= data@.len(),
                block@.len() >= 65,
        ;
        assert(data.len() <= usize::MAX);
    }
    if occur < MIN_MACRO_OCCUR {
        return best;
    }
    let gain: i128 = wide_macro_gain(len, occur, id);
    let better: bool = match &best {
        Some(f) => gain > f.gain,
        None => gain > 0,
    };
    if !better || !allowed(block.as_slice(), id, program) {
        return best;
    }
    let found: Option<Found> = Some(Found { pattern: block, occur, gain });
    proof {
        lemma_run_is_first(data@, sa@, l, s as int, occur as nat, gain as int, on, best);
        assert(found->0.pattern@ == pat && pat.len() == l);
        lemma_kept(data@, on, from as int, found);
        assert forall|m: nat, p: int| m > l implies covers(
            found,
            #[trigger] long_offer(data@, m, p, on),
        ) by {
            assert(covers(best, long_offer(data@, m, p, on)));
        }
        assert forall|r: int| 0 <= r < e implies covers(
            found,
            long_offer(data@, l, #[trigger] sa@[r] as int, on),
        ) by {
            if r < s {
                assert(covers(best, long_offer(data@, l, sa@[r] as int, on)));
            }
        }
    }
    found
}

/// Holds the blocks of `len` bytes against the best block so far.
fn try_length(
    data: &[u8],
    sa: &Vec<usize>,
    lcp: &Vec<usize>,
    len: usize,
    id: u32,
    program: Option<&Vec<SynthToken>>,
    best: Option<Found>,
) -> (found: Option<Found>)
    requires
        is_suffix_array(data@, sa@),
        lcp@.len() == sa@.len(),
        forall|r: int|
            0 <= r < sa@.len() ==> #[trigger] lcp@[r] == common_with_previous(data@, sa@, r),
        SA_MIN_PAT_LEN <= len <= SA_MAX_PAT_LEN,
        is_kept(data@, terms_of(id, program), best),
        longer_covered(data@, terms_of(id, program), len as nat, best),
    ensures
        is_kept(data@, terms_of(id, program), found),
        longer_covered(data@, terms_of(id, program), (len - 1) as nat, found),
{
    let ghost on = terms_of(id, program);
    let n: usize = sa.len();
    let mut found: Option<Found> = best;
    let mut s: usize = 0;
    let mut e: usize = 1;
    while s < n
        invariant
            on == terms_of(id, program),
            n == sa@.len(),
            is_suffix_array(data@, sa@),
            lcp@.len() == n,
            forall|r: int|
                0 <= r < n ==> #[trigger] lcp@[r] == common_with_previous(data@, sa@, r),
            SA_MIN_PAT_LEN <= len <= SA_MAX_PAT_LEN,
            is_kept(data@, on, found),
            longer_covered(data@, on, len as nat, found),
            s <= n,
            s < n ==> s < e <= n && lcp@[s as int] < len,
            forall|r: int| s < r < e ==> #[trigger] common_with_previous(data@, sa@, r) >= len,
            places_covered(data@, sa@, on, len as nat, s as int, found),
        decreases n - s, n - e,
    {
        if e < n && lcp[e] >= len {
            e = e + 1;
        } else {
            assert(is_run(data@, sa@, len as nat, s as int, e as int));
            found = try_run(data, sa, len, s, e, id, program, found);
            s = e;
            if e < n {
                e = e + 1;
            }
        }
    }
    proof {
        assert forall|l: nat, p: int| l > len - 1 implies covers(
            found,
            #[trigger] long_offer(data@, l, p, on),
        ) by {
            if l == len && 0 <= p < window_total(data@, l) {
                assert(sa@.contains(p as usize));
                let r = choose|r: int| 0 <= r < sa@.len() && sa@[r] == p as usize;
                assert(covers(found, long_offer(data@, l, sa@[r] as int, on)));
            }
        }
    }
    found
}

/// Returns how much two neighbours of the array have in common at most, up to the
/// longest block.
fn longest_common(lcp: &Vec<usize>) -> (top: usize)
    ensures
        top <= SA_MAX_PAT_LEN,
        top == SA_MAX_PAT_LEN || forall|r: int| 0 <= r < lcp@.len() ==> #[trigger] lcp@[r] <= top,
{
    let mut top: usize = 0;
    let mut i: usize = 0;
    while i < lcp.len()
        invariant
            i <= lcp@.len(),
            top < SA_MAX_PAT_LEN,
            forall|r: int| 0 <= r < i ==> #[trigger] lcp@[r] <= top,
        decreases lcp.len() - i,
    {
        if lcp[i] >= SA_MAX_PAT_LEN {
            return SA_MAX_PAT_LEN;
        }
        if lcp[i] > top {
            top = lcp[i];
        }
        i = i + 1;
    }
    top
}

/// No block is repeated that is longer than what neighbours have in common.
proof fn lemma_too_long(data: Seq<u8>, sa: Seq<usize>, len: nat, p: int)
    requires
        data.len() <= usize::MAX,
        is_suffix_array(data, sa),
        len > SA_MAX_PAT_LEN || (len > 0 && forall|r: int|
            0 <= r < sa.len() ==> #[trigger] common_with_previous(data, sa, r) < len),
    ensures
        forall|on: Terms| #[trigger] long_offer(data, len, p, on) == 0,
{
    if 0 <= p < window_total(data, len) && len <= SA_MAX_PAT_LEN && len > 0 {
        assert(sa.contains(p as usize));
        let r = choose|r: int| 0 <= r < sa.len() && sa[r] == p as usize;
        assert(common_with_previous(data, sa, r) < len);
        assert(is_run(data, sa, len, r, r + 1));
        lemma_run_occurrences(data, sa, len, r, r + 1);
    }
}

/// The result is the first of the long blocks that offer most, how often it occurs
/// without overlap, and its gain, if any block offers something. The longest comes
/// first, and of those of the same length the smallest.
pub open spec fn finds_longest(
    data: Seq<u8>,
    on: Terms,
    r: Option<(Vec<u8>, usize, isize)>,
) -> bool {
    match r {
        None => forall|len: nat, p: int| #[trigger] long_offer(data, len, p, on) <= 0,
        Some((pat, occur, gain)) => {
            let g = macro_gain(pat@.len(), occur as nat, on.id);
            &&& g > 0
            &&& gain == clamped(g)
            &&& forall|len: nat, p: int| #[trigger] long_offer(data, len, p, on) <= g
            &&& exists|p: int| #[trigger] is_first_long(data, p, pat@, occur as nat, on)
        },
    }
}

/// Finds the long block whose storing as macro `next_sub_id` gains most; of those
/// that gain the same the longest, and of those the smallest. The result is the
/// block, how often it occurs without overlap, and the gain.
pub fn find_long_macro_by_sa(data: &[u8], next_sub_id: u32) -> (r: Option<
    (Vec<u8>, usize, isize),
>)
    ensures
        finds_longest(data@, freely(next_sub_id), r),
        r matches Some((pat, occur, gain)) ==> SA_MIN_PAT_LEN <= pat@.len() <= SA_MAX_PAT_LEN
            && occur >= MIN_MACRO_OCCUR,
        data@.len() < SA_MIN_PAT_LEN * MIN_MACRO_OCCUR ==> r is None,
{
    search_suffixes(data, next_sub_id, None)
}

/// Finds the long block that offers most.
pub fn search_suffixes(data: &[u8], id: u32, program: Option<&Vec<SynthToken>>) -> (r: Option<
    (Vec<u8>, usize, isize),
>)
    ensures
        finds_longest(data@, terms_of(id, program), r),
        r matches Some((pat, occur, gain)) ==> SA_MIN_PAT_LEN <= pat@.len() <= SA_MAX_PAT_LEN
            && occur >= MIN_MACRO_OCCUR,
        data@.len() < SA_MIN_PAT_LEN * MIN_MACRO_OCCUR ==> r is None,
{
    let ghost on = terms_of(id, program);
    let mut best: Option<Found> = None;
    if data.len() >= SA_MIN_PAT_LEN * MIN_MACRO_OCCUR {
        let sa: Vec<usize> = build_suffix_array(data);
        let lcp: Vec<usize> = build_lcp_array(data, &sa);
        let mut len: usize = longest_common(&lcp);
        assert(data.len() <= usize::MAX);
        proof {
            assert forall|l: nat, p: int| l > len implies covers(
                best,
                #[trigger] long_offer(data@, l, p, on),
            ) by {
                assert forall|r: int| 0 <= r < sa@.len() && l <= SA_MAX_PAT_LEN
                    implies #[trigger] common_with_previous(data@, sa@, r) < l by {
                    assert(lcp@[r] <= len);
                }
                lemma_too_long(data@, sa@, l, p);
            }
        }
        while len >= SA_MIN_PAT_LEN
            invariant
                on == terms_of(id, program),
                len <= SA_MAX_PAT_LEN,
                is_suffix_array(data@, sa@),
                lcp@.len() == sa@.len(),
                forall|r: int|
                    0 <= r < sa@.len() ==> #[trigger] lcp@[r] == common_with_previous(
                        data@,
                        sa@,
                        r,
                    ),
                is_kept(data@, on, best),
                longer_covered(data@, on, len as nat, best),
            decreases len,
        {
            best = try_length(data, &sa, &lcp, len, id, program, best);
            len = len - 1;
        }
    } else {
        proof {
            assert forall|l: nat, p: int| covers(
                best,
                #[trigger] long_offer(data@, l, p, on),
            ) by {
                if SA_MIN_PAT_LEN <= l && 0 <= p < window_total(data@, l) {
                    let w = window(data@, p, l);
                    lemma_occurrences_bound(data@, w, 0);
                    let m = occurrences(data@, w, 0);
                    assert(m < 2) by (nonlinear_arith)
                        requires
                            m * w.len() < 130,
                            w.len() >= 65,
                    ;
                }
            }
        }
    }
    proof {
        assert forall|l: nat, p: int| covers(
            best,
            #[trigger] long_offer(data@, l, p, on),
        ) by {}
    }
    match best {
        None => None,
        Some(f) => {
            let gain: isize = clamp(f.gain);
            Some((f.pattern, f.occur, gain))
        },
    }
}

} // verus!
