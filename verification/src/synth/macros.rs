//! Blocks that recur inside literals, to be stored once as macros.

use std::collections::HashMap;
use vstd::prelude::*;
use crate::bytes::{copy_of, same};
use crate::leb::leb_size;
use crate::machine::{step, Env, State, MAX_OUTPUT_BYTES};
use crate::synth::loops::{clamp, clamped};
use crate::synth::draft::with_marks;
use crate::synth::rewrite::{literal_cost, marks_size};
use crate::synth::table::shorter;
use crate::synth::token::{
    capped, fields_of, leb_len, lemma_toks_of_push, low_bits, tok_of, tokens_size, toks_of,
    SynthToken,
};
use crate::tokens::{
    all_fit, appends, fits, instr_of, lemma_appends_concat, lemma_lit_appends,
    lemma_nothing_appends, lo32, running_code_is_running_tokens, tok_size, toks_bytes, toks_run,
    toks_size, with_output, Tok,
};

verus! {

broadcast use vstd::std_specs::hash::group_hash_axioms;

/// The shortest macro.
pub const MIN_MACRO_LEN: usize = 8;

/// The fewest occurrences of a macro.
pub const MIN_MACRO_OCCUR: usize = 2;

/// The longest macro that the rolling-hash search finds.
pub const MAX_MACRO_LEN: usize = 64;

/// The `len` bytes from `p` on.
pub open spec fn window(data: Seq<u8>, p: int, len: nat) -> Seq<u8> {
    data.subrange(p, p + len)
}

/// The number of occurrences of `pat` from `i` on that a walk from left to
/// right counts when it steps over each one that it meets.
pub open spec fn occurrences(data: Seq<u8>, pat: Seq<u8>, i: int) -> nat
    decreases data.len() - i,
{
    if i < 0 || pat.len() == 0 || i + pat.len() > data.len() {
        0
    } else if window(data, i, pat.len()) == pat {
        1 + occurrences(data, pat, i + pat.len())
    } else {
        occurrences(data, pat, i + 1)
    }
}

/// The first place from `from` on where `pat` stands. An empty block stands
/// nowhere.
pub open spec fn first_from(data: Seq<u8>, pat: Seq<u8>, from: int) -> Option<int>
    decreases data.len() - from,
{
    if from < 0 || pat.len() == 0 || from + pat.len() > data.len() {
        None
    } else if window(data, from, pat.len()) == pat {
        Some(from)
    } else {
        first_from(data, pat, from + 1)
    }
}

/// Returns the number of occurrences of `pattern` that do not overlap, counted
/// from left to right.
pub fn count_nonoverlap(data: &[u8], pattern: &[u8]) -> (n: usize)
    requires
        pattern@.len() > 0,
    ensures
        n == occurrences(data@, pattern@, 0),
        n * pattern@.len() <= data@.len(),
{
    let plen: usize = pattern.len();
    let mut n: usize = 0;
    let mut i: usize = 0;
    while i <= data.len() && data.len() - i >= plen
        invariant
            plen == pattern@.len(),
            plen > 0,
            i <= data@.len(),
            n + occurrences(data@, pattern@, i as int) == occurrences(data@, pattern@, 0),
            n * plen <= i,
            n <= i,
        decreases data@.len() - i,
    {
        if same(&data[i..i + plen], pattern) {
            assert((n + 1) * plen == n * plen + plen) by (nonlinear_arith);
            n = n + 1;
            i = i + plen;
        } else {
            i = i + 1;
        }
    }
    n
}

/// Returns the first place from `from` on where `pattern` stands. An empty
/// pattern stands nowhere.
pub fn find_first(data: &[u8], from: usize, pattern: &[u8]) -> (r: Option<usize>)
    ensures
        match first_from(data@, pattern@, from as int) {
            Some(p) => r matches Some(q) && q == p && from <= q && q + pattern@.len()
                <= data@.len() && window(data@, p, pattern@.len()) == pattern@,
            None => r is None,
        },
{
    let plen: usize = pattern.len();
    if plen == 0 {
        return None;
    }
    let mut i: usize = from;
    while i <= data.len() && data.len() - i >= plen
        invariant
            plen == pattern@.len(),
            plen > 0,
            from <= i,
            first_from(data@, pattern@, from as int) == first_from(data@, pattern@, i as int),
        decreases data@.len() - i,
    {
        if same(&data[i..i + plen], pattern) {
            return Some(i);
        }
        i = i + 1;
    }
    None
}

/// The bytes saved by storing a block of `pat_len` bytes once, as macro `id`,
/// and calling it in place of `occur` literals.
pub open spec fn macro_gain(pat_len: nat, occur: nat, id: u32) -> int {
    let lit = 1 + leb_size(lo32(pat_len)) + pat_len;
    occur * lit - occur * (1 + leb_size(id as nat)) - (4 + lit)
}

/// Returns the bytes saved by storing a block of `pat_len` bytes once, as macro
/// `sub_id`, and calling it in place of `occur` literals.
pub fn macro_mdl_gain(pat_len: usize, occur: usize, sub_id: u32) -> (gain: isize)
    requires
        occur <= 0x7FFF_FFFF_FFFF_FFFF,
        pat_len <= 0x7FFF_FFFF_FFFF_FFFF,
    ensures
        gain == clamped(macro_gain(pat_len as nat, occur as nat, sub_id)),
{
    clamp(wide_macro_gain(pat_len, occur, sub_id))
}

/// The same as a number that is wide enough for it.
pub fn wide_macro_gain(pat_len: usize, occur: usize, sub_id: u32) -> (gain: i128)
    requires
        occur <= 0x7FFF_FFFF_FFFF_FFFF,
        pat_len <= 0x7FFF_FFFF_FFFF_FFFF,
    ensures
        gain == macro_gain(pat_len as nat, occur as nat, sub_id),
{
    let lit: i128 = 1 + leb_len(low_bits(pat_len)) as i128 + pat_len as i128;
    let call: i128 = 1 + leb_len(sub_id) as i128;
    proof {
        assert(0 <= occur * lit <= 0x7FFF_FFFF_FFFF_FFFF * 0x8000_0000_0000_000F)
            by (nonlinear_arith)
            requires
                0 <= occur <= 0x7FFF_FFFF_FFFF_FFFF,
                0 <= lit <= 0x8000_0000_0000_000F,
        ;
        assert(0 <= occur * call <= 0x7FFF_FFFF_FFFF_FFFF * 6) by (nonlinear_arith)
            requires
                0 <= occur <= 0x7FFF_FFFF_FFFF_FFFF,
                0 <= call <= 6,
        ;
    }
    occur as i128 * lit - occur as i128 * call - (4 + lit)
}

/// The base of the rolling hash.
pub const HASH_BASE: u64 = 131;

/// The powers of the base.
pub open spec fn base_power(k: nat) -> int
    decreases k,
{
    if k == 0 {
        1
    } else {
        base_power((k - 1) as nat) * 131
    }
}

/// The number that `len` bytes from `p` on spell in the base of the hash.
pub open spec fn spelled(data: Seq<u8>, p: int, len: nat) -> int
    decreases len,
{
    if len == 0 {
        0
    } else {
        spelled(data, p, (len - 1) as nat) * 131 + data[p + len - 1]
    }
}

/// The hash of `len` bytes from `p` on.
pub open spec fn rolling_hash(data: Seq<u8>, p: int, len: nat) -> u64 {
    (spelled(data, p, len) % 0x1_0000_0000_0000_0000) as u64
}

/// The hashes of all windows of `len` bytes.
pub open spec fn window_hashes(data: Seq<u8>, len: nat) -> Seq<u64> {
    Seq::new((data.len() - len + 1) as nat, |p: int| rolling_hash(data, p, len))
}

/// How many of the first `k` hashes are `h`.
pub open spec fn hash_count(hs: Seq<u64>, h: u64, k: nat) -> nat
    decreases k,
{
    if k == 0 {
        0
    } else {
        hash_count(hs, h, (k - 1) as nat) + if hs[k - 1] == h {
            1nat
        } else {
            0
        }
    }
}

/// At how many of the first `k` places the window of `len` bytes is `w`.
pub open spec fn window_count(data: Seq<u8>, len: nat, w: Seq<u8>, k: nat) -> nat
    decreases k,
{
    if k == 0 {
        0
    } else {
        window_count(data, len, w, (k - 1) as nat) + if window(data, k - 1, len) == w {
            1nat
        } else {
            0
        }
    }
}

/// How many windows of `len` bytes there are.
pub open spec fn window_total(data: Seq<u8>, len: nat) -> nat {
    if len <= data.len() {
        (data.len() - len + 1) as nat
    } else {
        0
    }
}

/// The window at `p` is the first of its kind, and at least `min_occur` windows
/// are the same.
pub open spec fn is_candidate(data: Seq<u8>, len: nat, p: int, min_occur: nat) -> bool {
    &&& 0 <= p < window_total(data, len)
    &&& is_first(data, len, p)
    &&& window_count(data, len, window(data, p, len), window_total(data, len)) >= min_occur
}

/// No window before `p` is the same as the one at `p`.
pub open spec fn is_first(data: Seq<u8>, len: nat, p: int) -> bool {
    forall|q: int| 0 <= q < p ==> #[trigger] window(data, q, len) != window(data, p, len)
}

/// The candidates among the first `k` windows.
pub open spec fn candidates(data: Seq<u8>, len: nat, min_occur: nat, k: nat) -> Seq<Seq<u8>>
    decreases k,
{
    if k == 0 {
        Seq::empty()
    } else {
        let before = candidates(data, len, min_occur, (k - 1) as nat);
        if is_candidate(data, len, k - 1, min_occur) {
            before.push(window(data, k - 1, len))
        } else {
            before
        }
    }
}

/// The same windows spell the same number.
proof fn lemma_same_spelled(data: Seq<u8>, p: int, q: int, len: nat)
    requires
        forall|j: int| 0 <= j < len ==> data[p + j] == #[trigger] data[q + j],
    ensures
        spelled(data, p, len) == spelled(data, q, len),
    decreases len,
{
    if len > 0 {
        lemma_same_spelled(data, p, q, (len - 1) as nat);
        assert(data[p + (len - 1)] == data[q + (len - 1)]);
    }
}

/// The same windows have the same hash.
proof fn lemma_same_hash(data: Seq<u8>, p: int, q: int, len: nat)
    requires
        0 <= p < window_total(data, len),
        0 <= q < window_total(data, len),
        window(data, p, len) == window(data, q, len),
    ensures
        window_hashes(data, len)[p] == window_hashes(data, len)[q],
{
    assert forall|j: int| 0 <= j < len implies data[p + j] == #[trigger] data[q + j] by {
        assert(data.subrange(p, p + len)[j] == data[p + j]);
        assert(data.subrange(q, q + len)[j] == data[q + j]);
    }
    lemma_same_spelled(data, p, q, len);
}

/// A window occurs no more often than its hash.
proof fn lemma_window_hash_count(data: Seq<u8>, len: nat, p: int, k: nat)
    requires
        0 <= p < window_total(data, len),
        k <= window_total(data, len),
    ensures
        window_count(data, len, window(data, p, len), k) <= hash_count(
            window_hashes(data, len),
            window_hashes(data, len)[p],
            k,
        ),
    decreases k,
{
    if k > 0 {
        lemma_window_hash_count(data, len, p, (k - 1) as nat);
        if window(data, k - 1, len) == window(data, p, len) {
            lemma_same_hash(data, k - 1, p, len);
        }
    }
}

/// What stands at no place is counted nowhere.
proof fn lemma_window_absent(data: Seq<u8>, len: nat, w: Seq<u8>, k: nat)
    requires
        forall|q: int| 0 <= q < k ==> #[trigger] window(data, q, len) != w,
    ensures
        window_count(data, len, w, k) == 0,
    decreases k,
{
    if k > 0 {
        lemma_window_absent(data, len, w, (k - 1) as nat);
    }
}

/// Counts only grow.
proof fn lemma_window_count(data: Seq<u8>, len: nat, w: Seq<u8>, j: nat, k: nat)
    requires
        j <= k,
    ensures
        window_count(data, len, w, j) <= window_count(data, len, w, k) <= k,
    decreases k,
{
    if j < k {
        lemma_window_count(data, len, w, j, (k - 1) as nat);
    } else if k > 0 {
        lemma_window_count(data, len, w, (j - 1) as nat, (k - 1) as nat);
    }
}

/// Occurrences that do not overlap are windows.
pub proof fn lemma_occurrences_counted(data: Seq<u8>, pat: Seq<u8>, i: int)
    requires
        0 <= i,
        pat.len() > 0,
        i <= window_total(data, pat.len()),
    ensures
        occurrences(data, pat, i) + window_count(data, pat.len(), pat, i as nat) <= window_count(
            data,
            pat.len(),
            pat,
            window_total(data, pat.len()),
        ),
    decreases data.len() - i,
{
    let len = pat.len();
    let total = window_total(data, len);
    lemma_window_count(data, len, pat, i as nat, total);
    if i + len <= data.len() {
        if window(data, i, len) == pat {
            lemma_window_count(data, len, pat, (i + 1) as nat, total);
            if i + len <= total {
                lemma_window_count(data, len, pat, (i + 1) as nat, (i + len) as nat);
                lemma_occurrences_counted(data, pat, i + len);
            } else {
                assert(occurrences(data, pat, i + len) == 0);
            }
            assert(window_count(data, len, pat, (i + 1) as nat) == window_count(
                data,
                len,
                pat,
                i as nat,
            ) + 1);
        } else {
            lemma_occurrences_counted(data, pat, i + 1);
        }
    }
}

/// Every window has a first place.
pub proof fn lemma_first_place(data: Seq<u8>, len: nat, p: int) -> (q: int)
    requires
        0 <= p,
    ensures
        0 <= q <= p,
        window(data, q, len) == window(data, p, len),
        is_first(data, len, q),
    decreases p,
{
    if is_first(data, len, p) {
        p
    } else {
        let q = choose|q: int| 0 <= q < p && #[trigger] window(data, q, len) == window(data, p, len);
        lemma_first_place(data, len, q)
    }
}

/// Occurrences that do not overlap fit into the data.
pub proof fn lemma_occurrences_bound(data: Seq<u8>, pat: Seq<u8>, i: int)
    requires
        0 <= i <= data.len(),
    ensures
        occurrences(data, pat, i) * pat.len() <= data.len() - i,
    decreases data.len() - i,
{
    if pat.len() == 0 || i + pat.len() > data.len() {
        assert(0 * pat.len() == 0);
    } else if window(data, i, pat.len()) == pat {
        lemma_occurrences_bound(data, pat, i + pat.len());
        let m = occurrences(data, pat, i + pat.len());
        assert((1 + m) * pat.len() == pat.len() + m * pat.len()) by (nonlinear_arith);
    } else {
        lemma_occurrences_bound(data, pat, i + 1);
    }
}

/// Moving a window by one place changes what it spells as the rolling hash
/// does.
proof fn lemma_spelled_rolls(data: Seq<u8>, p: int, len: nat)
    requires
        len > 0,
    ensures
        spelled(data, p + 1, len) == (spelled(data, p, len) - data[p] * base_power(
            (len - 1) as nat,
        )) * 131 + data[p + len],
    decreases len,
{
    if len == 1 {
        assert(spelled(data, p + 1, 0) == 0);
        assert(spelled(data, p, 0) == 0);
        assert(base_power(0) == 1);
    } else {
        let k = (len - 1) as nat;
        lemma_spelled_rolls(data, p, k);
        let x = data[p] as int;
        let a = spelled(data, p, k);
        let b = base_power((k - 1) as nat);
        let y = data[p + k] as int;
        assert(base_power(k) == b * 131);
        assert(spelled(data, p, len) == a * 131 + y);
        assert(spelled(data, p + 1, len) == spelled(data, p + 1, k) * 131 + data[p + len]);
        assert((a - x * b) * 131 + y == a * 131 + y - x * (b * 131)) by (nonlinear_arith);
    }
}

/// The rolling step in 64-bit arithmetic.
proof fn lemma_roll_mod(s: int, x: u8, b: int, y: u8, h: u64, bp: u64)
    requires
        h == s % 0x1_0000_0000_0000_0000,
        bp == b % 0x1_0000_0000_0000_0000,
    ensures
        h.wrapping_sub((x as u64).wrapping_mul(bp)).wrapping_mul(131).wrapping_add(y as u64) == ((s
            - x * b) * 131 + y) % 0x1_0000_0000_0000_0000,
{
    let m = 0x1_0000_0000_0000_0000int;
    let xb = (x as u64).wrapping_mul(bp);
    vstd::arithmetic::div_mod::lemma_mul_mod_noop_right(x as int, b, m);
    assert(xb == (x * b) % m);
    let d = h.wrapping_sub(xb);
    vstd::arithmetic::div_mod::lemma_sub_mod_noop(s, x * b, m);
    assert(d == (s - x * b) % m);
    let e = d.wrapping_mul(131);
    vstd::arithmetic::div_mod::lemma_mul_mod_noop_left(s - x * b, 131, m);
    assert(e == ((s - x * b) * 131) % m);
    vstd::arithmetic::div_mod::lemma_add_mod_noop((s - x * b) * 131, y as int, m);
    vstd::arithmetic::div_mod::lemma_small_mod(y as nat, m as nat);
    assert(e.wrapping_add(y as u64) == (e + y) % m);
}

/// Returns the hashes of all windows of `len` bytes.
fn hash_windows(data: &[u8], len: usize) -> (hs: Vec<u64>)
    requires
        0 < len <= data@.len(),
    ensures
        hs@ == window_hashes(data@, len as nat),
{
    let n: usize = data.len();
    let mut base_pow: u64 = 1;
    let mut k: usize = 1;
    while k < len
        invariant
            1 <= k <= len,
            base_pow == base_power((k - 1) as nat) % 0x1_0000_0000_0000_0000,
        decreases len - k,
    {
        proof {
            vstd::arithmetic::div_mod::lemma_mul_mod_noop_left(
                base_power((k - 1) as nat),
                131,
                0x1_0000_0000_0000_0000,
            );
        }
        base_pow = base_pow.wrapping_mul(HASH_BASE);
        k = k + 1;
    }
    let mut h: u64 = 0;
    let mut i: usize = 0;
    while i < len
        invariant
            i <= len <= data@.len(),
            h == spelled(data@, 0, i as nat) % 0x1_0000_0000_0000_0000,
        decreases len - i,
    {
        proof {
            let s = spelled(data@, 0, i as nat);
            lemma_roll_mod(s, 0, 0, data@[i as int], h, 0);
        }
        h = h.wrapping_sub(0u64.wrapping_mul(0)).wrapping_mul(HASH_BASE).wrapping_add(
            data[i] as u64,
        );
        i = i + 1;
    }
    let mut hs: Vec<u64> = Vec::new();
    hs.push(h);
    let mut p: usize = 1;
    while p <= n - len
        invariant
            n == data@.len(),
            0 < len <= n,
            1 <= p <= n - len + 1,
            base_pow == base_power((len - 1) as nat) % 0x1_0000_0000_0000_0000,
            h == rolling_hash(data@, p - 1, len as nat),
            hs@.len() == p,
            forall|q: int| 0 <= q < p ==> hs@[q] == rolling_hash(data@, q, len as nat),
        decreases n - len + 1 - p,
    {
        proof {
            lemma_spelled_rolls(data@, p - 1, len as nat);
            lemma_roll_mod(
                spelled(data@, p - 1, len as nat),
                data@[p - 1],
                base_power((len - 1) as nat),
                data@[p + len - 1],
                h,
                base_pow,
            );
        }
        h = h.wrapping_sub((data[p - 1] as u64).wrapping_mul(base_pow)).wrapping_mul(
            HASH_BASE,
        ).wrapping_add(data[p + len - 1] as u64);
        hs.push(h);
        p = p + 1;
    }
    assert(hs@ =~= window_hashes(data@, len as nat));
    hs
}

/// What the table knows of the first `k` hashes: of each one how often it occurs.
spec fn tally_ok(hs: Seq<u64>, table: vstd::map::Map<u64, usize>, k: nat) -> bool {
    &&& forall|q: int| 0 <= q < k ==> #[trigger] table.contains_key(hs[q])
    &&& forall|h: u64| #[trigger] table.contains_key(h) ==> table[h] == hash_count(hs, h, k)
}

/// Returns how often each hash occurs.
fn count_hashes(hs: &Vec<u64>) -> (table: HashMap<u64, usize>)
    ensures
        tally_ok(hs@, table@, hs@.len()),
{
    let mut table: HashMap<u64, usize> = HashMap::new();
    let mut k: usize = 0;
    while k < hs.len()
        invariant
            k <= hs@.len(),
            tally_ok(hs@, table@, k as nat),
        decreases hs.len() - k,
    {
        let h: u64 = hs[k];
        proof {
            lemma_hash_count_bound(hs@, h, k as nat);
        }
        let count: usize = match table.get(&h) {
            Some(count) => *count,
            None => {
                proof {
                    if hash_count(hs@, h, k as nat) > 0 {
                        let q = lemma_hash_counted(hs@, h, k as nat);
                        assert(table@.contains_key(hs@[q]));
                    }
                }
                0
            },
        };
        table.insert(h, count + 1);
        k = k + 1;
    }
    table
}

/// A window that was met, with its first place and how often it was met.
struct Met {
    first: usize,
    count: usize,
}

/// Of the first `k` windows, those whose hash occurs often enough are listed,
/// each once, in the order of their first places, and with their count.
spec fn list_ok(data: Seq<u8>, len: nat, min_occur: nat, met: Seq<Met>, k: nat) -> bool {
    let hs = window_hashes(data, len);
    &&& forall|i: int|
        0 <= i < met.len() ==> {
            &&& (#[trigger] met[i]).first < k
            &&& is_first(data, len, met[i].first as int)
            &&& met[i].count == window_count(data, len, window(data, met[i].first as int, len), k)
            &&& hash_count(hs, hs[met[i].first as int], hs.len()) >= min_occur
        }
    &&& forall|i: int, j: int|
        0 <= i < j < met.len() ==> (#[trigger] met[i]).first < (#[trigger] met[j]).first
    &&& forall|q: int|
        0 <= q < k && hash_count(hs, #[trigger] hs[q], hs.len()) >= min_occur ==> is_met(
            data,
            len,
            met,
            q,
        )
}

/// The window at `q` is listed.
spec fn is_met(data: Seq<u8>, len: nat, met: Seq<Met>, q: int) -> bool {
    exists|i: int|
        0 <= i < met.len() && window(data, (#[trigger] met[i]).first as int, len) == window(
            data,
            q,
            len,
        )
}

/// The index leads to every listed window by its hash, and to nothing else.
spec fn finds(hs: Seq<u64>, met: Seq<Met>, index: vstd::map::Map<u64, Vec<usize>>) -> bool {
    &&& forall|i: int|
        0 <= i < met.len() ==> {
            let h = hs[(#[trigger] met[i]).first as int];
            index.contains_key(h) && index[h]@.contains(i as usize)
        }
    &&& forall|h: u64, j: int| #![trigger index[h]@[j]]
        index.contains_key(h) && 0 <= j < index[h]@.len() ==> index[h]@[j] < met.len()
}

/// Returns the place in the list of the window at `p`, if it is listed.
fn find_met(
    data: &[u8],
    len: usize,
    p: usize,
    h: u64,
    met: &Vec<Met>,
    index: &HashMap<u64, Vec<usize>>,
) -> (r: Option<usize>)
    requires
        0 < len,
        p < window_total(data@, len as nat),
        h == window_hashes(data@, len as nat)[p as int],
        forall|i: int| 0 <= i < met@.len() ==> (#[trigger] met@[i]).first < p,
        finds(window_hashes(data@, len as nat), met@, index@),
    ensures
        match r {
            Some(i) => i < met@.len() && window(data@, met@[i as int].first as int, len as nat)
                == window(data@, p as int, len as nat),
            None => !is_met(data@, len as nat, met@, p as int),
        },
{
    let ghost hs = window_hashes(data@, len as nat);
    let ghost w = window(data@, p as int, len as nat);
    if let Some(bucket) = index.get(&h) {
        let mut j: usize = 0;
        while j < bucket.len()
            invariant
                j <= bucket@.len(),
                index@.contains_key(h),
                index@[h] == *bucket,
                finds(hs, met@, index@),
                0 < len,
                p < window_total(data@, len as nat),
                hs == window_hashes(data@, len as nat),
                w == window(data@, p as int, len as nat),
                forall|i: int| 0 <= i < met@.len() ==> (#[trigger] met@[i]).first < p,
                forall|i: int|
                    0 <= i < j ==> window(
                        data@,
                        met@[#[trigger] bucket@[i] as int].first as int,
                        len as nat,
                    ) != w,
            decreases bucket.len() - j,
        {
            let i: usize = bucket[j];
            assert(index@[h]@[j as int] == i);
            let first: usize = met[i].first;
            assert(met@[i as int].first < p);
            assert(p + len <= data.len());
            if same(&data[first..first + len], &data[p..p + len]) {
                return Some(i);
            }
            j = j + 1;
        }
    }
    proof {
        if is_met(data@, len as nat, met@, p as int) {
            let i = choose|i: int|
                0 <= i < met@.len() && window(data@, (#[trigger] met@[i]).first as int, len as nat)
                    == w;
            assert(i < met.len());
            assert(met@[i].first < p);
            lemma_same_hash(data@, met@[i].first as int, p as int, len as nat);
            assert(index@.contains_key(h) && index@[h]@.contains(i as usize));
            let j = choose|j: int| 0 <= j < index@[h]@.len() && index@[h]@[j] == i as usize;
            assert(met@[index@[h]@[j] as int] == met@[i]);
            assert(false);
        }
    }
    None
}

/// Meeting a listed window again.
#[verifier::rlimit(30)]
proof fn lemma_met_again(data: Seq<u8>, len: nat, min_occur: nat, met: Seq<Met>, p: nat, i: int)
    requires
        list_ok(data, len, min_occur, met, p),
        0 <= i < met.len(),
        p < window_total(data, len),
        window(data, met[i].first as int, len) == window(data, p as int, len),
        met[i].count < usize::MAX,
    ensures
        list_ok(
            data,
            len,
            min_occur,
            met.update(i, Met { first: met[i].first, count: (met[i].count + 1) as usize }),
            p + 1,
        ),
{
    let hs = window_hashes(data, len);
    let later = met.update(i, Met { first: met[i].first, count: (met[i].count + 1) as usize });
    assert forall|j: int| 0 <= j < later.len() implies {
        &&& (#[trigger] later[j]).first < p + 1
        &&& is_first(data, len, later[j].first as int)
        &&& later[j].count == window_count(data, len, window(data, later[j].first as int, len), p + 1)
        &&& hash_count(hs, hs[later[j].first as int], hs.len()) >= min_occur
    } by {
        assert(met[j].first < p);
        assert(met[i].first < p);
        if j < i {
            assert(met[j].first < met[i].first);
            assert(window(data, met[j].first as int, len) != window(
                data,
                met[i].first as int,
                len,
            ));
        } else if i < j {
            assert(met[i].first < met[j].first);
            assert(window(data, met[i].first as int, len) != window(
                data,
                met[j].first as int,
                len,
            ));
        }
    }
    assert forall|j: int, k: int| 0 <= j < k < later.len() implies (#[trigger] later[j]).first < (
    #[trigger] later[k]).first by {
        assert(met[j].first < met[k].first);
    }
    assert forall|q: int|
        0 <= q < p + 1 && hash_count(hs, #[trigger] hs[q], hs.len()) >= min_occur implies is_met(
        data,
        len,
        later,
        q,
    ) by {
        if q < p {
            assert(is_met(data, len, met, q));
            let j = choose|j: int|
                0 <= j < met.len() && window(data, (#[trigger] met[j]).first as int, len)
                    == window(data, q, len);
            assert(later[j].first == met[j].first);
        } else {
            assert(later[i].first == met[i].first);
        }
    }
}

/// Meeting a window for the first time.
proof fn lemma_met_first(data: Seq<u8>, len: nat, min_occur: nat, met: Seq<Met>, p: usize)
    requires
        list_ok(data, len, min_occur, met, p as nat),
        p < window_total(data, len),
        !is_met(data, len, met, p as int),
        hash_count(
            window_hashes(data, len),
            window_hashes(data, len)[p as int],
            window_hashes(data, len).len(),
        ) >= min_occur,
    ensures
        list_ok(data, len, min_occur, met.push(Met { first: p, count: 1 }), (p + 1) as nat),
{
    let hs = window_hashes(data, len);
    let w = window(data, p as int, len);
    let later = met.push(Met { first: p, count: 1 });
    assert forall|q: int| 0 <= q < p implies #[trigger] window(data, q, len) != w by {
        if window(data, q, len) == w {
            lemma_same_hash(data, q, p as int, len);
            assert(hash_count(hs, hs[q], hs.len()) >= min_occur);
            assert(is_met(data, len, met, q));
            assert(is_met(data, len, met, p as int));
        }
    }
    lemma_window_absent(data, len, w, p as nat);
    assert forall|j: int| 0 <= j < later.len() implies {
        &&& (#[trigger] later[j]).first < p + 1
        &&& is_first(data, len, later[j].first as int)
        &&& later[j].count == window_count(
            data,
            len,
            window(data, later[j].first as int, len),
            (p + 1) as nat,
        )
        &&& hash_count(hs, hs[later[j].first as int], hs.len()) >= min_occur
    } by {
        if j < met.len() {
            assert(met[j].first < p);
            assert(window(data, met[j].first as int, len) != w);
        }
    }
    assert forall|j: int, k: int| 0 <= j < k < later.len() implies (#[trigger] later[j]).first < (
    #[trigger] later[k]).first by {
        assert(met[j].first < p);
        if k < met.len() {
            assert(met[j].first < met[k].first);
        }
    }
    assert forall|q: int|
        0 <= q < p + 1 && hash_count(hs, #[trigger] hs[q], hs.len()) >= min_occur implies is_met(
        data,
        len,
        later,
        q,
    ) by {
        if q < p {
            assert(is_met(data, len, met, q));
            let j = choose|j: int|
                0 <= j < met.len() && window(data, (#[trigger] met[j]).first as int, len)
                    == window(data, q, len);
            assert(later[j] == met[j]);
        } else {
            assert(later[met.len() as int].first == p);
        }
    }
}

/// Passing a window whose hash occurs too seldom.
proof fn lemma_met_none(data: Seq<u8>, len: nat, min_occur: nat, met: Seq<Met>, p: nat)
    requires
        list_ok(data, len, min_occur, met, p),
        p < window_total(data, len),
        hash_count(
            window_hashes(data, len),
            window_hashes(data, len)[p as int],
            window_hashes(data, len).len(),
        ) < min_occur,
    ensures
        list_ok(data, len, min_occur, met, p + 1),
{
    let hs = window_hashes(data, len);
    assert forall|j: int| 0 <= j < met.len() implies {
        &&& (#[trigger] met[j]).first < p + 1
        &&& is_first(data, len, met[j].first as int)
        &&& met[j].count == window_count(data, len, window(data, met[j].first as int, len), p + 1)
        &&& hash_count(hs, hs[met[j].first as int], hs.len()) >= min_occur
    } by {
        assert(met[j].first < p);
        if window(data, met[j].first as int, len) == window(data, p as int, len) {
            lemma_same_hash(data, met[j].first as int, p as int, len);
        }
    }
}

/// Lists the windows of `len` bytes whose hash occurs often enough.
fn list_windows(data: &[u8], len: usize, min_occur: usize) -> (met: Vec<Met>)
    requires
        0 < len <= data@.len(),
    ensures
        list_ok(
            data@,
            len as nat,
            min_occur as nat,
            met@,
            window_total(data@, len as nat),
        ),
{
    let hs: Vec<u64> = hash_windows(data, len);
    let counts: HashMap<u64, usize> = count_hashes(&hs);
    let mut met: Vec<Met> = Vec::new();
    let mut index: HashMap<u64, Vec<usize>> = HashMap::new();
    let mut p: usize = 0;
    while p < hs.len()
        invariant
            p <= hs@.len(),
            0 < len <= data@.len(),
            hs@ == window_hashes(data@, len as nat),
            tally_ok(hs@, counts@, hs@.len()),
            list_ok(data@, len as nat, min_occur as nat, met@, p as nat),
            finds(hs@, met@, index@),
        decreases hs.len() - p,
    {
        let h: u64 = hs[p];
        assert(counts@.contains_key(hs@[p as int]));
        let often: bool = match counts.get(&h) {
            Some(count) => *count >= min_occur,
            None => false,
        };
        if !often {
            proof {
                lemma_met_none(data@, len as nat, min_occur as nat, met@, p as nat);
            }
        } else {
            match find_met(data, len, p, h, &met, &index) {
                Some(i) => {
                    let ghost before = met@;
                    let Met { first, count } = met[i];
                    proof {
                        lemma_window_count(
                            data@,
                            len as nat,
                            window(data@, first as int, len as nat),
                            p as nat,
                            p as nat,
                        );
                        assert(before[i as int].count <= p);
                        lemma_met_again(
                            data@,
                            len as nat,
                            min_occur as nat,
                            before,
                            p as nat,
                            i as int,
                        );
                    }
                    met.set(i, Met { first, count: count + 1 });
                    proof {
                        assert forall|j: int| 0 <= j < met@.len() implies {
                            let g = hs@[(#[trigger] met@[j]).first as int];
                            index@.contains_key(g) && index@[g]@.contains(j as usize)
                        } by {
                            assert(before[j].first == met@[j].first);
                        }
                    }
                },
                None => {
                    let ghost before = met@;
                    let ghost old_index = index@;
                    proof {
                        lemma_met_first(data@, len as nat, min_occur as nat, before, p);
                    }
                    let at: usize = met.len();
                    let mut bucket: Vec<usize> = match index.remove(&h) {
                        Some(bucket) => bucket,
                        None => Vec::new(),
                    };
                    let ghost old_bucket = bucket@;
                    bucket.push(at);
                    met.push(Met { first: p, count: 1 });
                    assert(met.len() == at + 1);
                    index.insert(h, bucket);
                    proof {
                        assert(bucket@[old_bucket.len() as int] == at);
                        assert forall|j: int| 0 <= j < met@.len() implies {
                            let g = hs@[(#[trigger] met@[j]).first as int];
                            index@.contains_key(g) && index@[g]@.contains(j as usize)
                        } by {
                            if j < before.len() {
                                assert(before[j] == met@[j]);
                                let g = hs@[before[j].first as int];
                                assert(old_index.contains_key(g) && old_index[g]@.contains(
                                    j as usize,
                                ));
                                if g == h {
                                    let x = choose|x: int|
                                        0 <= x < old_bucket.len() && old_bucket[x] == j as usize;
                                    assert(bucket@[x] == j as usize);
                                }
                            }
                        }
                        assert forall|g: u64, x: int| #![trigger index@[g]@[x]]
                            index@.contains_key(g) && 0 <= x < index@[g]@.len() implies index@[g]@[x]
                            < met@.len() by {
                            if g == h && x < old_bucket.len() {
                                assert(old_index.contains_key(h));
                                assert(old_index[h]@[x] < before.len());
                            } else if g != h {
                                assert(old_index[g]@[x] < before.len());
                            }
                        }
                    }
                },
            }
        }
        p = p + 1;
    }
    met
}

/// Returns the different windows of `len` bytes that occur at least `min_occur`
/// times, in the order of their first places. Windows that are the same are found
/// by their hash.
pub fn find_candidate_patterns_rk(data: &[u8], len: usize, min_occur: usize) -> (out: Vec<Vec<u8>>)
    ensures
        len == 0 ==> out@.len() == 0,
        len > 0 ==> fields_of(out@) == candidates(
            data@,
            len as nat,
            min_occur as nat,
            window_total(data@, len as nat),
        ),
{
    let mut out: Vec<Vec<u8>> = Vec::new();
    if len == 0 || len > data.len() {
        assert(len > 0 ==> fields_of(out@) =~= candidates(
            data@,
            len as nat,
            min_occur as nat,
            window_total(data@, len as nat),
        ));
        return out;
    }
    let met: Vec<Met> = list_windows(data, len, min_occur);
    let n: usize = data.len() - len + 1;
    let ghost hs = window_hashes(data@, len as nat);
    let mut j: usize = 0;
    let mut p: usize = 0;
    assert(fields_of(out@) =~= candidates(data@, len as nat, min_occur as nat, 0));
    while p < n
        invariant
            0 < len <= data@.len(),
            n == window_total(data@, len as nat),
            n == data.len() - len + 1,
            hs == window_hashes(data@, len as nat),
            p <= n,
            j <= met@.len(),
            list_ok(data@, len as nat, min_occur as nat, met@, n as nat),
            forall|i: int| 0 <= i < j ==> (#[trigger] met@[i]).first < p,
            forall|i: int| j <= i < met@.len() ==> (#[trigger] met@[i]).first >= p,
            fields_of(out@) == candidates(data@, len as nat, min_occur as nat, p as nat),
        decreases n - p,
    {
        let ghost before = fields_of(out@);
        proof {
            if is_candidate(data@, len as nat, p as int, min_occur as nat) {
                lemma_window_hash_count(data@, len as nat, p as int, n as nat);
                assert(hash_count(hs, hs[p as int], hs.len()) >= min_occur);
                assert(is_met(data@, len as nat, met@, p as int));
                let i = choose|i: int|
                    0 <= i < met@.len() && window(
                        data@,
                        (#[trigger] met@[i]).first as int,
                        len as nat,
                    ) == window(data@, p as int, len as nat);
                let f = met@[i].first as int;
                assert(is_first(data@, len as nat, f));
                assert(is_first(data@, len as nat, p as int));
                if f < p {
                    assert(window(data@, f, len as nat) != window(data@, p as int, len as nat));
                }
                if p < f {
                    assert(window(data@, p as int, len as nat) != window(data@, f, len as nat));
                }
                assert(i >= j);
                if i > j {
                    assert(met@[j as int].first < met@[i].first);
                }
            }
        }
        if j < met.len() && met[j].first == p {
            if met[j].count >= min_occur {
                assert(p + len <= data.len());
                out.push(copy_of(&data[p..p + len]));
                assert(is_candidate(data@, len as nat, p as int, min_occur as nat));
                assert(fields_of(out@) =~= before.push(window(data@, p as int, len as nat)));
            }
            proof {
                assert forall|i: int| j < i < met@.len() implies (#[trigger] met@[i]).first >= p
                    + 1 by {
                    assert(met@[j as int].first < met@[i].first);
                }
            }
            j = j + 1;
        }
        p = p + 1;
    }
    out
}

proof fn lemma_hash_count_bound(hs: Seq<u64>, h: u64, k: nat)
    ensures
        hash_count(hs, h, k) <= k,
    decreases k,
{
    if k > 0 {
        lemma_hash_count_bound(hs, h, (k - 1) as nat);
    }
}

/// A hash that is counted occurs.
proof fn lemma_hash_counted(hs: Seq<u64>, h: u64, k: nat) -> (q: int)
    requires
        hash_count(hs, h, k) > 0,
    ensures
        0 <= q < k,
        hs[q] == h,
    decreases k,
{
    if hs[k - 1] == h {
        k - 1
    } else {
        lemma_hash_counted(hs, h, (k - 1) as nat)
    }
}

/// The terms on which blocks become macros: the id that the macro gets, and the
/// program that it has to shorten, if there is one.
pub struct Terms {
    pub id: u32,
    pub program: Option<Seq<Tok>>,
}

impl Terms {
    /// A block may become a macro.
    pub open spec fn allow(self, pat: Seq<u8>) -> bool {
        self.program matches Some(toks) ==> macro_shortens(toks, pat, self.id)
    }
}

/// Any block may become macro `id`.
pub open spec fn freely(id: u32) -> Terms {
    Terms { id, program: None }
}

/// Blocks may become macro `id` that shorten the program by it.
pub open spec fn shortening(toks: Seq<Tok>, id: u32) -> Terms {
    Terms { id, program: Some(toks) }
}

/// The terms that a search is given.
pub open spec fn terms_of(id: u32, program: Option<&Vec<SynthToken>>) -> Terms {
    match program {
        Some(tokens) => shortening(toks_of(tokens@), id),
        None => freely(id),
    }
}

/// Storing `pat` as macro `id` and calling it shortens the program.
#[verifier::opaque]
pub open spec fn macro_shortens(toks: Seq<Tok>, pat: Seq<u8>, id: u32) -> bool {
    shorter(
        toks_size(with_marks(toks, pat, Tok::Call { id })) + 4 + tok_size(Tok::Lit { data: pat }),
        toks_size(toks),
    )
}

/// Returns whether a block may become macro `id`.
pub fn allowed(pat: &[u8], id: u32, program: Option<&Vec<SynthToken>>) -> (r: bool)
    ensures
        r == terms_of(id, program).allow(pat@),
{
    match program {
        None => true,
        Some(tokens) => {
            proof {
                reveal(macro_shortens);
            }
            let after: usize = marks_size(tokens, pat, &Mark::Call { sub_id: id }).saturating_add(
                4,
            ).saturating_add(literal_cost(pat.len()));
            assert(capped(tok_size(Tok::Lit { data: pat@ })) <= after);
            after < tokens_size(tokens)
        },
    }
}

/// What the window of `len` bytes at `p` offers as a macro: the stated gain, if it
/// has an allowed length, occurs twice or more without overlap, and may become
/// one, else nothing.
pub open spec fn offer(data: Seq<u8>, len: nat, p: int, on: Terms) -> int {
    let pat = window(data, p, len);
    if MIN_MACRO_LEN <= len <= MAX_MACRO_LEN && 0 <= p < window_total(data, len) && occurrences(
        data,
        pat,
        0,
    ) >= MIN_MACRO_OCCUR && on.allow(pat) {
        macro_gain(len, occurrences(data, pat, 0), on.id)
    } else {
        0
    }
}

/// What a window of the token at `t` offers.
pub open spec fn token_offer(ts: Seq<Tok>, t: int, len: nat, p: int, on: Terms) -> int {
    if 0 <= t < ts.len() && ts[t] is Lit {
        offer(ts[t]->data, len, p, on)
    } else {
        0
    }
}

/// A block found so far, with its number of occurrences and its gain.
pub struct Found {
    pub pattern: Vec<u8>,
    pub occur: usize,
    pub gain: i128,
}

/// No offer of `g` is better than what was found.
pub open spec fn covers(best: Option<Found>, g: int) -> bool {
    g <= 0 || (best matches Some(f) && f.gain >= g)
}

/// What was found later is at least as good.
pub open spec fn at_least(best: Option<Found>, later: Option<Found>) -> bool {
    best matches Some(f) ==> later matches Some(l) && l.gain >= f.gain
}

/// What was found is better than what was found before.
pub open spec fn beats(best: Option<Found>, f: Found) -> bool {
    best matches Some(o) ==> f.gain > o.gain
}

/// What was found is the offer of the window of `len` bytes at `p`.
pub open spec fn backs(data: Seq<u8>, len: nat, p: int, on: Terms, f: Found) -> bool {
    &&& f.gain > 0
    &&& f.gain == offer(data, len, p, on)
    &&& f.pattern@ == window(data, p, len)
    &&& f.pattern@.len() == len
    &&& f.occur == occurrences(data, f.pattern@, 0)
}

/// What was found is the offer of the window of `len` bytes at `p`, and no shorter
/// window and no earlier one offers as much.
pub open spec fn backs_first(data: Seq<u8>, len: nat, p: int, on: Terms, f: Found) -> bool {
    &&& backs(data, len, p, on, f)
    &&& forall|l: nat, q: int|
        l < len || (l == len && q < p) ==> #[trigger] offer(data, l, q, on) < f.gain
}

/// The windows of `len` bytes before `p` offer less than `gain`.
pub open spec fn earlier_offer_less(
    data: Seq<u8>,
    len: nat,
    p: int,
    on: Terms,
    gain: int,
) -> bool {
    forall|q: int| q < p ==> #[trigger] offer(data, len, q, on) < gain
}

/// Before each listed candidate those are listed that stand before it.
pub open spec fn is_listed_by_place(data: Seq<u8>, len: nat, min_occur: nat, c: Seq<Seq<u8>>) -> bool {
    forall|j: int, p: int, q: int|
        0 <= j < c.len() && 0 <= q < p && #[trigger] is_candidate(data, len, p, min_occur)
            && #[trigger] is_candidate(data, len, q, min_occur) && #[trigger] c[j] == window(
            data,
            p,
            len,
        ) ==> c.take(j).contains(window(data, q, len))
}

/// The block is a candidate among the first `k` windows.
pub open spec fn is_listed(data: Seq<u8>, len: nat, min_occur: nat, k: nat, w: Seq<u8>) -> bool {
    exists|p: int|
        0 <= p < k && #[trigger] is_candidate(data, len, p, min_occur) && w == window(data, p, len)
}

/// Every candidate is listed, and everything listed is one.
pub proof fn lemma_candidates(data: Seq<u8>, len: nat, min_occur: nat, k: nat)
    ensures
        forall|p: int|
            0 <= p < k && #[trigger] is_candidate(data, len, p, min_occur) ==> candidates(
                data,
                len,
                min_occur,
                k,
            ).contains(window(data, p, len)),
        forall|j: int|
            0 <= j < candidates(data, len, min_occur, k).len() ==> is_listed(
                data,
                len,
                min_occur,
                k,
                #[trigger] candidates(data, len, min_occur, k)[j],
            ),
        is_listed_by_place(data, len, min_occur, candidates(data, len, min_occur, k)),
    decreases k,
{
    if k > 0 {
        let prev = (k - 1) as nat;
        lemma_candidates(data, len, min_occur, prev);
        let before = candidates(data, len, min_occur, prev);
        let all = candidates(data, len, min_occur, k);
        assert forall|p: int| 0 <= p < k && #[trigger] is_candidate(data, len, p, min_occur) implies
            all.contains(window(data, p, len)) by {
            if p < prev {
                assert(before.contains(window(data, p, len)));
                let j = choose|j: int| 0 <= j < before.len() && before[j] == window(data, p, len);
                assert(all[j] == window(data, p, len));
            } else {
                assert(all[all.len() - 1] == window(data, p, len));
            }
        }
        assert forall|j: int| 0 <= j < all.len() implies is_listed(
            data,
            len,
            min_occur,
            k,
            #[trigger] all[j],
        ) by {
            if j < before.len() {
                assert(all[j] == before[j]);
                let p = choose|p: int|
                    0 <= p < prev && #[trigger] is_candidate(data, len, p, min_occur) && before[j]
                        == window(data, p, len);
                assert(is_candidate(data, len, p, min_occur));
            } else {
                assert(is_candidate(data, len, k - 1, min_occur));
            }
        }
        assert forall|j: int, p: int, q: int|
            0 <= j < all.len() && 0 <= q < p && #[trigger] is_candidate(data, len, p, min_occur)
                && #[trigger] is_candidate(data, len, q, min_occur) && #[trigger] all[j] == window(
                data,
                p,
                len,
            ) implies all.take(j).contains(window(data, q, len)) by {
            if j < before.len() {
                assert(all[j] == before[j]);
                assert(before.take(j) =~= all.take(j));
            } else {
                assert(is_candidate(data, len, k - 1, min_occur));
                if p < k - 1 {
                    assert(window(data, p, len) != window(data, k - 1, len));
                } else if p > k - 1 {
                    assert(window(data, k - 1, len) != window(data, p, len));
                }
                assert(all.take(j) =~= before);
            }
        }
    }
}

/// Holds the windows of `len` bytes against the best block so far.
fn scan_length(
    data: &[u8],
    len: usize,
    id: u32,
    program: Option<&Vec<SynthToken>>,
    best: Option<Found>,
) -> (r: Option<Found>)
    requires
        MIN_MACRO_LEN <= len <= MAX_MACRO_LEN,
        MIN_MACRO_OCCUR * len <= data@.len(),
    ensures
        at_least(best, r),
        forall|p: int| covers(r, #[trigger] offer(data@, len as nat, p, terms_of(id, program))),
        r == best || (r is Some && beats(best, r->0)),
        r == best || exists|p: int|
            r is Some && #[trigger] backs(data@, len as nat, p, terms_of(id, program), r->0)
                && earlier_offer_less(
                data@,
                len as nat,
                p,
                terms_of(id, program),
                r->0.gain as int,
            ),
{
    let ghost on = terms_of(id, program);
    let cands: Vec<Vec<u8>> = find_candidate_patterns_rk(data, len, MIN_MACRO_OCCUR);
    let ghost total = window_total(data@, len as nat);
    let ghost listed = candidates(data@, len as nat, MIN_MACRO_OCCUR as nat, total);
    proof {
        lemma_candidates(data@, len as nat, MIN_MACRO_OCCUR as nat, total);
    }
    let mut found: Option<Found> = best;
    let mut j: usize = 0;
    while j < cands.len()
        invariant
            on == terms_of(id, program),
            j <= cands@.len(),
            MIN_MACRO_LEN <= len <= MAX_MACRO_LEN,
            MIN_MACRO_OCCUR * len <= data@.len(),
            listed == fields_of(cands@),
            total == window_total(data@, len as nat),
            forall|j: int|
                0 <= j < listed.len() ==> is_listed(
                    data@,
                    len as nat,
                    MIN_MACRO_OCCUR as nat,
                    total,
                    #[trigger] listed[j],
                ),
            at_least(best, found),
            found == best || (found is Some && beats(best, found->0)),
            forall|p: int|
                0 <= p < total && listed.take(j as int).contains(window(data@, p, len as nat))
                    ==> covers(found, #[trigger] offer(data@, len as nat, p, on)),
            found == best || exists|p: int|
                found is Some && #[trigger] backs(data@, len as nat, p, on, found->0)
                    && earlier_offer_less(data@, len as nat, p, on, found->0.gain as int),
            is_listed_by_place(data@, len as nat, MIN_MACRO_OCCUR as nat, listed),
        decreases cands.len() - j,
    {
        let pat: &Vec<u8> = &cands[j];
        let ghost before = found;
        assert(listed[j as int] == pat@);
        let ghost at = choose|p: int|
            0 <= p < total && #[trigger] is_candidate(data@, len as nat, p, MIN_MACRO_OCCUR as nat)
                && listed[j as int] == window(data@, p, len as nat);
        let count: usize = count_nonoverlap(data, pat.as_slice());
        proof {
            assert(count <= data@.len() / 8) by (nonlinear_arith)
                requires
                    count * len <= data@.len(),
                    len >= 8,
            ;
            assert(data.len() <= usize::MAX);
        }
        if count >= MIN_MACRO_OCCUR {
            let gain: i128 = wide_macro_gain(len, count, id);
            let better: bool = match &found {
                Some(f) => gain > f.gain,
                None => gain > 0,
            };
            if better && gain > 0 && allowed(pat.as_slice(), id, program) {
                found = Some(Found { pattern: copy_of(pat.as_slice()), occur: count, gain });
                assert(backs(data@, len as nat, at, on, found->0));
                assert forall|q: int| q < at implies #[trigger] offer(data@, len as nat, q, on)
                    < gain by {
                    let w = window(data@, q, len as nat);
                    if 0 <= q && occurrences(data@, w, 0) >= MIN_MACRO_OCCUR {
                        assert(w.len() == len);
                        lemma_occurrences_counted(data@, w, 0);
                        let f = lemma_first_place(data@, len as nat, q);
                        assert(is_candidate(data@, len as nat, f, MIN_MACRO_OCCUR as nat));
                        assert(listed.take(j as int).contains(w));
                        assert(covers(before, offer(data@, len as nat, q, on)));
                    }
                }
            }
        }
        assert forall|p: int|
            0 <= p < total && listed.take(j + 1).contains(
                window(data@, p, len as nat),
            ) implies covers(found, #[trigger] offer(data@, len as nat, p, on)) by {
            let w = window(data@, p, len as nat);
            if w != pat@ {
                let seen = listed.take(j + 1);
                let i = choose|i: int| 0 <= i < seen.len() && seen[i] == w;
                assert(listed.take(j as int)[i] == w);
                assert(covers(before, offer(data@, len as nat, p, on)));
            }
        }
        j = j + 1;
    }
    assert(listed.take(j as int) =~= listed);
    assert forall|p: int| covers(found, #[trigger] offer(data@, len as nat, p, on)) by {
        let w = window(data@, p, len as nat);
        if 0 <= p < total && occurrences(data@, w, 0) >= MIN_MACRO_OCCUR {
            assert(w.len() == len);
            lemma_occurrences_counted(data@, w, 0);
            let q = lemma_first_place(data@, len as nat, p);
            assert(is_candidate(data@, len as nat, q, MIN_MACRO_OCCUR as nat));
            assert(listed.contains(w));
        }
    }
    found
}

/// Holds the windows of a literal against the best block so far.
fn scan_literal(
    data: &[u8],
    id: u32,
    program: Option<&Vec<SynthToken>>,
    best: Option<Found>,
) -> (r: Option<Found>)
    ensures
        at_least(best, r),
        forall|len: nat, p: int| covers(r, #[trigger] offer(data@, len, p, terms_of(id, program))),
        r == best || (r is Some && beats(best, r->0)),
        r == best || exists|len: nat, p: int|
            r is Some && #[trigger] backs_first(data@, len, p, terms_of(id, program), r->0),
{
    let ghost on = terms_of(id, program);
    let half: usize = data.len() / MIN_MACRO_OCCUR;
    let max_len: usize = if half < MAX_MACRO_LEN {
        half
    } else {
        MAX_MACRO_LEN
    };
    let mut found: Option<Found> = best;
    let mut len: usize = MIN_MACRO_LEN;
    while len <= max_len
        invariant
            on == terms_of(id, program),
            MIN_MACRO_LEN <= len,
            max_len <= MAX_MACRO_LEN,
            max_len <= data@.len() / 2,
            at_least(best, found),
            forall|l: nat, p: int|
                l < len ==> covers(found, #[trigger] offer(data@, l, p, on)),
            found == best || (found is Some && beats(best, found->0)),
            found == best || exists|l: nat, p: int|
                found is Some && #[trigger] backs_first(data@, l, p, on, found->0),
        decreases max_len + 1 - len,
    {
        let ghost before = found;
        found = scan_length(data, len, id, program, found);
        proof {
            if found != before {
                let p = choose|p: int| #[trigger]
                    backs(data@, len as nat, p, on, found->0) && earlier_offer_less(
                        data@,
                        len as nat,
                        p,
                        on,
                        found->0.gain as int,
                    );
                assert forall|l: nat, q: int| l < len || (l == len && q < p) implies #[trigger] offer(
                    data@,
                    l,
                    q,
                    on,
                ) < found->0.gain by {
                    if l < len {
                        assert(covers(before, offer(data@, l, q, on)));
                    }
                }
                assert(backs_first(data@, len as nat, p, on, found->0));
            }
        }
        assert forall|l: nat, p: int| l < len + 1 implies covers(
            found,
            #[trigger] offer(data@, l, p, on),
        ) by {
            if l < len {
                assert(covers(before, offer(data@, l, p, on)));
            }
        }
        len = len + 1;
    }
    proof {
        assert forall|l: nat, p: int| covers(found, #[trigger] offer(data@, l, p, on)) by {
            if l > max_len && l <= MAX_MACRO_LEN && 0 <= p < window_total(data@, l) {
                let w = window(data@, p, l);
                lemma_occurrences_bound(data@, w, 0);
                let m = occurrences(data@, w, 0);
                assert(m < 2) by (nonlinear_arith)
                    requires
                        m * w.len() <= data@.len(),
                        2 * w.len() > data@.len(),
                ;
            }
        }
    }
    found
}

/// The result is the first of the blocks inside the literals that offer most, how
/// often it occurs in its literal, and its gain, if any block offers something.
pub open spec fn finds_best(
    ts: Seq<Tok>,
    on: Terms,
    r: Option<(Vec<u8>, usize, isize)>,
) -> bool {
    match r {
        None => forall|t: int, len: nat, p: int| #[trigger] token_offer(ts, t, len, p, on) <= 0,
        Some((pat, occur, gain)) => {
            let g = macro_gain(pat@.len(), occur as nat, on.id);
            &&& g > 0
            &&& gain == clamped(g)
            &&& forall|t: int, len: nat, p: int| #[trigger] token_offer(ts, t, len, p, on) <= g
            &&& exists|t: int, len: nat, p: int|
                is_first_offer(ts, t, len, p, on, pat@, occur as nat)
        },
    }
}

/// Finds the block inside the literals whose storing as macro `next_sub_id`
/// gains most. The result is the block, how often it occurs in its literal, and
/// the gain.
pub fn find_best_macro(tokens: &Vec<SynthToken>, next_sub_id: u32) -> (r: Option<
    (Vec<u8>, usize, isize),
>)
    ensures
        finds_best(toks_of(tokens@), freely(next_sub_id), r),
        r matches Some((pat, occur, gain)) ==> MIN_MACRO_LEN <= pat@.len() <= MAX_MACRO_LEN
            && occur >= MIN_MACRO_OCCUR,
{
    search_literals(tokens, next_sub_id, None)
}

/// Finds the block inside the literals that gains most of those whose storing as
/// macro `next_sub_id` shortens the program.
pub fn find_shortening_macro(tokens: &Vec<SynthToken>, next_sub_id: u32) -> (r: Option<
    (Vec<u8>, usize, isize),
>)
    ensures
        finds_best(toks_of(tokens@), shortening(toks_of(tokens@), next_sub_id), r),
        r matches Some((pat, occur, gain)) ==> MIN_MACRO_LEN <= pat@.len() <= MAX_MACRO_LEN
            && occur >= MIN_MACRO_OCCUR,
{
    search_literals(tokens, next_sub_id, Some(tokens))
}

/// Finds the block inside the literals that offers most.
fn search_literals(
    tokens: &Vec<SynthToken>,
    id: u32,
    program: Option<&Vec<SynthToken>>,
) -> (r: Option<(Vec<u8>, usize, isize)>)
    ensures
        finds_best(toks_of(tokens@), terms_of(id, program), r),
        r matches Some((pat, occur, gain)) ==> MIN_MACRO_LEN <= pat@.len() <= MAX_MACRO_LEN
            && occur >= MIN_MACRO_OCCUR,
{
    let mut found: Option<Found> = None;
    let ghost ts = toks_of(tokens@);
    let ghost on = terms_of(id, program);
    let mut i: usize = 0;
    while i < tokens.len()
        invariant
            i <= tokens@.len(),
            ts == toks_of(tokens@),
            on == terms_of(id, program),
            forall|t: int, len: nat, p: int|
                t < i ==> covers(found, #[trigger] token_offer(ts, t, len, p, on)),
            found matches Some(f) ==> MIN_MACRO_LEN <= f.pattern@.len() <= MAX_MACRO_LEN && f.gain
                > 0 && f.gain == macro_gain(f.pattern@.len(), f.occur as nat, id)
                && exists|t: int, len: nat, p: int|
                is_first_offer(ts, t, len, p, on, f.pattern@, f.occur as nat),
        decreases tokens.len() - i,
    {
        let ghost before = found;
        match &tokens[i] {
            SynthToken::Lit { data } => {
                assert(ts[i as int] == (Tok::Lit { data: data@ }));
                found = scan_literal(data.as_slice(), id, program, found);
                proof {
                    if found != before {
                        let (len, p) = choose|len: nat, p: int| #[trigger]
                            backs_first(data@, len, p, on, found->0);
                        assert forall|u: int, l: nat, q: int|
                            u < i || (u == i && (l < len || (l == len && q < p)))
                            implies #[trigger] token_offer(
                            ts,
                            u,
                            l,
                            q,
                            on,
                        ) < found->0.gain by {
                            if u < i {
                                assert(covers(before, token_offer(ts, u, l, q, on)));
                            } else {
                                assert(offer(data@, l, q, on) < found->0.gain);
                            }
                        }
                        assert(is_first_offer(
                            ts,
                            i as int,
                            len,
                            p,
                            on,
                            found->0.pattern@,
                            found->0.occur as nat,
                        ));
                    }
                    assert forall|t: int, len: nat, p: int| t < i + 1 implies covers(
                        found,
                        #[trigger] token_offer(ts, t, len, p, on),
                    ) by {
                        if t < i {
                            assert(covers(before, token_offer(ts, t, len, p, on)));
                        } else {
                            assert(covers(found, offer(data@, len, p, on)));
                        }
                    }
                }
            },
            _ => {
                assert(!(ts[i as int] is Lit));
            },
        }
        i = i + 1;
    }
    proof {
        assert forall|t: int, len: nat, p: int| covers(
            found,
            #[trigger] token_offer(ts, t, len, p, on),
        ) by {}
    }
    match found {
        None => None,
        Some(f) => {
            let gain: isize = clamp(f.gain);
            Some((f.pattern, f.occur, gain))
        },
    }
}

/// The block `pat`, which occurs `occur` times in its literal, is the offer of
/// the window of `len` bytes at `p` in the token at `t`.
pub open spec fn is_token_offer(
    ts: Seq<Tok>,
    t: int,
    len: nat,
    p: int,
    on: Terms,
    pat: Seq<u8>,
    occur: nat,
) -> bool {
    &&& 0 <= t < ts.len()
    &&& ts[t] is Lit
    &&& pat == window(ts[t]->data, p, len)
    &&& pat.len() == len
    &&& occur == occurrences(ts[t]->data, pat, 0)
    &&& token_offer(ts, t, len, p, on) == macro_gain(len, occur, on.id)
}

/// The block is the offer of this window, and no window of an earlier token, no
/// shorter one of the same token, and no earlier one of the same length, offers as
/// much.
pub open spec fn is_first_offer(
    ts: Seq<Tok>,
    t: int,
    len: nat,
    p: int,
    on: Terms,
    pat: Seq<u8>,
    occur: nat,
) -> bool {
    &&& is_token_offer(ts, t, len, p, on, pat, occur)
    &&& forall|u: int, l: nat, q: int|
        u < t || (u == t && (l < len || (l == len && q < p))) ==> #[trigger] token_offer(
            ts,
            u,
            l,
            q,
            on,
        ) < macro_gain(len, occur, on.id)
}

/// A literal from `pos` on, with `mark` in place of each occurrence of `pat`.
pub open spec fn split(data: Seq<u8>, pat: Seq<u8>, mark: Tok, pos: int) -> Seq<Tok>
    decreases data.len() - pos,
    via split_decreases
{
    if pos < 0 || pos >= data.len() {
        Seq::empty()
    } else {
        match first_from(data, pat, pos) {
            Some(hit) => (if hit > pos {
                seq![Tok::Lit { data: data.subrange(pos, hit) }]
            } else {
                Seq::empty()
            }) + seq![mark] + split(data, pat, mark, hit + pat.len()),
            None => seq![Tok::Lit { data: data.skip(pos) }],
        }
    }
}

#[via_fn]
proof fn split_decreases(data: Seq<u8>, pat: Seq<u8>, mark: Tok, pos: int) {
    lemma_first_from(data, pat, pos);
}

/// Where a block is found, it stands.
pub proof fn lemma_first_from(data: Seq<u8>, pat: Seq<u8>, from: int)
    ensures
        first_from(data, pat, from) matches Some(hit) ==> from <= hit && hit + pat.len()
            <= data.len() && pat.len() > 0 && window(data, hit, pat.len()) == pat,
    decreases data.len() - from,
{
    if from < 0 || pat.len() == 0 || from + pat.len() > data.len() {
    } else if window(data, from, pat.len()) != pat {
        lemma_first_from(data, pat, from + 1);
    }
}

/// What stands for a block: a call of a macro, or a reference to a consensus
/// block.
pub enum Mark {
    Call { sub_id: u32 },
    Ref { hash: Vec<u8> },
}

impl Mark {
    /// The mark as a token.
    pub open spec fn tok(&self) -> Tok {
        match self {
            Mark::Call { sub_id } => Tok::Call { id: *sub_id },
            Mark::Ref { hash } => Tok::Ref { key: hash@ },
        }
    }

    /// Returns the mark as a token.
    pub fn token(&self) -> (t: SynthToken)
        ensures
            tok_of(t) == self.tok(),
    {
        match self {
            Mark::Call { sub_id } => SynthToken::Call { sub_id: *sub_id },
            Mark::Ref { hash } => SynthToken::Ref { hash: copy_of(hash.as_slice()) },
        }
    }
}

/// Appends the tokens of a literal in which calls of macro `sub_id` stand for
/// `pattern`.
pub fn split_and_replace_lit(
    data: &[u8],
    pattern: &[u8],
    sub_id: u32,
    out: &mut Vec<SynthToken>,
)
    ensures
        toks_of(final(out)@) == toks_of(old(out)@) + split(
            data@,
            pattern@,
            Tok::Call { id: sub_id },
            0,
        ),
{
    split_literal(data, pattern, &Mark::Call { sub_id }, out);
}

/// Appends the tokens of a literal in which `mark` stands for `pattern`.
pub fn split_literal(data: &[u8], pattern: &[u8], mark: &Mark, out: &mut Vec<SynthToken>)
    ensures
        toks_of(final(out)@) == toks_of(old(out)@) + split(data@, pattern@, mark.tok(), 0),
{
    let mut pos: usize = 0;
    let ghost all = toks_of(out@) + split(data@, pattern@, mark.tok(), 0);
    while pos < data.len()
        invariant
            pos <= data@.len(),
            all == toks_of(old(out)@) + split(data@, pattern@, mark.tok(), 0),
            toks_of(out@) + split(data@, pattern@, mark.tok(), pos as int) == all,
        decreases data@.len() - pos,
    {
        let ghost before = toks_of(out@);
        match find_first(data, pos, pattern) {
            Some(hit) => {
                proof {
                    lemma_first_from(data@, pattern@, pos as int);
                }
                assert(hit <= data.len());
                if hit > pos {
                    let t: SynthToken = SynthToken::Lit { data: copy_of(&data[pos..hit]) };
                    proof {
                        lemma_toks_of_push(out@, t);
                    }
                    out.push(t);
                }
                let t: SynthToken = mark.token();
                proof {
                    lemma_toks_of_push(out@, t);
                }
                out.push(t);
                let ghost rest = split(data@, pattern@, mark.tok(), hit + pattern@.len());
                proof {
                    assert(toks_of(out@) + rest =~= before + split(
                        data@,
                        pattern@,
                        mark.tok(),
                        pos as int,
                    ));
                }
                pos = hit + pattern.len();
            },
            None => {
                let t: SynthToken = SynthToken::Lit { data: copy_of(&data[pos..data.len()]) };
                proof {
                    lemma_toks_of_push(out@, t);
                    assert(data@.subrange(pos as int, data@.len() as int) =~= data@.skip(
                        pos as int,
                    ));
                    assert(toks_of(out@).push(tok_of(t)) =~= before + split(
                        data@,
                        pattern@,
                        mark.tok(),
                        pos as int,
                    ));
                }
                out.push(t);
                return;
            },
        }
    }
    assert(toks_of(out@) + Seq::<Tok>::empty() =~= toks_of(out@));
}

/// The tables hold the macro `id`, and it writes `pat`.
pub open spec fn defines(env: Env, id: u32, pat: Seq<u8>) -> bool {
    env.subs.contains_key(id) && env.subs[id] == toks_bytes(seq![Tok::Lit { data: pat }])
}

/// A call of a macro writes the block that the macro stands for.
pub proof fn call_writes_the_block(id: u32, pat: Seq<u8>, env: Env)
    requires
        defines(env, id, pat),
        pat.len() < 0x1_0000_0000,
    ensures
        appends(seq![Tok::Call { id }], pat, env),
{
    let ts = seq![Tok::Call { id }];
    let body = seq![Tok::Lit { data: pat }];
    let none = Seq::<u32>::empty();
    assert forall|m: State|
        m.err is None && m.out.len() + pat.len() <= MAX_OUTPUT_BYTES implies #[trigger] toks_run(
        ts,
        m,
        env,
        0,
        none,
    ) == with_output(m, pat) by {
        assert(fits(body[0]));
        running_code_is_running_tokens(body, m, env, 1, none.push(id));
        let after = m.emit(pat);
        assert(step(instr_of(body[0]), m, env, 1, none.push(id)) == after);
        assert(toks_run(body.drop_first(), after, env, 1, none.push(id)) == after);
        assert(step(instr_of(ts[0]), m, env, 0, none) == after);
        assert(toks_run(ts.drop_first(), after, env, 0, none) == after);
    }
}

/// A literal with marks in place of a block writes the same bytes, if the mark
/// writes the block.
pub proof fn split_writes_the_literal(data: Seq<u8>, pat: Seq<u8>, mark: Tok, pos: int, env: Env)
    requires
        0 <= pos <= data.len(),
        data.len() < 0x1_0000_0000,
        appends(seq![mark], pat, env),
        fits(mark),
    ensures
        appends(split(data, pat, mark, pos), data.skip(pos), env),
        all_fit(split(data, pat, mark, pos)),
    decreases data.len() - pos,
{
    if pos >= data.len() {
        lemma_nothing_appends(env);
        assert(data.skip(pos) =~= Seq::empty());
    } else {
        lemma_first_from(data, pat, pos);
        match first_from(data, pat, pos) {
            None => {
                lemma_lit_appends(data.skip(pos), env);
            },
            Some(hit) => {
                let behind = hit + pat.len();
                let rest = split(data, pat, mark, behind);
                split_writes_the_literal(data, pat, mark, behind, env);
                let one = seq![mark];
                let front = data.subrange(pos, hit);
                if hit > pos {
                    lemma_lit_appends(front, env);
                    let lit = seq![Tok::Lit { data: front }];
                    lemma_appends_concat(lit, front, one, pat, env);
                    lemma_appends_concat(lit + one, front + pat, rest, data.skip(behind), env);
                    assert(front + pat + data.skip(behind) =~= data.skip(pos));
                } else {
                    lemma_appends_concat(one, pat, rest, data.skip(behind), env);
                    assert(pat + data.skip(behind) =~= data.skip(pos));
                    assert(split(data, pat, mark, pos) =~= one + rest);
                }
            },
        }
    }
}

} // verus!
