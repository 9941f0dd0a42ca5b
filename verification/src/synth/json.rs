//! Tables of JSON objects, one object per line.

use vstd::prelude::*;
use crate::bytes::{copy_of, same};
use crate::synth::delimited::{
    ends_of, find_line_ends, lemma_line_ends, lemma_lines_stand, line, line_start,
};
use crate::synth::table::{
    flat, is_split, pays_off, propose, stands, Grid, ScanResult, Table, MIN_SCAN_ROWS,
};
use crate::synth::token::fields_of;

verus! {

/// Space, tab, carriage return or line feed.
pub open spec fn is_blank(b: u8) -> bool {
    b == 32 || b == 9 || b == 13 || b == 10
}

/// Space or tab.
pub open spec fn is_gap(b: u8) -> bool {
    b == 32 || b == 9
}

/// The first place from `i` on that is not blank, line breaks counting as blank
/// only if `wide`.
pub open spec fn skip_blank(s: Seq<u8>, i: int, wide: bool) -> int
    decreases s.len() - i,
{
    if 0 <= i < s.len() && (is_gap(s[i]) || (wide && is_blank(s[i]))) {
        skip_blank(s, i + 1, wide)
    } else {
        i
    }
}

/// The place behind the quote that ends the string whose contents go on at `i`.
/// A backslash takes the next byte with it.
pub open spec fn string_end(s: Seq<u8>, i: int) -> Option<int>
    decreases s.len() + 1 - i,
{
    if i < 0 || i >= s.len() {
        None
    } else if s[i] == 34 {
        Some(i + 1)
    } else if s[i] == 92 {
        string_end(s, i + 2)
    } else {
        string_end(s, i + 1)
    }
}

/// A byte that ends a number.
pub open spec fn ends_number(b: u8) -> bool {
    b == 44 || b == 125 || b == 93 || is_blank(b)
}

/// The first place from `i` on that ends a number, or the end of the data.
pub open spec fn number_end(s: Seq<u8>, i: int) -> int
    decreases s.len() - i,
{
    if 0 <= i < s.len() && !ends_number(s[i]) {
        number_end(s, i + 1)
    } else {
        i
    }
}

/// The place behind the bracket that closes the nesting, going on at `i` with
/// `depth` brackets open. Brackets inside strings do not count.
pub open spec fn nest_end(
    s: Seq<u8>,
    i: int,
    open: u8,
    close: u8,
    depth: nat,
    in_str: bool,
) -> Option<int>
    decreases s.len() + 1 - i,
{
    if i < 0 || i >= s.len() {
        None
    } else if in_str {
        if s[i] == 34 {
            nest_end(s, i + 1, open, close, depth, false)
        } else if s[i] == 92 {
            nest_end(s, i + 2, open, close, depth, true)
        } else {
            nest_end(s, i + 1, open, close, depth, true)
        }
    } else if s[i] == 34 {
        nest_end(s, i + 1, open, close, depth, true)
    } else if s[i] == open {
        nest_end(s, i + 1, open, close, depth + 1, false)
    } else if s[i] == close {
        if depth <= 1 {
            Some(i + 1)
        } else {
            nest_end(s, i + 1, open, close, (depth - 1) as nat, false)
        }
    } else {
        nest_end(s, i + 1, open, close, depth, false)
    }
}

/// `word` stands at `i`.
pub open spec fn word_at(s: Seq<u8>, i: int, word: Seq<u8>) -> bool {
    i + word.len() <= s.len() && s.subrange(i, i + word.len()) == word
}

/// The place behind the value that starts at `i`.
pub open spec fn value_end(s: Seq<u8>, i: int) -> Option<int> {
    if i < 0 || i >= s.len() {
        None
    } else if s[i] == 34 {
        string_end(s, i + 1)
    } else if s[i] == 116 {
        if word_at(s, i, seq![116u8, 114, 117, 101]) {
            Some(i + 4)
        } else {
            None
        }
    } else if s[i] == 102 {
        if word_at(s, i, seq![102u8, 97, 108, 115, 101]) {
            Some(i + 5)
        } else {
            None
        }
    } else if s[i] == 110 {
        if word_at(s, i, seq![110u8, 117, 108, 108]) {
            Some(i + 4)
        } else {
            None
        }
    } else if s[i] == 45 || 48 <= s[i] <= 57 {
        Some(number_end(s, i))
    } else if s[i] == 91 {
        nest_end(s, i, 91, 93, 0, false)
    } else if s[i] == 123 {
        nest_end(s, i, 123, 125, 0, false)
    } else {
        None
    }
}

/// Where a key and its value stand.
pub struct Pair {
    pub key_from: int,
    pub key_to: int,
    pub from: int,
    pub to: int,
}

/// The pairs of an object whose pairs go on at `i`, if it is well formed up to
/// its closing brace.
pub open spec fn pairs_from(s: Seq<u8>, i: int) -> Option<Seq<Pair>>
    decreases s.len() - i,
    via pairs_from_decreases
{
    let k = skip_blank(s, i, true);
    if i < 0 || k >= s.len() {
        None
    } else if s[k] == 125 {
        Some(Seq::empty())
    } else if s[k] != 34 {
        None
    } else {
        match string_end(s, k + 1) {
            None => None,
            Some(key_to) => {
                let colon = skip_blank(s, key_to, false);
                if colon >= s.len() || s[colon] != 58 {
                    None
                } else {
                    let from = skip_blank(s, colon + 1, false);
                    match value_end(s, from) {
                        None => None,
                        Some(to) => {
                            let pair = Pair { key_from: k, key_to, from, to };
                            let next = skip_blank(s, to, true);
                            if next >= s.len() {
                                None
                            } else if s[next] == 44 {
                                match pairs_from(s, next + 1) {
                                    None => None,
                                    Some(rest) => Some(seq![pair] + rest),
                                }
                            } else if s[next] == 125 {
                                Some(seq![pair])
                            } else {
                                None
                            }
                        },
                    }
                }
            },
        }
    }
}

#[via_fn]
proof fn pairs_from_decreases(s: Seq<u8>, i: int) {
    if i >= 0 {
        lemma_pair_places(s, i);
    }
}

/// The pairs of an object, if it is well formed and not empty.
pub open spec fn pairs_of(s: Seq<u8>) -> Option<Seq<Pair>> {
    let open = skip_blank(s, 0, true);
    if open >= s.len() || s[open] != 123 {
        None
    } else {
        match pairs_from(s, open + 1) {
            None => None,
            Some(ps) => if ps.len() == 0 {
                None
            } else {
                Some(ps)
            },
        }
    }
}

proof fn lemma_skip_blank(s: Seq<u8>, i: int, wide: bool)
    ensures
        skip_blank(s, i, wide) >= i,
        i <= s.len() ==> skip_blank(s, i, wide) <= s.len(),
    decreases s.len() - i,
{
    if 0 <= i < s.len() && (is_gap(s[i]) || (wide && is_blank(s[i]))) {
        lemma_skip_blank(s, i + 1, wide);
    }
}

proof fn lemma_string_end(s: Seq<u8>, i: int)
    ensures
        string_end(s, i) matches Some(e) ==> 0 <= i < e <= s.len(),
    decreases s.len() + 1 - i,
{
    if !(i < 0 || i >= s.len()) {
        if s[i] == 92 {
            lemma_string_end(s, i + 2);
        } else if s[i] != 34 {
            lemma_string_end(s, i + 1);
        }
    }
}

proof fn lemma_number_end(s: Seq<u8>, i: int)
    requires
        0 <= i <= s.len(),
    ensures
        i <= number_end(s, i) <= s.len(),
        i < s.len() && !ends_number(s[i]) ==> number_end(s, i) > i,
    decreases s.len() - i,
{
    if i < s.len() && !ends_number(s[i]) {
        lemma_number_end(s, i + 1);
    }
}

proof fn lemma_nest_end(s: Seq<u8>, i: int, open: u8, close: u8, depth: nat, in_str: bool)
    ensures
        nest_end(s, i, open, close, depth, in_str) matches Some(e) ==> 0 <= i < e <= s.len(),
    decreases s.len() + 1 - i,
{
    if !(i < 0 || i >= s.len()) {
        if in_str {
            if s[i] == 34 {
                lemma_nest_end(s, i + 1, open, close, depth, false);
            } else if s[i] == 92 {
                lemma_nest_end(s, i + 2, open, close, depth, true);
            } else {
                lemma_nest_end(s, i + 1, open, close, depth, true);
            }
        } else if s[i] == 34 {
            lemma_nest_end(s, i + 1, open, close, depth, true);
        } else if s[i] == open {
            lemma_nest_end(s, i + 1, open, close, depth + 1, false);
        } else if s[i] == close {
            if depth > 1 {
                lemma_nest_end(s, i + 1, open, close, (depth - 1) as nat, false);
            }
        } else {
            lemma_nest_end(s, i + 1, open, close, depth, false);
        }
    }
}

proof fn lemma_value_end(s: Seq<u8>, i: int)
    ensures
        value_end(s, i) matches Some(e) ==> 0 <= i < e <= s.len(),
{
    if 0 <= i < s.len() {
        lemma_string_end(s, i + 1);
        lemma_number_end(s, i);
        lemma_nest_end(s, i, 91, 93, 0, false);
        lemma_nest_end(s, i, 123, 125, 0, false);
    }
}

/// The places that reading one pair passes come in order.
proof fn lemma_pair_places(s: Seq<u8>, i: int)
    requires
        0 <= i,
    ensures
        ({
            let k = skip_blank(s, i, true);
            &&& k >= i
            &&& string_end(s, k + 1) matches Some(key_to) ==> {
                let colon = skip_blank(s, key_to, false);
                let from = skip_blank(s, colon + 1, false);
                &&& k + 1 < key_to <= colon < from
                &&& value_end(s, from) matches Some(to) ==> {
                    &&& from < to <= s.len()
                    &&& to <= skip_blank(s, to, true)
                }
            }
        }),
{
    let k = skip_blank(s, i, true);
    lemma_skip_blank(s, i, true);
    lemma_string_end(s, k + 1);
    if let Some(key_to) = string_end(s, k + 1) {
        let colon = skip_blank(s, key_to, false);
        lemma_skip_blank(s, key_to, false);
        lemma_skip_blank(s, colon + 1, false);
        let from = skip_blank(s, colon + 1, false);
        lemma_value_end(s, from);
        if let Some(to) = value_end(s, from) {
            lemma_skip_blank(s, to, true);
        }
    }
}

/// The values stand in order inside the object.
pub open spec fn in_sequence(ps: Seq<Pair>, from: int, to: int) -> bool {
    &&& forall|k: int|
        0 <= k < ps.len() ==> from <= (#[trigger] ps[k]).key_from < ps[k].key_to <= ps[k].from
            < ps[k].to < to
    &&& forall|j: int, k: int|
        0 <= j < k < ps.len() ==> (#[trigger] ps[j]).to < (#[trigger] ps[k]).key_from
}

proof fn lemma_pairs_in_sequence(s: Seq<u8>, i: int)
    requires
        0 <= i,
    ensures
        pairs_from(s, i) matches Some(ps) ==> in_sequence(ps, i, s.len() as int),
    decreases s.len() - i,
{
    lemma_pair_places(s, i);
    let k = skip_blank(s, i, true);
    if k < s.len() && s[k] == 34 {
        if let Some(key_to) = string_end(s, k + 1) {
            let colon = skip_blank(s, key_to, false);
            let from = skip_blank(s, colon + 1, false);
            if let Some(to) = value_end(s, from) {
                let next = skip_blank(s, to, true);
                if next < s.len() {
                    lemma_pairs_in_sequence(s, next + 1);
                }
                if let Some(ps) = pairs_from(s, i) {
                    let pair = Pair { key_from: k, key_to, from, to };
                    if s[next] == 44 {
                        let rest = pairs_from(s, next + 1).unwrap();
                        assert(ps == seq![pair] + rest);
                        assert forall|q: int| 0 <= q < ps.len() implies i <= (
                        #[trigger] ps[q]).key_from < ps[q].key_to <= ps[q].from < ps[q].to
                            < s.len() by {
                            if q > 0 {
                                assert(ps[q] == rest[q - 1]);
                            }
                        }
                        assert forall|j: int, q: int| 0 <= j < q < ps.len() implies (
                        #[trigger] ps[j]).to < (#[trigger] ps[q]).key_from by {
                            assert(ps[q] == rest[q - 1]);
                            if j > 0 {
                                assert(ps[j] == rest[j - 1]);
                            }
                        }
                    } else {
                        assert(ps == seq![pair]);
                    }
                }
            }
        }
    }
}

/// Returns the first place from `i` on that is not blank.
fn skip_blanks(s: &[u8], i: usize, wide: bool) -> (k: usize)
    requires
        i <= s@.len(),
    ensures
        k == skip_blank(s@, i as int, wide),
        i <= k <= s@.len(),
{
    let mut k: usize = i;
    while k < s.len() && (s[k] == 32 || s[k] == 9 || (wide && (s[k] == 13 || s[k] == 10)))
        invariant
            i <= k <= s@.len(),
            skip_blank(s@, i as int, wide) == skip_blank(s@, k as int, wide),
        decreases s.len() - k,
    {
        k = k + 1;
    }
    k
}

/// Returns the place behind the string that starts at `pos`.
pub fn json_str_end(data: &[u8], pos: usize) -> (r: Option<usize>)
    requires
        pos < data@.len(),
    ensures
        match string_end(data@, pos + 1) {
            Some(e) => r matches Some(q) && q == e,
            None => r is None,
        },
{
    assert(pos < data.len());
    let mut i: usize = pos + 1;
    while i < data.len()
        invariant
            string_end(data@, pos + 1) == string_end(data@, i as int),
        decreases data@.len() - i,
    {
        if data[i] == 34 {
            return Some(i + 1);
        }
        if data[i] == 92 {
            if data.len() - i < 2 {
                assert(string_end(data@, i + 2) is None);
                return None;
            }
            i = i + 2;
        } else {
            i = i + 1;
        }
    }
    None
}

/// Returns whether `word` stands at `pos`.
fn has_word(data: &[u8], pos: usize, word: &[u8]) -> (r: bool)
    requires
        pos <= data@.len(),
    ensures
        r == word_at(data@, pos as int, word@),
{
    if data.len() - pos < word.len() {
        return false;
    }
    same(&data[pos..pos + word.len()], word)
}

/// Returns the place behind the bracketed value that starts at `pos`.
fn nested_end(data: &[u8], pos: usize, open: u8, close: u8) -> (r: Option<usize>)
    requires
        pos < data@.len(),
        data@[pos as int] == open,
        open != 34,
        open != close,
    ensures
        match nest_end(data@, pos as int, open, close, 0, false) {
            Some(e) => r matches Some(q) && q == e,
            None => r is None,
        },
{
    let mut depth: usize = 0;
    let mut in_str: bool = false;
    let mut i: usize = pos;
    while i < data.len()
        invariant
            pos <= i <= data@.len(),
            pos < data@.len(),
            data@[pos as int] == open,
            open != 34,
            open != close,
            i == pos ==> depth == 0 && !in_str,
            i > pos ==> depth >= 1,
            depth <= i - pos,
            nest_end(data@, pos as int, open, close, 0, false) == nest_end(
                data@,
                i as int,
                open,
                close,
                depth as nat,
                in_str,
            ),
        decreases data@.len() - i,
    {
        let b: u8 = data[i];
        if in_str {
            if b == 34 {
                in_str = false;
                i = i + 1;
            } else if b == 92 {
                if data.len() - i < 2 {
                    assert(nest_end(
                        data@,
                        i + 2,
                        open,
                        close,
                        depth as nat,
                        true,
                    ) is None);
                    return None;
                }
                i = i + 2;
            } else {
                i = i + 1;
            }
        } else if b == 34 {
            in_str = true;
            i = i + 1;
        } else if b == open {
            depth = depth + 1;
            i = i + 1;
        } else if b == close {
            if depth <= 1 {
                return Some(i + 1);
            }
            depth = depth - 1;
            i = i + 1;
        } else {
            i = i + 1;
        }
    }
    None
}

/// Returns the place behind the value that starts at `pos`.
pub fn json_val_end(data: &[u8], pos: usize) -> (r: Option<usize>)
    ensures
        match value_end(data@, pos as int) {
            Some(e) => r matches Some(q) && q == e,
            None => r is None,
        },
{
    if pos >= data.len() {
        return None;
    }
    let b: u8 = data[pos];
    if b == 34 {
        return json_str_end(data, pos);
    }
    if b == 116 {
        let word: [u8; 4] = [116, 114, 117, 101];
        assert(word@ =~= seq![116u8, 114, 117, 101]);
        if has_word(data, pos, word.as_slice()) {
            return Some(pos + 4);
        }
        return None;
    }
    if b == 102 {
        let word: [u8; 5] = [102, 97, 108, 115, 101];
        assert(word@ =~= seq![102u8, 97, 108, 115, 101]);
        if has_word(data, pos, word.as_slice()) {
            return Some(pos + 5);
        }
        return None;
    }
    if b == 110 {
        let word: [u8; 4] = [110, 117, 108, 108];
        assert(word@ =~= seq![110u8, 117, 108, 108]);
        if has_word(data, pos, word.as_slice()) {
            return Some(pos + 4);
        }
        return None;
    }
    if b == 45 || (48 <= b && b <= 57) {
        let mut i: usize = pos;
        while i < data.len() && !(data[i] == 44 || data[i] == 125 || data[i] == 93 || data[i] == 32
            || data[i] == 9 || data[i] == 13 || data[i] == 10)
            invariant
                pos <= i <= data@.len(),
                number_end(data@, pos as int) == number_end(data@, i as int),
            decreases data.len() - i,
        {
            i = i + 1;
        }
        return Some(i);
    }
    if b == 91 {
        return nested_end(data, pos, 91, 93);
    }
    if b == 123 {
        return nested_end(data, pos, 123, 125);
    }
    None
}

/// The parsed pairs are those of the object.
pub open spec fn are_pairs(s: Seq<u8>, v: Seq<(Vec<u8>, usize, usize)>, ps: Seq<Pair>) -> bool {
    &&& v.len() == ps.len()
    &&& forall|k: int|
        0 <= k < v.len() ==> (#[trigger] v[k]).0@ == s.subrange(ps[k].key_from, ps[k].key_to)
            && v[k].1 == ps[k].from && v[k].2 == ps[k].to
}

/// Reads the pairs of the object `obj`. Each comes as its key with the quotes,
/// the place where its value starts, and the place behind the value.
pub fn parse_json_kv_pos(obj: &[u8]) -> (r: Option<Vec<(Vec<u8>, usize, usize)>>)
    ensures
        match pairs_of(obj@) {
            Some(ps) => r matches Some(v) && are_pairs(obj@, v@, ps),
            None => r is None,
        },
{
    let mut p: usize = skip_blanks(obj, 0, true);
    if p >= obj.len() || obj[p] != 123 {
        return None;
    }
    p = p + 1;
    let mut entries: Vec<(Vec<u8>, usize, usize)> = Vec::new();
    let ghost start = p as int;
    let ghost mut seen: Seq<Pair> = Seq::empty();
    proof {
        if let Some(rest) = pairs_from(obj@, start) {
            assert(seen + rest =~= rest);
        }
    }
    loop
        invariant
            p <= obj@.len(),
            are_pairs(obj@, entries@, seen),
            pairs_of(obj@) == (match pairs_from(obj@, start) {
                None => None,
                Some(ps) => if ps.len() == 0 {
                    None
                } else {
                    Some(ps)
                },
            }),
            pairs_from(obj@, start) == (match pairs_from(obj@, p as int) {
                None => None,
                Some(rest) => Some(seen + rest),
            }),
        decreases obj@.len() - p,
    {
        proof {
            lemma_pair_places(obj@, p as int);
        }
        let k: usize = skip_blanks(obj, p, true);
        if k >= obj.len() {
            return None;
        }
        if obj[k] == 125 {
            proof {
                assert(seen + Seq::<Pair>::empty() =~= seen);
            }
            if entries.len() == 0 {
                return None;
            }
            return Some(entries);
        }
        if obj[k] != 34 {
            return None;
        }
        let key_to: usize = match json_str_end(obj, k) {
            Some(e) => e,
            None => {
                return None;
            },
        };
        proof {
            lemma_string_end(obj@, k + 1);
        }
        let colon: usize = skip_blanks(obj, key_to, false);
        if colon >= obj.len() || obj[colon] != 58 {
            return None;
        }
        let from: usize = skip_blanks(obj, colon + 1, false);
        let to: usize = match json_val_end(obj, from) {
            Some(e) => e,
            None => {
                return None;
            },
        };
        assert(to <= obj.len());
        let ghost pair = Pair {
            key_from: k as int,
            key_to: key_to as int,
            from: from as int,
            to: to as int,
        };
        entries.push((copy_of(&obj[k..key_to]), from, to));
        let ghost before = seen;
        proof {
            seen = seen.push(pair);
        }
        let next: usize = skip_blanks(obj, to, true);
        if next >= obj.len() {
            return None;
        }
        if obj[next] == 44 {
            proof {
                if let Some(rest) = pairs_from(obj@, next + 1) {
                    assert(before + (seq![pair] + rest) =~= seen + rest);
                }
            }
            p = next + 1;
        } else if obj[next] == 125 {
            proof {
                assert(before + seq![pair] =~= seen);
            }
            return Some(entries);
        } else {
            return None;
        }
    }
}

/// Reads the pairs of the object `obj`. Each comes as its key with the quotes
/// and its value.
pub fn parse_json_kv(obj: &[u8]) -> (r: Option<Vec<(Vec<u8>, Vec<u8>)>>)
    ensures
        match pairs_of(obj@) {
            Some(ps) => r matches Some(v) && v@.len() == ps.len() && forall|k: int|
                0 <= k < ps.len() ==> (#[trigger] v@[k]).0@ == obj@.subrange(
                    ps[k].key_from,
                    ps[k].key_to,
                ) && v@[k].1@ == obj@.subrange(ps[k].from, ps[k].to),
            None => r is None,
        },
{
    let entries: Vec<(Vec<u8>, usize, usize)> = match parse_json_kv_pos(obj) {
        Some(entries) => entries,
        None => {
            return None;
        },
    };
    let ghost ps = pairs_of(obj@).unwrap();
    proof {
        lemma_pairs_in_sequence(obj@, skip_blank(obj@, 0, true) + 1);
        lemma_skip_blank(obj@, 0, true);
    }
    let mut out: Vec<(Vec<u8>, Vec<u8>)> = Vec::new();
    let mut k: usize = 0;
    while k < entries.len()
        invariant
            k <= entries@.len(),
            are_pairs(obj@, entries@, ps),
            in_sequence(ps, skip_blank(obj@, 0, true) + 1, obj@.len() as int),
            skip_blank(obj@, 0, true) >= 0,
            out@.len() == k,
            forall|j: int|
                0 <= j < k ==> (#[trigger] out@[j]).0@ == obj@.subrange(
                    ps[j].key_from,
                    ps[j].key_to,
                ) && out@[j].1@ == obj@.subrange(ps[j].from, ps[j].to),
        decreases entries.len() - k,
    {
        let from: usize = entries[k].1;
        let to: usize = entries[k].2;
        assert(ps[k as int].to <= obj@.len());
        assert(to <= obj.len());
        out.push((copy_of(entries[k].0.as_slice()), copy_of(&obj[from..to])));
        k = k + 1;
    }
    Some(out)
}

/// A byte that may stand before an object on its line.
pub open spec fn is_front_pad(b: u8) -> bool {
    is_blank(b) || b == 91 || b == 44
}

/// A byte that may stand behind an object on its line.
pub open spec fn is_back_pad(b: u8) -> bool {
    is_blank(b) || b == 93 || b == 44
}

/// The first place from `i` on that is no padding.
pub open spec fn front_end(s: Seq<u8>, i: int) -> int
    decreases s.len() - i,
{
    if 0 <= i < s.len() && is_front_pad(s[i]) {
        front_end(s, i + 1)
    } else {
        i
    }
}

/// The place behind the last of the first `n` bytes that is no padding.
pub open spec fn back_start(s: Seq<u8>, n: int) -> int
    decreases n,
{
    if 0 < n <= s.len() && is_back_pad(s[n - 1]) {
        back_start(s, n - 1)
    } else {
        n
    }
}

/// Where the object of a line stands: what is left of the line without brackets,
/// commas and blanks around it, if that starts and ends with braces.
pub open spec fn object_span(s: Seq<u8>) -> Option<(int, int)> {
    let a = front_end(s, 0);
    let e = back_start(s, s.len() as int);
    if a < e && s[a] == 123 && s[e - 1] == 125 {
        Some((a, e))
    } else {
        None
    }
}

/// The place behind the brace that opens the object of a line.
pub open spec fn object_open(s: Seq<u8>) -> int {
    match object_span(s) {
        Some((a, e)) => a + 1,
        None => 0,
    }
}

/// Returns where the object of a line stands.
pub fn extract_json_obj(line: &[u8]) -> (r: Option<(usize, usize)>)
    ensures
        match object_span(line@) {
            Some((a, e)) => r matches Some((x, y)) && x == a && y == e && x < y <= line@.len(),
            None => r is None,
        },
{
    let mut a: usize = 0;
    while a < line.len() && (line[a] == 32 || line[a] == 9 || line[a] == 13 || line[a] == 10
        || line[a] == 91 || line[a] == 44)
        invariant
            a <= line@.len(),
            front_end(line@, 0) == front_end(line@, a as int),
        decreases line.len() - a,
    {
        a = a + 1;
    }
    let mut e: usize = line.len();
    while e > 0 && (line[e - 1] == 32 || line[e - 1] == 9 || line[e - 1] == 13 || line[e - 1] == 10
        || line[e - 1] == 93 || line[e - 1] == 44)
        invariant
            e <= line@.len(),
            back_start(line@, line@.len() as int) == back_start(line@, e as int),
        decreases e,
    {
        e = e - 1;
    }
    if a < e && line[a] == 123 && line[e - 1] == 125 {
        Some((a, e))
    } else {
        None
    }
}

/// Where the values of the object on a line stand in the line.
pub open spec fn value_spans(s: Seq<u8>) -> Option<Seq<(int, int)>> {
    match object_span(s) {
        None => None,
        Some((a, e)) => match pairs_of(s.subrange(a, e)) {
            None => None,
            Some(ps) => Some(ps.map_values(|p: Pair| (p.from + a, p.to + a))),
        },
    }
}

/// The values of a line.
pub open spec fn cells(s: Seq<u8>, spans: Seq<(int, int)>) -> Seq<Seq<u8>> {
    spans.map_values(|v: (int, int)| s.subrange(v.0, v.1))
}

/// What stands before, between and behind the values of a line.
pub open spec fn gaps(s: Seq<u8>, spans: Seq<(int, int)>) -> Seq<Seq<u8>> {
    Seq::new(
        spans.len() + 1,
        |k: int|
            s.subrange(
                if k <= 0 {
                    0
                } else {
                    spans[k - 1].1
                },
                if k < spans.len() {
                    spans[k].0
                } else {
                    s.len() as int
                },
            ),
    )
}

/// The spans come in order, behind `from` and before the end.
pub open spec fn spans_ok(s: Seq<u8>, spans: Seq<(int, int)>, from: int) -> bool {
    &&& spans.len() > 0
    &&& forall|k: int|
        0 <= k < spans.len() ==> from <= (#[trigger] spans[k]).0 < spans[k].1 < s.len()
    &&& forall|j: int, k: int|
        0 <= j < k < spans.len() ==> (#[trigger] spans[j]).1 < (#[trigger] spans[k]).0
}

pub proof fn lemma_value_spans(s: Seq<u8>)
    ensures
        value_spans(s) matches Some(spans) ==> spans_ok(s, spans, object_open(s))
            && object_open(s) >= 1,
{
    if let Some((a, e)) = object_span(s) {
        lemma_front_end(s, 0);
        lemma_back_start(s, s.len() as int);
        let obj = s.subrange(a, e);
        let open = skip_blank(obj, 0, true);
        assert(obj[0] == 123);
        assert(open == 0);
        lemma_pairs_in_sequence(obj, open + 1);
        if let Some(ps) = pairs_of(obj) {
            let spans = value_spans(s).unwrap();
            assert forall|k: int| 0 <= k < spans.len() implies a + 1 <= (#[trigger] spans[k]).0
                < spans[k].1 < s.len() by {
                assert(1 <= ps[k].key_from);
            }
            assert forall|j: int, k: int| 0 <= j < k < spans.len() implies (#[trigger] spans[j]).1
                < (#[trigger] spans[k]).0 by {
                assert(ps[j].to < ps[k].key_from);
            }
        }
    }
}

proof fn lemma_front_end(s: Seq<u8>, i: int)
    requires
        0 <= i,
    ensures
        front_end(s, i) >= i,
    decreases s.len() - i,
{
    if i < s.len() && is_front_pad(s[i]) {
        lemma_front_end(s, i + 1);
    }
}

proof fn lemma_back_start(s: Seq<u8>, n: int)
    requires
        0 <= n,
    ensures
        0 <= back_start(s, n) <= n,
    decreases n,
{
    if 0 < n <= s.len() && is_back_pad(s[n - 1]) {
        lemma_back_start(s, n - 1);
    }
}

/// What stands around the values of line `k`, if the line holds an object.
pub open spec fn line_gaps(data: Seq<u8>, k: int) -> Option<Seq<Seq<u8>>> {
    match value_spans(line(data, k)) {
        None => None,
        Some(spans) => Some(gaps(line(data, k), spans)),
    }
}

/// The lines from `s` on for `l` lines hold objects and are alike.
pub open spec fn alike(data: Seq<u8>, s: int, l: int) -> bool {
    forall|k: int|
        s <= k < s + l ==> #[trigger] line_gaps(data, k) is Some && line_gaps(data, k) == line_gaps(
            data,
            s,
        )
}

/// There are `l` lines from line `s` on, and they are alike.
pub open spec fn objects_at(data: Seq<u8>, s: int, l: int) -> bool {
    &&& 0 <= s
    &&& 1 <= l
    &&& s + l <= ends_of(data).len()
    &&& alike(data, s, l)
}

/// The longest run of alike lines, and the first of its length.
pub open spec fn is_longest_run(data: Seq<u8>, s: int, l: int) -> bool {
    &&& objects_at(data, s, l)
    &&& forall|s2: int, l2: int| #[trigger]
        objects_at(data, s2, l2) ==> l2 < l || (l2 == l && s2 >= s)
}

/// The table in the `l` lines from line `s` on.
pub open spec fn objects_table(data: Seq<u8>, s: int, l: int) -> Grid {
    let first = line(data, s);
    let spans = value_spans(first)->0;
    let around = gaps(first, spans);
    let open = object_open(first);
    Grid {
        lead: seq![first.subrange(0, open), first.subrange(open, spans[0].0)],
        between: Seq::new((spans.len() - 1) as nat, |k: int| around[k + 1]),
        close: around[spans.len() as int],
        rows: Seq::new(
            l as nat,
            |r: int| cells(line(data, s + r), value_spans(line(data, s + r))->0),
        ),
    }
}

/// The `l` lines from line `s` on become a scan: they are the longest run of
/// alike lines, there are enough of them, some value varies, and it pays off.
pub open spec fn run_fires(data: Seq<u8>, id: u32, s: int, l: int) -> bool {
    &&& is_longest_run(data, s, l)
    &&& l >= MIN_SCAN_ROWS
    &&& objects_table(data, s, l).varies()
    &&& pays_off(
        objects_table(data, s, l),
        data,
        line_start(data, s),
        line_start(data, s + l),
        id,
    )
}

/// Some lines with objects become a scan.
pub open spec fn objects_fire(data: Seq<u8>, id: u32) -> bool {
    exists|s: int, l: int| #[trigger] run_fires(data, id, s, l)
}

/// The result splits the data around the lines that become a scan.
pub open spec fn is_objects_split(found: ScanResult, data: Seq<u8>, id: u32) -> bool {
    exists|s: int, l: int| #[trigger]
        run_fires(data, id, s, l) && is_split(
            found,
            objects_table(data, s, l),
            data,
            line_start(data, s),
            line_start(data, s + l),
            id,
        )
}

/// Values and what stands around them put together again give the line.
proof fn lemma_object_row(g: Grid, s: Seq<u8>, spans: Seq<(int, int)>, c: int, from: int)
    requires
        spans_ok(s, spans, from),
        0 <= from,
        0 <= c < spans.len(),
        g.between.len() == spans.len() - 1,
        forall|k: int|
            0 <= k < g.between.len() ==> #[trigger] g.between[k] == gaps(s, spans)[k + 1],
        g.close == gaps(s, spans)[spans.len() as int],
    ensures
        g.row_from(cells(s, spans), c) == s.skip(spans[c].0),
    decreases spans.len() - c,
{
    let row = cells(s, spans);
    assert(spans[c].0 < spans[c].1 < s.len());
    if c < spans.len() - 1 {
        lemma_object_row(g, s, spans, c + 1, from);
        assert(spans[c].1 < spans[c + 1].0);
        assert(spans[c + 1].1 < s.len());
        assert(g.between[c] == gaps(s, spans)[c + 1]);
        assert(row[c] + g.between[c] + s.skip(spans[c + 1].0) =~= s.skip(spans[c].0));
    } else {
        assert(row[c] + g.close =~= s.skip(spans[c].0));
    }
}

/// Every row of the alike lines has as many values as the first.
proof fn lemma_objects_wf(data: Seq<u8>, s: int, l: int)
    requires
        1 <= l,
        alike(data, s, l),
    ensures
        objects_table(data, s, l).wf(),
        spans_ok(line(data, s), value_spans(line(data, s))->0, object_open(line(data, s))),
        object_open(line(data, s)) >= 1,
{
    let g = objects_table(data, s, l);
    let first = line(data, s);
    assert(line_gaps(data, s) is Some);
    lemma_value_spans(first);
    let spans = value_spans(first)->0;
    let around = gaps(first, spans);
    assert forall|r: int| 0 <= r < g.rows.len() implies (#[trigger] g.rows[r]).len()
        == g.width() by {
        assert(line_gaps(data, s + r) == line_gaps(data, s));
        assert(gaps(line(data, s + r), value_spans(line(data, s + r))->0).len() == around.len());
    }
    assert(spans[spans.len() - 1].1 < first.len());
}

/// The blocks before the first value are what stands before it.
proof fn lemma_objects_lead(data: Seq<u8>, s: int, l: int)
    requires
        1 <= l,
        alike(data, s, l),
    ensures
        flat(objects_table(data, s, l).lead) == gaps(
            line(data, s),
            value_spans(line(data, s))->0,
        )[0],
{
    lemma_objects_wf(data, s, l);
    let first = line(data, s);
    let spans = value_spans(first)->0;
    let open = object_open(first);
    let lead = objects_table(data, s, l).lead;
    assert(lead.drop_last().drop_last() =~= Seq::<Seq<u8>>::empty());
    assert(flat(lead.drop_last().drop_last()) =~= Seq::<u8>::empty());
    assert(flat(lead.drop_last()) =~= first.subrange(0, open));
    assert(open <= spans[0].0 < spans[0].1 < first.len());
    assert(first.subrange(0, open) + first.subrange(open, spans[0].0) =~= first.subrange(
        0,
        spans[0].0,
    ));
}

/// Each row is its line.
proof fn lemma_objects_row(data: Seq<u8>, s: int, l: int, r: int)
    requires
        1 <= l,
        alike(data, s, l),
        0 <= r < l,
    ensures
        ({
            let g = objects_table(data, s, l);
            g.row_bytes(g.rows[r]) == line(data, s + r)
        }),
{
    let g = objects_table(data, s, l);
    let here = line(data, s + r);
    lemma_objects_wf(data, s, l);
    lemma_objects_lead(data, s, l);
    assert(line_gaps(data, s + r) is Some && line_gaps(data, s + r) == line_gaps(data, s));
    lemma_value_spans(here);
    let sp = value_spans(here)->0;
    let around = gaps(line(data, s), value_spans(line(data, s))->0);
    assert(gaps(here, sp) == around);
    assert(gaps(here, sp).len() == around.len());
    lemma_object_row(g, here, sp, 0, object_open(here));
    assert(sp[0].0 < sp[0].1 < here.len());
    assert(gaps(here, sp)[0] + here.skip(sp[0].0) =~= here);
}

/// The alike lines, as a table, stand where the lines stand.
proof fn lemma_objects_stand(data: Seq<u8>, s: int, l: int)
    requires
        0 <= s,
        1 <= l,
        s + l <= ends_of(data).len(),
        alike(data, s, l),
    ensures
        stands(
            objects_table(data, s, l),
            data,
            line_start(data, s),
            line_start(data, s + l),
        ),
{
    let g = objects_table(data, s, l);
    lemma_objects_wf(data, s, l);
    assert forall|r: int| 0 <= r < l implies g.row_bytes(#[trigger] g.rows[r]) == line(
        data,
        s + r,
    ) by {
        lemma_objects_row(data, s, l, r);
    }
    lemma_lines_stand(data, g, s, l as nat);
}

/// A line that holds an object: the place behind the opening brace and the
/// places of the values.
struct ObjectLine {
    open: usize,
    spans: Vec<(usize, usize)>,
}

spec fn spans_of(spans: Seq<(usize, usize)>) -> Seq<(int, int)> {
    spans.map_values(|v: (usize, usize)| (v.0 as int, v.1 as int))
}

/// Reads the object of a line.
fn read_object(line: &[u8]) -> (r: Option<ObjectLine>)
    ensures
        match value_spans(line@) {
            Some(spans) => r matches Some(o) && spans_of(o.spans@) == spans && o.open
                == object_open(line@),
            None => r is None,
        },
{
    let (a, e) = match extract_json_obj(line) {
        Some(span) => span,
        None => {
            return None;
        },
    };
    assert(e <= line.len());
    let entries: Vec<(Vec<u8>, usize, usize)> = match parse_json_kv_pos(&line[a..e]) {
        Some(entries) => entries,
        None => {
            return None;
        },
    };
    let ghost goal = value_spans(line@)->0;
    proof {
        lemma_value_spans(line@);
    }
    let mut spans: Vec<(usize, usize)> = Vec::new();
    assert(spans_of(spans@) =~= goal.take(0));
    let mut k: usize = 0;
    while k < entries.len()
        invariant
            k <= entries@.len(),
            entries@.len() == goal.len(),
            e <= line.len(),
            object_span(line@) == Some((a as int, e as int)),
            spans_ok(line@, goal, a + 1),
            are_pairs(
                line@.subrange(a as int, e as int),
                entries@,
                pairs_of(line@.subrange(a as int, e as int))->0,
            ),
            goal == pairs_of(line@.subrange(a as int, e as int))->0.map_values(
                |p: Pair| (p.from + a, p.to + a),
            ),
            spans_of(spans@) == goal.take(k as int),
        decreases entries.len() - k,
    {
        let ghost before = spans_of(spans@);
        assert(goal[k as int].1 < line@.len());
        assert(entries@[k as int].1 + a == goal[k as int].0);
        spans.push((entries[k].1 + a, entries[k].2 + a));
        assert(spans_of(spans@) =~= before.push(goal[k as int]));
        assert(goal.take(k + 1) =~= goal.take(k as int).push(goal[k as int]));
        k = k + 1;
    }
    assert(goal.take(k as int) =~= goal);
    Some(ObjectLine { open: a + 1, spans })
}

/// Returns what stands before, between and behind the values of a line.
fn read_gaps(line: &[u8], spans: &Vec<(usize, usize)>, Ghost(from): Ghost<int>) -> (out: Vec<
    Vec<u8>,
>)
    requires
        0 <= from,
        spans_ok(line@, spans_of(spans@), from),
    ensures
        fields_of(out@) == gaps(line@, spans_of(spans@)),
{
    let ghost sp = spans_of(spans@);
    let ghost goal = gaps(line@, sp);
    let mut out: Vec<Vec<u8>> = Vec::new();
    let mut start: usize = 0;
    assert(fields_of(out@) =~= goal.take(0));
    let mut k: usize = 0;
    while k < spans.len()
        invariant
            k <= spans@.len(),
            sp == spans_of(spans@),
            goal == gaps(line@, sp),
            0 <= from,
            spans_ok(line@, sp, from),
            start == (if k == 0 {
                0
            } else {
                sp[k - 1].1
            }),
            start <= line.len(),
            fields_of(out@) == goal.take(k as int),
        decreases spans.len() - k,
    {
        assert(sp[k as int] == (spans@[k as int].0 as int, spans@[k as int].1 as int));
        assert(sp[k as int].1 < line.len());
        if k > 0 {
            assert(sp[k - 1].1 < sp[k as int].0);
        }
        let ghost before = fields_of(out@);
        out.push(copy_of(&line[start..spans[k].0]));
        proof {
            assert(fields_of(out@) =~= before.push(goal[k as int]));
            assert(goal.take(k + 1) =~= goal.take(k as int).push(goal[k as int]));
        }
        start = spans[k].1;
        k = k + 1;
    }
    let ghost before = fields_of(out@);
    out.push(copy_of(&line[start..line.len()]));
    proof {
        assert(fields_of(out@) =~= before.push(goal[k as int]));
        assert(goal.take(k + 1) =~= goal.take(k as int).push(goal[k as int]));
        assert(goal.take(k + 1) =~= goal);
    }
    out
}

/// Returns the values of a line.
fn read_cells(line: &[u8], spans: &Vec<(usize, usize)>, Ghost(from): Ghost<int>) -> (out: Vec<
    Vec<u8>,
>)
    requires
        0 <= from,
        spans_ok(line@, spans_of(spans@), from),
    ensures
        fields_of(out@) == cells(line@, spans_of(spans@)),
{
    let ghost sp = spans_of(spans@);
    let mut out: Vec<Vec<u8>> = Vec::new();
    let mut k: usize = 0;
    while k < spans.len()
        invariant
            k <= spans@.len(),
            sp == spans_of(spans@),
            0 <= from,
            spans_ok(line@, sp, from),
            out@.len() == k,
            forall|j: int| 0 <= j < k ==> (#[trigger] out@[j])@ == cells(line@, sp)[j],
        decreases spans.len() - k,
    {
        assert(sp[k as int] == (spans@[k as int].0 as int, spans@[k as int].1 as int));
        assert(sp[k as int].0 < sp[k as int].1 < line.len());
        out.push(copy_of(&line[spans[k].0..spans[k].1]));
        k = k + 1;
    }
    assert(fields_of(out@) =~= cells(line@, sp));
    out
}

/// Returns whether two lists hold the same blocks.
fn same_lists(a: &Vec<Vec<u8>>, b: &Vec<Vec<u8>>) -> (r: bool)
    ensures
        r == (fields_of(a@) == fields_of(b@)),
{
    if a.len() != b.len() {
        assert(fields_of(a@).len() != fields_of(b@).len());
        return false;
    }
    let mut i: usize = 0;
    while i < a.len()
        invariant
            i <= a@.len(),
            a@.len() == b@.len(),
            forall|j: int| 0 <= j < i ==> fields_of(a@)[j] == fields_of(b@)[j],
        decreases a.len() - i,
    {
        if !same(a[i].as_slice(), b[i].as_slice()) {
            assert(fields_of(a@)[i as int] != fields_of(b@)[i as int]);
            return false;
        }
        i = i + 1;
    }
    assert(fields_of(a@) =~= fields_of(b@));
    true
}

/// The line ends as places in the data.
spec fn ends_ok(data: Seq<u8>, ends: Seq<usize>) -> bool {
    &&& ends.len() == ends_of(data).len()
    &&& forall|k: int| 0 <= k < ends.len() ==> #[trigger] ends[k] == ends_of(data)[k]
}

/// Returns line `k`.
fn line_at<'a>(data: &'a [u8], ends: &Vec<usize>, k: usize) -> (s: &'a [u8])
    requires
        ends_ok(data@, ends@),
        k < ends@.len(),
    ensures
        s@ == line(data@, k as int),
{
    proof {
        lemma_line_ends(data@, data@.len());
        assert(ends@[k as int] == ends_of(data@)[k as int]);
        if k > 0 {
            assert(ends@[k - 1] == ends_of(data@)[k - 1]);
            assert(ends_of(data@)[k - 1] < ends_of(data@)[k as int]);
        }
    }
    let start: usize = if k == 0 {
        0
    } else {
        ends[k - 1]
    };
    assert(ends@[k as int] <= data.len());
    &data[start..ends[k]]
}

/// Finds the longest run of alike lines, as its first line and its length. The
/// length is 0 if no line holds an object.
fn find_objects(data: &[u8], ends: &Vec<usize>) -> (r: (usize, usize))
    requires
        ends_ok(data@, ends@),
    ensures
        r.1 == 0 ==> forall|s: int, l: int| !#[trigger] objects_at(data@, s, l),
        r.1 > 0 ==> is_longest_run(data@, r.0 as int, r.1 as int),
{
    let n: usize = ends.len();
    let mut best_start: usize = 0;
    let mut best_len: usize = 0;
    let mut run_start: usize = 0;
    let mut run_len: usize = 0;
    let mut run_gaps: Vec<Vec<u8>> = Vec::new();
    let mut i: usize = 0;
    while i < n
        invariant
            n == ends@.len(),
            ends_ok(data@, ends@),
            i <= n,
            run_len > 0 ==> objects_at(data@, run_start as int, run_len as int) && run_start
                + run_len == i && line_gaps(data@, run_start as int) == Some(fields_of(run_gaps@)),
            run_len > 0 && run_start > 0 ==> line_gaps(data@, run_start - 1) != line_gaps(
                data@,
                run_start as int,
            ),
            run_len == 0 && i > 0 ==> line_gaps(data@, i - 1) is None,
            best_len > 0 ==> objects_at(data@, best_start as int, best_len as int) && best_start
                + best_len <= i,
            forall|s: int, l: int| #[trigger]
                objects_at(data@, s, l) && s + l <= i ==> l < best_len || (l == best_len && s
                    >= best_start),
        decreases n - i,
    {
        proof {
            lemma_value_spans(line(data@, i as int));
        }
        let ghost (bs, bl) = (best_start as int, best_len as int);
        let ghost (was_start, was_len) = (run_start as int, run_len as int);
        let here: &[u8] = line_at(data, ends, i);
        match read_object(here) {
            None => {
                run_len = 0;
                assert(line_gaps(data@, i as int) is None);
            },
            Some(o) => {
                let around: Vec<Vec<u8>> = read_gaps(
                    here,
                    &o.spans,
                    Ghost(object_open(here@)),
                );
                assert(line_gaps(data@, i as int) == Some(fields_of(around@)));
                if run_len > 0 && same_lists(&around, &run_gaps) {
                    run_len = run_len + 1;
                } else {
                    assert(was_len > 0 ==> line_gaps(data@, i - 1) == line_gaps(data@, was_start));
                    run_start = i;
                    run_gaps = around;
                    run_len = 1;
                }
                assert(objects_at(data@, run_start as int, run_len as int));
                if run_len > best_len {
                    best_len = run_len;
                    best_start = run_start;
                }
            },
        }
        proof {
            assert forall|s: int, l: int| #[trigger] objects_at(data@, s, l) && s + l <= i
                + 1 implies l < best_len || (l == best_len && s >= best_start) by {
                if s + l == i + 1 {
                    assert(line_gaps(data@, i as int) is Some);
                    assert(line_gaps(data@, i as int) == line_gaps(data@, s));
                    if s < run_start {
                        assert(line_gaps(data@, run_start - 1) == line_gaps(data@, s));
                        assert(line_gaps(data@, run_start as int) == line_gaps(data@, s));
                    }
                } else {
                    assert(l < bl || (l == bl && s >= bs));
                }
            }
        }
        i = i + 1;
    }
    proof {
        assert forall|s: int, l: int| best_len == 0 implies !#[trigger] objects_at(data@, s, l) by {
            if objects_at(data@, s, l) {
                assert(s + l <= n);
            }
        }
    }
    (best_start, best_len)
}

/// Reads the `l` alike lines from line `s` on into a table.
fn read_objects(data: &[u8], ends: &Vec<usize>, s: usize, l: usize) -> (t: Table)
    requires
        ends_ok(data@, ends@),
        1 <= l,
        s + l <= ends@.len(),
        alike(data@, s as int, l as int),
    ensures
        t@ == objects_table(data@, s as int, l as int),
{
    let ghost goal = objects_table(data@, s as int, l as int);
    let first: &[u8] = line_at(data, ends, s);
    proof {
        lemma_value_spans(first@);
        assert(line_gaps(data@, s as int) is Some);
    }
    let mut lead: Vec<Vec<u8>> = Vec::new();
    let mut between: Vec<Vec<u8>> = Vec::new();
    let mut close: Vec<u8> = Vec::new();
    if let Some(o) = read_object(first) {
        let ghost sp = spans_of(o.spans@);
        assert(sp[0] == (o.spans@[0].0 as int, o.spans@[0].1 as int));
        assert(sp[0].0 < sp[0].1 < first.len());
        let around: Vec<Vec<u8>> = read_gaps(first, &o.spans, Ghost(o.open as int));
        lead.push(copy_of(&first[0..o.open]));
        lead.push(copy_of(&first[o.open..o.spans[0].0]));
        assert(fields_of(lead@) =~= goal.lead);
        assert(fields_of(around@).len() == sp.len() + 1);
        let mut k: usize = 1;
        while k < around.len() - 1
            invariant
                1 <= k <= around@.len() - 1,
                around.len() >= 2,
                between@.len() == k - 1,
                fields_of(around@).len() == around@.len(),
                forall|j: int|
                    0 <= j < k - 1 ==> (#[trigger] between@[j])@ == fields_of(around@)[j + 1],
            decreases around.len() - k,
        {
            between.push(copy_of(around[k].as_slice()));
            k = k + 1;
        }
        assert(fields_of(between@) =~= goal.between);
        close = copy_of(around[around.len() - 1].as_slice());
        assert(close@ == goal.close);
    }
    let mut rows: Vec<Vec<Vec<u8>>> = Vec::new();
    let mut r: usize = 0;
    while r < l
        invariant
            r <= l,
            ends_ok(data@, ends@),
            s + l <= ends.len(),
            alike(data@, s as int, l as int),
            goal == objects_table(data@, s as int, l as int),
            rows@.len() == r,
            forall|j: int| 0 <= j < r ==> fields_of((#[trigger] rows@[j])@) == goal.rows[j],
        decreases l - r,
    {
        let here: &[u8] = line_at(data, ends, s + r);
        proof {
            lemma_value_spans(here@);
            assert(line_gaps(data@, s + r) is Some);
        }
        if let Some(o) = read_object(here) {
            rows.push(read_cells(here, &o.spans, Ghost(o.open as int)));
        }
        r = r + 1;
    }
    let t: Table = Table { lead, between, close, rows };
    assert(t@.rows =~= goal.rows);
    t
}

/// Finds the longest run of lines that hold objects with the same keys and the
/// same bytes around their values, and turns it into a table scan with macro
/// `next_sub_id`, if that pays off.
pub fn detect_scan_json(data: &[u8], next_sub_id: u32) -> (r: Option<ScanResult>)
    ensures
        match r {
            Some(found) => objects_fire(data@, next_sub_id) && is_objects_split(
                found,
                data@,
                next_sub_id,
            ),
            None => !objects_fire(data@, next_sub_id),
        },
{
    let ends: Vec<usize> = find_line_ends(data);
    proof {
        lemma_line_ends(data@, data@.len());
        assert(ends@.map_values(|e: usize| e as int).len() == ends@.len());
        assert forall|k: int| 0 <= k < ends@.len() implies #[trigger] ends@[k] == ends_of(
            data@,
        )[k] by {
            assert(ends@.map_values(|e: usize| e as int)[k] == ends@[k]);
        }
    }
    let (s, l) = find_objects(data, &ends);
    proof {
        assert forall|s2: int, l2: int| is_longest_run(data@, s2, l2) implies l > 0 && s2 == s && l2
            == l by {
            assert(objects_at(data@, s2, l2));
            assert(objects_at(data@, s as int, l as int));
        }
    }
    if l < MIN_SCAN_ROWS {
        assert(forall|s2: int, l2: int| !#[trigger] run_fires(data@, next_sub_id, s2, l2));
        return None;
    }
    let table: Table = read_objects(data, &ends, s, l);
    let from: usize = if s == 0 {
        0
    } else {
        ends[s - 1]
    };
    let to: usize = ends[s + l - 1];
    proof {
        lemma_objects_stand(data@, s as int, l as int);
    }
    let r: Option<ScanResult> = propose(&table, data, from, to, next_sub_id);
    proof {
        if r is None {
            assert forall|s2: int, l2: int| !#[trigger] run_fires(data@, next_sub_id, s2, l2) by {
                if is_longest_run(data@, s2, l2) {
                    assert(s2 == s && l2 == l);
                }
            }
        } else {
            assert(run_fires(data@, next_sub_id, s as int, l as int));
        }
    }
    r
}

} // verus!
