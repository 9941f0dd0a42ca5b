//! Operations on byte sequences: copying, comparing, searching, and the
//! little-endian integer codes of the container headers.

use vstd::prelude::*;
use vstd::slice::slice_to_vec;

verus! {

/// Returns an owned copy of `src`.
pub fn copy_of(src: &[u8]) -> (out: Vec<u8>)
    ensures
        out@ == src@,
{
    slice_to_vec(src)
}

/// Appends `src` to `dst`.
pub fn append(dst: &mut Vec<u8>, src: &[u8])
    ensures
        final(dst)@ == old(dst)@ + src@,
{
    let ghost before = dst@;
    dst.extend_from_slice(src);
    assert(dst@ =~= before + src@);
}

/// Returns whether the two sequences hold the same bytes.
pub fn same(a: &[u8], b: &[u8]) -> (r: bool)
    ensures
        r == (a@ == b@),
{
    if a.len() != b.len() {
        return false;
    }
    let mut i: usize = 0;
    while i < a.len()
        invariant
            i <= a.len(),
            a.len() == b.len(),
            forall|j: int| 0 <= j < i ==> a@[j] == b@[j],
        decreases a.len() - i,
    {
        if a[i] != b[i] {
            return false;
        }
        i = i + 1;
    }
    assert(a@ =~= b@);
    true
}

/// Lexicographic order of byte sequences, a proper prefix coming first.
pub open spec fn lex_less(a: Seq<u8>, b: Seq<u8>) -> bool
    decreases a.len(),
{
    if b.len() == 0 {
        false
    } else if a.len() == 0 {
        true
    } else {
        a[0] < b[0] || (a[0] == b[0] && lex_less(a.drop_first(), b.drop_first()))
    }
}

/// Where two sequences first differ decides their order.
pub proof fn lemma_lex_at(a: Seq<u8>, b: Seq<u8>, n: nat)
    requires
        n <= a.len(),
        n <= b.len(),
        forall|i: int| 0 <= i < n ==> a[i] == b[i],
    ensures
        n < a.len() && n < b.len() && a[n as int] < b[n as int] ==> lex_less(a, b),
        n < a.len() && n < b.len() && a[n as int] > b[n as int] ==> !lex_less(a, b),
        n == a.len() ==> (lex_less(a, b) <==> a.len() < b.len()),
        n == b.len() ==> !lex_less(a, b),
    decreases n,
{
    if n > 0 {
        let (x, y) = (a.drop_first(), b.drop_first());
        assert forall|i: int| 0 <= i < n - 1 implies x[i] == y[i] by {
            assert(a[i + 1] == b[i + 1]);
        }
        lemma_lex_at(x, y, (n - 1) as nat);
    }
}

/// The order is total and strict.
pub proof fn lemma_lex_total(a: Seq<u8>, b: Seq<u8>)
    ensures
        lex_less(a, b) || lex_less(b, a) || a == b,
        !(lex_less(a, b) && lex_less(b, a)),
        lex_less(a, b) ==> a != b,
        !lex_less(a, a),
    decreases a.len(),
{
    if a.len() > 0 && b.len() > 0 {
        lemma_lex_total(a.drop_first(), b.drop_first());
        if a[0] == b[0] && a.drop_first() == b.drop_first() {
            assert(a =~= seq![a[0]] + a.drop_first());
            assert(b =~= seq![b[0]] + b.drop_first());
        }
        lemma_lex_total(a.drop_first(), a.drop_first());
    } else if a.len() == 0 && b.len() == 0 {
        assert(a =~= b);
    } else if a.len() > 0 {
        lemma_lex_total(a.drop_first(), a.drop_first());
    }
}

/// The order is transitive.
pub proof fn lemma_lex_transitive(a: Seq<u8>, b: Seq<u8>, c: Seq<u8>)
    requires
        lex_less(a, b),
        lex_less(b, c),
    ensures
        lex_less(a, c),
    decreases a.len(),
{
    if a.len() > 0 && a[0] == b[0] && b[0] == c[0] {
        lemma_lex_transitive(a.drop_first(), b.drop_first(), c.drop_first());
    }
}

/// Returns whether `a` comes before `b` in lexicographic order.
pub fn is_before(a: &[u8], b: &[u8]) -> (r: bool)
    ensures
        r == lex_less(a@, b@),
{
    let mut i: usize = 0;
    while i < a.len() && i < b.len()
        invariant
            i <= a.len(),
            i <= b.len(),
            forall|j: int| 0 <= j < i ==> a@[j] == b@[j],
        decreases a.len() - i,
    {
        if a[i] != b[i] {
            proof {
                lemma_lex_at(a@, b@, i as nat);
            }
            return a[i] < b[i];
        }
        i = i + 1;
    }
    proof {
        lemma_lex_at(a@, b@, i as nat);
    }
    a.len() < b.len()
}

/// The number that four bytes spell, least significant first.
#[verifier::opaque]
pub open spec fn le32_value(s: Seq<u8>) -> nat {
    (s[0] + 256 * s[1] + 65536 * s[2] + 16777216 * s[3]) as nat
}

/// The four bytes of a 32-bit number, least significant first.
#[verifier::opaque]
pub open spec fn le32_bytes(v: nat) -> Seq<u8> {
    seq![
        (v % 256) as u8,
        (v / 256 % 256) as u8,
        (v / 65536 % 256) as u8,
        (v / 16777216 % 256) as u8,
    ]
}

/// The two bytes of a 16-bit number, least significant first.
pub open spec fn le16_bytes(v: nat) -> Seq<u8> {
    seq![(v % 256) as u8, (v / 256 % 256) as u8]
}

/// The number that two bytes spell, least significant first.
pub open spec fn le16_value(s: Seq<u8>) -> nat {
    (s[0] + 256 * s[1]) as nat
}

/// The eight bytes of a 64-bit number, least significant first.
pub open spec fn le64_bytes(v: nat) -> Seq<u8> {
    le32_bytes(v % 0x1_0000_0000) + le32_bytes(v / 0x1_0000_0000)
}

/// The number that eight bytes spell, least significant first.
pub open spec fn le64_value(s: Seq<u8>) -> nat {
    le32_value(s.take(4)) + 0x1_0000_0000 * le32_value(s.subrange(4, 8))
}

/// A 32-bit number has four bytes.
pub broadcast proof fn lemma_le32_len(v: nat)
    ensures
        #[trigger] le32_bytes(v).len() == 4,
{
    reveal(le32_bytes);
}

/// Four bytes spell a 32-bit number.
pub broadcast proof fn lemma_le32_bound(s: Seq<u8>)
    requires
        s.len() == 4,
    ensures
        #[trigger] le32_value(s) < 0x1_0000_0000,
{
    reveal(le32_value);
}

/// Writing a number and reading it back gives the number.
pub proof fn lemma_le32(v: nat)
    requires
        v < 0x1_0000_0000,
    ensures
        le32_value(le32_bytes(v)) == v,
        le32_bytes(v).len() == 4,
{
    reveal(le32_bytes);
    reveal(le32_value);
    let b = le32_bytes(v);
    assert(v == v % 256 + 256 * (v / 256));
    assert(v / 256 == v / 256 % 256 + 256 * (v / 65536));
    assert(v / 65536 == v / 65536 % 256 + 256 * (v / 16777216));
}

/// Reading four bytes and writing the number gives the bytes.
pub proof fn lemma_le32_back(s: Seq<u8>)
    requires
        s.len() == 4,
    ensures
        le32_bytes(le32_value(s)) == s,
        le32_value(s) < 0x1_0000_0000,
{
    reveal(le32_bytes);
    reveal(le32_value);
    let v = le32_value(s);
    assert(v % 256 == s[0]);
    assert(v / 256 == s[1] + 256 * s[2] + 65536 * s[3]);
    assert(v / 65536 == s[2] + 256 * s[3]);
    assert(v / 16777216 == s[3]);
    assert(le32_bytes(v) =~= s);
}

pub proof fn lemma_le16(v: nat)
    requires
        v < 0x1_0000,
    ensures
        le16_value(le16_bytes(v)) == v,
{
}

pub proof fn lemma_le64(v: nat)
    requires
        v < 0x1_0000_0000_0000_0000,
    ensures
        le64_value(le64_bytes(v)) == v,
        le64_bytes(v).len() == 8,
{
    broadcast use lemma_le32_len;

    let s = le64_bytes(v);
    assert(s.take(4) =~= le32_bytes(v % 0x1_0000_0000));
    assert(s.subrange(4, 8) =~= le32_bytes(v / 0x1_0000_0000));
    lemma_le32(v % 0x1_0000_0000);
    lemma_le32(v / 0x1_0000_0000);
}

/// Appends the four bytes of `v`.
pub fn push_le32(dst: &mut Vec<u8>, v: u32)
    ensures
        final(dst)@ == old(dst)@ + le32_bytes(v as nat),
{
    let ghost before = dst@;
    dst.push((v % 256) as u8);
    dst.push((v / 256 % 256) as u8);
    dst.push((v / 65536 % 256) as u8);
    dst.push((v / 16777216 % 256) as u8);
    reveal(le32_bytes);
    assert(dst@ =~= before + le32_bytes(v as nat));
}

/// Appends the two bytes of `v`.
pub fn push_le16(dst: &mut Vec<u8>, v: u16)
    ensures
        final(dst)@ == old(dst)@ + le16_bytes(v as nat),
{
    let ghost before = dst@;
    dst.push((v % 256) as u8);
    dst.push((v / 256 % 256) as u8);
    assert(dst@ =~= before + le16_bytes(v as nat));
}

/// Appends the eight bytes of `v`.
pub fn push_le64(dst: &mut Vec<u8>, v: u64)
    ensures
        final(dst)@ == old(dst)@ + le64_bytes(v as nat),
{
    let ghost before = dst@;
    push_le32(dst, (v % 0x1_0000_0000) as u32);
    push_le32(dst, (v / 0x1_0000_0000) as u32);
    assert(dst@ =~= before + le64_bytes(v as nat));
}

/// Reads the four bytes at `at`.
pub fn read_le32(data: &[u8], at: usize) -> (v: u32)
    requires
        at + 4 <= data@.len(),
    ensures
        v == le32_value(data@.subrange(at as int, at + 4)),
{
    reveal(le32_value);
    let (b0, b1, b2, b3) = (data[at], data[at + 1], data[at + 2], data[at + 3]);
    b0 as u32 + 256 * (b1 as u32) + 65536 * (b2 as u32) + 16777216 * (b3 as u32)
}

/// Reads the two bytes at `at`.
pub fn read_le16(data: &[u8], at: usize) -> (v: u16)
    requires
        at + 2 <= data@.len(),
    ensures
        v == le16_value(data@.subrange(at as int, at + 2)),
{
    data[at] as u16 + 256 * (data[at + 1] as u16)
}

/// Reads the eight bytes at `at`.
pub fn read_le64(data: &[u8], at: usize) -> (v: u64)
    requires
        at + 8 <= data@.len(),
    ensures
        v == le64_value(data@.subrange(at as int, at + 8)),
{
    assert(at + 8 <= data.len());
    let lo: u32 = read_le32(data, at);
    let hi: u32 = read_le32(data, at + 4);
    proof {
        let s = data@.subrange(at as int, at + 8);
        assert(s.take(4) =~= data@.subrange(at as int, at + 4));
        assert(s.subrange(4, 8) =~= data@.subrange(at + 4, at + 8));
    }
    lo as u64 + 0x1_0000_0000 * (hi as u64)
}

} // verus!
