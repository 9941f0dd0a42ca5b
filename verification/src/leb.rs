//! Unsigned LEB128, the variable-length integer code of every operand.

use vstd::prelude::*;
use crate::vm_error::VmError;

verus! {

/// The shortest LEB128 code of a number: seven bits per byte, least significant
/// first, with the high bit set on every byte but the last.
pub open spec fn leb_bytes(v: nat) -> Seq<u8>
    decreases v,
{
    if v < 128 {
        seq![v as u8]
    } else {
        seq![(v % 128 + 128) as u8] + leb_bytes(v / 128)
    }
}

/// The number of bytes in the code of a number.
pub open spec fn leb_size(v: nat) -> nat
    decreases v,
{
    if v < 128 {
        1
    } else {
        1 + leb_size(v / 128)
    }
}

/// The number written by the low seven bits of each byte.
pub open spec fn leb_value(s: Seq<u8>) -> nat
    decreases s.len(),
{
    if s.len() == 0 {
        0
    } else {
        (s[0] as nat) % 128 + 128 * leb_value(s.drop_first())
    }
}

/// How many leading bytes have the high bit set.
pub open spec fn leb_run(s: Seq<u8>) -> nat
    decreases s.len(),
{
    if s.len() == 0 || s[0] < 128 {
        0
    } else {
        1 + leb_run(s.drop_first())
    }
}

/// What reading a code from the front of `s` gives: the number, cut down to 32
/// bits, and how many bytes it took. There is none when the sequence ends
/// inside the code or the code is longer than five bytes.
pub open spec fn leb_parse(s: Seq<u8>) -> Option<(u32, nat)> {
    let n = leb_run(s) + 1;
    if n <= s.len() && n <= 5 {
        Some(((leb_value(s.take(n as int)) % 0x1_0000_0000) as u32, n))
    } else {
        None
    }
}

/// A sequence read so far extends by one byte with the weight of its position.
proof fn lemma_leb_value_push(s: Seq<u8>, b: u8)
    requires
        s.len() <= 4,
    ensures
        s.len() == 0 ==> leb_value(s.push(b)) == leb_value(s) + (b as nat) % 128,
        s.len() == 1 ==> leb_value(s.push(b)) == leb_value(s) + ((b as nat) % 128) * 128,
        s.len() == 2 ==> leb_value(s.push(b)) == leb_value(s) + ((b as nat) % 128) * 16384,
        s.len() == 3 ==> leb_value(s.push(b)) == leb_value(s) + ((b as nat) % 128) * 2097152,
        s.len() == 4 ==> leb_value(s.push(b)) == leb_value(s) + ((b as nat) % 128) * 268435456,
    decreases s.len(),
{
    if s.len() == 0 {
        assert(s.push(b).drop_first() =~= Seq::<u8>::empty());
        assert(leb_value(Seq::<u8>::empty()) == 0);
    } else {
        assert(s.push(b).drop_first() =~= s.drop_first().push(b));
        lemma_leb_value_push(s.drop_first(), b);
    }
}

/// The run of high bytes ends where the first byte below 128 stands.
proof fn lemma_leb_run_at(s: Seq<u8>, n: nat)
    requires
        n <= s.len(),
        forall|i: int| 0 <= i < n ==> s[i] >= 128,
    ensures
        n < s.len() && s[n as int] < 128 ==> leb_run(s) == n,
        n == s.len() ==> leb_run(s) == n,
        leb_run(s) >= n,
    decreases n,
{
    if n > 0 {
        assert forall|i: int| 0 <= i < n - 1 implies s.drop_first()[i] >= 128 by {
            assert(s.drop_first()[i] == s[i + 1]);
        }
        lemma_leb_run_at(s.drop_first(), (n - 1) as nat);
    }
}

/// Reads one LEB128 number from the front of `data`.
///
/// The result is the number, cut down to 32 bits, and the number of bytes read.
pub fn decode_leb128(data: &[u8]) -> (r: Result<(u32, usize), VmError>)
    ensures
        match leb_parse(data@) {
            Some((v, n)) => r matches Ok((w, m)) && w == v && m == n,
            None => r == Err::<(u32, usize), VmError>(VmError::TruncatedProgram),
        },
{
    let mut acc: u64 = 0;
    let mut scale: u64 = 1;
    let mut i: usize = 0;
    while i < data.len()
        invariant
            i <= data.len(),
            i <= 5,
            acc == leb_value(data@.take(i as int)),
            i == 0 ==> scale == 1 && acc == 0,
            i == 1 ==> scale == 128 && acc < 128,
            i == 2 ==> scale == 16384 && acc < 16384,
            i == 3 ==> scale == 2097152 && acc < 2097152,
            i == 4 ==> scale == 268435456 && acc < 268435456,
            i == 5 ==> scale == 34359738368,
            forall|j: int| 0 <= j < i ==> data@[j] >= 128,
        decreases data.len() - i,
    {
        proof {
            lemma_leb_run_at(data@, i as nat);
        }
        if i >= 5 {
            return Err(VmError::TruncatedProgram);
        }
        let b: u8 = data[i];
        let low: u64 = (b % 128) as u64;
        proof {
            assert(data@.take(i + 1) =~= data@.take(i as int).push(b));
            lemma_leb_value_push(data@.take(i as int), b);
            assert(0 <= low * scale <= 127 * 268435456) by (nonlinear_arith)
                requires
                    0 <= low < 128,
                    0 <= scale <= 268435456,
            ;
        }
        acc = acc + low * scale;
        if b < 128 {
            return Ok(((acc % 0x1_0000_0000) as u32, i + 1));
        }
        scale = scale * 128;
        i = i + 1;
    }
    proof {
        lemma_leb_run_at(data@, i as nat);
    }
    Err(VmError::TruncatedProgram)
}

/// Returns the shortest LEB128 code of `value`.
pub fn encode_leb128(value: u32) -> (out: Vec<u8>)
    ensures
        out@ == leb_bytes(value as nat),
        out@.len() == leb_size(value as nat),
{
    let mut out: Vec<u8> = Vec::new();
    let mut rest: u32 = value;
    while rest >= 128
        invariant
            out@ + leb_bytes(rest as nat) == leb_bytes(value as nat),
        decreases rest,
    {
        let ghost before = out@;
        let byte: u8 = (rest % 128 + 128) as u8;
        out.push(byte);
        proof {
            assert(out@ + leb_bytes((rest / 128) as nat) =~= before + (seq![byte] + leb_bytes(
                (rest / 128) as nat,
            )));
        }
        rest = rest / 128;
    }
    out.push(rest as u8);
    proof {
        lemma_leb_bytes(value as nat);
    }
    out
}

/// The code of a number ends with its only byte below 128, spells the number,
/// and has the stated size.
pub proof fn lemma_leb_bytes(v: nat)
    ensures
        leb_bytes(v).len() == leb_size(v),
        leb_size(v) >= 1,
        leb_value(leb_bytes(v)) == v,
        leb_bytes(v).last() < 128,
        forall|i: int| 0 <= i < leb_size(v) - 1 ==> leb_bytes(v)[i] >= 128,
    decreases v,
{
    if v < 128 {
        assert(leb_bytes(v).drop_first() =~= Seq::<u8>::empty());
        assert(leb_value(leb_bytes(v).drop_first()) == 0);
    } else {
        lemma_leb_bytes(v / 128);
        let head = (v % 128 + 128) as u8;
        let tail = leb_bytes(v / 128);
        assert(leb_bytes(v).drop_first() =~= tail);
        assert(leb_bytes(v)[0] == head);
        assert forall|i: int| 0 <= i < leb_size(v) - 1 implies leb_bytes(v)[i] >= 128 by {
            if i > 0 {
                assert(leb_bytes(v)[i] == tail[i - 1]);
            }
        }
    }
}

/// How long the codes of 32-bit numbers are.
pub proof fn lemma_leb_size(v: nat)
    ensures
        v < 128 ==> leb_size(v) == 1,
        128 <= v < 16384 ==> leb_size(v) == 2,
        16384 <= v < 2097152 ==> leb_size(v) == 3,
        2097152 <= v < 268435456 ==> leb_size(v) == 4,
        268435456 <= v < 0x1_0000_0000 ==> leb_size(v) == 5,
        v < 0x1_0000_0000 ==> leb_size(v) <= 5,
{
    reveal_with_fuel(leb_size, 6);
}

/// A larger number never has a shorter code.
pub proof fn leb_size_is_monotonic(a: nat, b: nat)
    requires
        a <= b,
    ensures
        leb_size(a) <= leb_size(b),
    decreases b,
{
    if b >= 128 && a >= 128 {
        leb_size_is_monotonic(a / 128, b / 128);
    } else if b >= 128 {
        lemma_leb_bytes(b / 128);
    }
}

/// Reading undoes writing: the code of a 32-bit number, with anything behind
/// it, reads back as the number and is consumed exactly.
pub proof fn leb_read_undoes_write(v: u32, rest: Seq<u8>)
    ensures
        leb_parse(leb_bytes(v as nat) + rest) == Some((v, leb_size(v as nat))),
{
    let code = leb_bytes(v as nat);
    let s = code + rest;
    let n = leb_size(v as nat);
    lemma_leb_bytes(v as nat);
    lemma_leb_size(v as nat);
    assert(s[n - 1] == code.last());
    lemma_leb_run_at(s, (n - 1) as nat);
    assert(s.take(n as int) =~= code);
}

/// The code that is written is the shortest one: whatever reads as `v` takes at
/// least as many bytes.
pub proof fn leb_write_is_shortest(s: Seq<u8>)
    ensures
        leb_parse(s) matches Some((v, n)) ==> leb_size(v as nat) <= n,
{
    if let Some((v, n)) = leb_parse(s) {
        let full = leb_value(s.take(n as int));
        lemma_leb_value_bound(s.take(n as int));
        leb_size_is_monotonic(v as nat, full);
    }
}

/// A sequence of `n` bytes spells a number whose code has at most `n` bytes.
proof fn lemma_leb_value_bound(s: Seq<u8>)
    requires
        s.len() >= 1,
    ensures
        leb_size(leb_value(s)) <= s.len(),
    decreases s.len(),
{
    let rest = s.drop_first();
    if s.len() == 1 {
        assert(leb_value(rest) == 0);
    } else {
        lemma_leb_value_bound(rest);
        assert(leb_value(s) / 128 == leb_value(rest));
    }
}

/// The number that is read depends only on the bytes that are consumed.
pub proof fn lemma_leb_parse_prefix(s: Seq<u8>, rest: Seq<u8>)
    ensures
        leb_parse(s) is Some ==> leb_parse(s + rest) == leb_parse(s),
        leb_parse(s) matches Some((v, n)) ==> 1 <= n <= 5 && n <= s.len(),
{
    let n = leb_run(s);
    lemma_leb_run_bound(s);
    if n + 1 <= s.len() {
        lemma_leb_run_at(s + rest, n);
        assert((s + rest).take((n + 1) as int) =~= s.take((n + 1) as int));
    }
}

proof fn lemma_leb_run_bound(s: Seq<u8>)
    ensures
        leb_run(s) <= s.len(),
        forall|i: int| 0 <= i < leb_run(s) ==> s[i] >= 128,
        leb_run(s) < s.len() ==> s[leb_run(s) as int] < 128,
    decreases s.len(),
{
    if s.len() > 0 && s[0] >= 128 {
        lemma_leb_run_bound(s.drop_first());
        assert forall|i: int| 0 <= i < leb_run(s) implies s[i] >= 128 by {
            if i > 0 {
                assert(s.drop_first()[i - 1] == s[i]);
            }
        }
        if leb_run(s) < s.len() {
            assert(s.drop_first()[leb_run(s) - 1] == s[leb_run(s) as int]);
        }
    }
}

} // verus!
