//! What the transforms do to the end of the output.

use vstd::prelude::*;
use crate::bytes::{le32_bytes, le32_value, lemma_le32, lemma_le32_back};
use crate::guarantees::transforms_keep_the_length;
use crate::laws::codes::fixed_numbers_add_up_their_bytes;
use crate::machine::{
    byte_sum, map_step, running_words, transformed, word, word_sum, State, Transform,
};
use crate::vm_error::VmError;

verus! {

broadcast use {crate::bytes::lemma_le32_len, crate::bytes::lemma_le32_bound};

/// The number that four bytes from `at` on spell, the lowest byte first.
pub open spec fn number_in(s: Seq<u8>, at: int) -> int {
    s[at] + 0x100 * s[at + 1] + 0x1_0000 * s[at + 2] + 0x100_0000 * s[at + 3]
}

/// Two's complement of a signed 32-bit number.
pub open spec fn complement(v: int) -> int {
    if v >= 0 {
        v
    } else {
        v + 0x1_0000_0000
    }
}

proof fn lemma_number(s: Seq<u8>)
    requires
        s.len() == 4,
    ensures
        number_in(s, 0) == le32_value(s),
{
    fixed_numbers_add_up_their_bytes(s);
}

/// Which blocks a transform accepts: any for bytes, four bytes for a number, and
/// whole numbers for sums of numbers.
pub proof fn transforms_accept_by_length(t: Transform, s: Seq<u8>)
    ensures
        t == Transform::IncU8 || t == Transform::DecU8 || t == Transform::DeltaU8 ==> transformed(
            t,
            s,
        ) is Some,
        t == Transform::IncU32 || t == Transform::DecU32 || t == Transform::ByteswapU32 || t
            == Transform::ZigzagU32 ==> (transformed(t, s) is Some <==> s.len() == 4),
        t == Transform::DeltaU32 ==> (transformed(t, s) is Some <==> s.len() % 4 == 0),
        transformed(t, s) matches Some(block) ==> block.len() == s.len(),
{
    transforms_keep_the_length(t, s);
}

/// Incrementing bytes takes each byte to the next, and the last to the first;
/// decrementing takes it back.
pub proof fn increments_take_bytes_to_the_next(s: Seq<u8>, i: int)
    requires
        0 <= i < s.len(),
    ensures
        ({
            let up = transformed(Transform::IncU8, s)->0;
            let down = transformed(Transform::DecU8, s)->0;
            &&& s[i] < 255 ==> up[i] == s[i] + 1
            &&& s[i] == 255 ==> up[i] == 0
            &&& s[i] > 0 ==> down[i] == s[i] - 1
            &&& s[i] == 0 ==> down[i] == 255
        }),
{
}

/// Incrementing a number takes it to the next, and the largest to zero; decrementing
/// takes it back.
pub proof fn increments_take_numbers_to_the_next(s: Seq<u8>)
    requires
        s.len() == 4,
    ensures
        ({
            let n = number_in(s, 0);
            let up = number_in(transformed(Transform::IncU32, s)->0, 0);
            let down = number_in(transformed(Transform::DecU32, s)->0, 0);
            &&& n < 0xFFFF_FFFF ==> up == n + 1
            &&& n == 0xFFFF_FFFF ==> up == 0
            &&& n > 0 ==> down == n - 1
            &&& n == 0 ==> down == 0xFFFF_FFFF
        }),
{
    let v = le32_value(s);
    lemma_number(s);
    lemma_le32((v + 1) % 0x1_0000_0000);
    lemma_le32((v + 0xFFFF_FFFF) % 0x1_0000_0000);
    lemma_number(transformed(Transform::IncU32, s)->0);
    lemma_number(transformed(Transform::DecU32, s)->0);
}

/// Summing bytes turns differences into values: the first byte stays, and each
/// later one differs from the one before it by what stood there, modulo 256.
pub proof fn sums_turn_differences_into_bytes(s: Seq<u8>)
    ensures
        ({
            let out = transformed(Transform::DeltaU8, s)->0;
            &&& s.len() > 0 ==> out[0] == s[0]
            &&& forall|i: int|
                1 <= i < s.len() ==> (out[i - 1] + #[trigger] s[i]) % 256 == out[i] as int
        }),
{
    let out = transformed(Transform::DeltaU8, s)->0;
    if s.len() > 0 {
        assert(byte_sum(s, 1) == byte_sum(s, 0) + s[0]);
    }
    assert forall|i: int| 1 <= i < s.len() implies (out[i - 1] + #[trigger] s[i]) % 256
        == out[i] as int by {
        let before = byte_sum(s, i as nat);
        assert(byte_sum(s, (i + 1) as nat) == before + s[i]);
        assert(out[i - 1] == before % 256);
        assert((before % 256 + s[i]) % 256 == (before + s[i]) as int % 256) by (nonlinear_arith);
    }
}

/// Where the numbers of a running sum stand.
proof fn lemma_running(s: Seq<u8>, n: nat, k: int)
    requires
        0 <= k < n,
    ensures
        running_words(s, n).len() == 4 * n,
        running_words(s, n).subrange(4 * k, 4 * k + 4) == le32_bytes(
            word_sum(s, (k + 1) as nat) % 0x1_0000_0000,
        ),
    decreases n,
{
    let last = le32_bytes(word_sum(s, n) % 0x1_0000_0000);
    let before = running_words(s, (n - 1) as nat);
    if n > 1 {
        lemma_running(s, (n - 1) as nat, if k < n - 1 {
            k
        } else {
            0
        });
    }
    assert(before.len() == 4 * (n - 1));
    let all = running_words(s, n);
    if k < n - 1 {
        assert(all.subrange(4 * k, 4 * k + 4) =~= before.subrange(4 * k, 4 * k + 4));
    } else {
        assert(all.subrange(4 * k, 4 * k + 4) =~= last);
    }
}

/// Summing numbers turns differences into values: the first number stays, and each
/// later one differs from the one before it by what stood there, modulo 2^32.
pub proof fn sums_turn_differences_into_numbers(s: Seq<u8>, k: int)
    requires
        s.len() % 4 == 0,
        0 <= k < s.len() / 4,
    ensures
        ({
            let out = transformed(Transform::DeltaU32, s)->0;
            &&& k == 0 ==> number_in(out, 0) == number_in(s, 0)
            &&& k > 0 ==> (number_in(out, 4 * (k - 1)) + number_in(s, 4 * k)) % 0x1_0000_0000
                == number_in(out, 4 * k)
        }),
{
    let out = transformed(Transform::DeltaU32, s)->0;
    let n = s.len() / 4;
    lemma_word_of_sum(s, k);
    let here = word_sum(s, (k + 1) as nat);
    let before = word_sum(s, k as nat);
    assert(here == before + word(s, k));
    lemma_number(s.subrange(4 * k, 4 * k + 4));
    assert(word(s, k) == number_in(s, 4 * k));
    if k == 0 {
        assert(word_sum(s, 0) == 0);
    } else {
        lemma_word_of_sum(s, k - 1);
        let w = word(s, k) as int;
        let b = before as int;
        assert((b % 0x1_0000_0000 + w) % 0x1_0000_0000 == (b + w) % 0x1_0000_0000)
            by (nonlinear_arith);
    }
}

proof fn lemma_word_of_sum(s: Seq<u8>, k: int)
    requires
        s.len() % 4 == 0,
        0 <= k < s.len() / 4,
    ensures
        number_in(transformed(Transform::DeltaU32, s)->0, 4 * k) == word_sum(s, (k + 1) as nat)
            % 0x1_0000_0000,
{
    let out = transformed(Transform::DeltaU32, s)->0;
    lemma_running(s, s.len() / 4, k);
    let part = out.subrange(4 * k, 4 * k + 4);
    lemma_le32(word_sum(s, (k + 1) as nat) % 0x1_0000_0000);
    lemma_number(part);
    assert(number_in(part, 0) == number_in(out, 4 * k));
}

/// Swapping reverses four bytes.
pub proof fn swaps_reverse_four_bytes(s: Seq<u8>)
    requires
        s.len() == 4,
    ensures
        transformed(Transform::ByteswapU32, s)->0 == s.reverse(),
{
    assert(transformed(Transform::ByteswapU32, s)->0 =~= s.reverse());
}

/// Decoding undoes the zigzag code, which counts 0, -1, 1, -2, 2 and so on: from the
/// code of a signed 32-bit number it makes the number in two's complement.
pub proof fn decoding_undoes_the_zigzag_code(v: int, code: Seq<u8>)
    requires
        -0x8000_0000 <= v < 0x8000_0000,
        code.len() == 4,
        number_in(code, 0) == (if v >= 0 {
            2 * v
        } else {
            -2 * v - 1
        }),
    ensures
        number_in(transformed(Transform::ZigzagU32, code)->0, 0) == complement(v),
{
    lemma_number(code);
    let n = le32_value(code);
    let out = transformed(Transform::ZigzagU32, code)->0;
    lemma_number(out);
    if v >= 0 {
        assert(n % 2 == 0 && n / 2 == v);
        lemma_le32(n / 2);
    } else {
        assert(n % 2 == 1 && n / 2 == -v - 1);
        lemma_le32((0xFFFF_FFFF - n / 2) as nat);
    }
}

/// Different blocks decode to different numbers.
pub proof fn zigzag_decoding_is_injective(s: Seq<u8>, t: Seq<u8>)
    requires
        s.len() == 4,
        t.len() == 4,
        transformed(Transform::ZigzagU32, s) == transformed(Transform::ZigzagU32, t),
    ensures
        s == t,
{
    let (a, b) = (signed_of(s), signed_of(t));
    lemma_signed(s);
    lemma_signed(t);
    decoding_undoes_the_zigzag_code(a, s);
    decoding_undoes_the_zigzag_code(b, t);
    assert(a == b);
    lemma_number(s);
    lemma_number(t);
    lemma_le32_back(s);
    lemma_le32_back(t);
}

/// The signed number whose zigzag code the block is.
spec fn signed_of(s: Seq<u8>) -> int {
    let n = number_in(s, 0);
    if n % 2 == 0 {
        n / 2
    } else {
        -(n / 2) - 1
    }
}

proof fn lemma_signed(s: Seq<u8>)
    requires
        s.len() == 4,
    ensures
        -0x8000_0000 <= signed_of(s) < 0x8000_0000,
        number_in(s, 0) == (if signed_of(s) >= 0 {
            2 * signed_of(s)
        } else {
            -2 * signed_of(s) - 1
        }),
{
    lemma_number(s);
}

/// A transform changes the last bytes of the output and no others, and stops the run
/// if there are too few of them or if it does not accept so many.
pub proof fn transforms_change_the_end_of_the_output(m: State, t: Transform, length: nat)
    ensures
        ({
            let e = map_step(m, t, length);
            let from = m.out.len() - length;
            &&& e.params == m.params
            &&& e.out.len() == m.out.len()
            &&& length > m.out.len() ==> e.out == m.out && e.err == Some(VmError::CpyUnderflow)
            &&& length <= m.out.len() ==> {
                &&& e.out.take(from) == m.out.take(from)
                &&& transformed(t, m.out.skip(from)) matches Some(block) ==> e.err == m.err
                    && e.out.skip(from) == block
                &&& transformed(t, m.out.skip(from)) is None ==> e.out == m.out && e.err == Some(
                    VmError::UnknownMapTransform(t.byte()),
                )
            }
        }),
{
    if length <= m.out.len() {
        let from = m.out.len() - length;
        transforms_keep_the_length(t, m.out.skip(from));
        let e = map_step(m, t, length);
        if let Some(block) = transformed(t, m.out.skip(from)) {
            assert(e.out.skip(from) =~= block);
            assert(e.out.take(from) =~= m.out.take(from));
        }
    }
}

/// The numbers of the transforms in programs.
pub proof fn transforms_have_their_numbers(b: u8)
    ensures
        b == 0 ==> Transform::of_byte(b) == Ok::<Transform, VmError>(Transform::IncU8),
        b == 1 ==> Transform::of_byte(b) == Ok::<Transform, VmError>(Transform::DecU8),
        b == 2 ==> Transform::of_byte(b) == Ok::<Transform, VmError>(Transform::IncU32),
        b == 3 ==> Transform::of_byte(b) == Ok::<Transform, VmError>(Transform::DecU32),
        b == 4 ==> Transform::of_byte(b) == Ok::<Transform, VmError>(Transform::DeltaU8),
        b == 5 ==> Transform::of_byte(b) == Ok::<Transform, VmError>(Transform::DeltaU32),
        b == 6 ==> Transform::of_byte(b) == Ok::<Transform, VmError>(Transform::ByteswapU32),
        b == 7 ==> Transform::of_byte(b) == Ok::<Transform, VmError>(Transform::ZigzagU32),
        b > 7 ==> Transform::of_byte(b) == Err::<Transform, VmError>(
            VmError::UnknownMapTransform(b),
        ),
        Transform::of_byte(b) matches Ok(t) ==> t.byte() == b,
{
}

} // verus!
