//! Numbers as bytes.

use vstd::arithmetic::power::{lemma_pow0, pow};
use vstd::prelude::*;
use crate::bytes::{
    le16_bytes, le16_value, le32_bytes, le32_value, le64_bytes, le64_value, lemma_le32_len,
};
use crate::leb::{leb_bytes, leb_parse, leb_run, leb_size, leb_value, lemma_leb_bytes};

verus! {

/// The number that groups of seven bits spell, the group at place `i` counting
/// 128 to the power of `i`.
pub open spec fn spelled_by_groups(s: Seq<u8>) -> int
    decreases s.len(),
{
    if s.len() == 0 {
        0
    } else {
        spelled_by_groups(s.drop_last()) + (s.last() as int % 128) * pow(
            128,
            (s.len() - 1) as nat,
        )
    }
}

/// Reading from the front and from the back gives the same number.
proof fn lemma_groups(s: Seq<u8>)
    requires
        s.len() > 0,
    ensures
        spelled_by_groups(s) == s[0] as int % 128 + 128 * spelled_by_groups(s.drop_first()),
    decreases s.len(),
{
    lemma_pow0(128);
    if s.len() == 1 {
        assert(s.drop_last() =~= Seq::<u8>::empty());
        assert(s.drop_first() =~= Seq::<u8>::empty());
        assert(spelled_by_groups(s.drop_last()) == 0);
    } else {
        let n = (s.len() - 1) as nat;
        lemma_groups(s.drop_last());
        assert(s.drop_last().drop_first() =~= s.drop_first().drop_last());
        assert(s.drop_first().last() == s.last());
        let inner = spelled_by_groups(s.drop_last().drop_first());
        let g = s.last() as int % 128;
        assert(pow(128, n) == 128 * pow(128, (n - 1) as nat)) by {
            reveal(pow);
        }
        assert(g * (128 * pow(128, (n - 1) as nat)) == 128 * (g * pow(128, (n - 1) as nat)))
            by (nonlinear_arith);
    }
}

proof fn lemma_value_by_groups(s: Seq<u8>)
    ensures
        leb_value(s) == spelled_by_groups(s),
    decreases s.len(),
{
    if s.len() > 0 {
        lemma_groups(s);
        lemma_value_by_groups(s.drop_first());
    }
}

/// The code of an operand spells it in groups of seven bits, the lowest first. All
/// bytes but the last have their high bit set, and no code of the same number is
/// shorter.
pub proof fn operand_codes_spell_their_number(v: nat)
    ensures
        spelled_by_groups(leb_bytes(v)) == v,
        leb_bytes(v).len() >= 1,
        forall|i: int| 0 <= i < leb_bytes(v).len() - 1 ==> leb_bytes(v)[i] >= 128,
        leb_bytes(v)[leb_bytes(v).len() - 1] < 128,
        leb_bytes(v).len() > 1 ==> leb_bytes(v)[leb_bytes(v).len() - 1] != 0,
        leb_size(v) == leb_bytes(v).len(),
{
    lemma_leb_bytes(v);
    lemma_value_by_groups(leb_bytes(v));
    lemma_last_group(v);
}

proof fn lemma_last_group(v: nat)
    ensures
        leb_bytes(v).len() > 1 ==> leb_bytes(v).last() != 0,
        v > 0 ==> leb_bytes(v).last() != 0,
    decreases v,
{
    if v >= 128 {
        lemma_last_group(v / 128);
        lemma_leb_bytes(v / 128);
        assert(leb_bytes(v).last() == leb_bytes(v / 128).last());
    }
}

/// Where the first byte without its high bit stands.
proof fn lemma_run(s: Seq<u8>)
    ensures
        leb_run(s) <= s.len(),
        forall|i: int| 0 <= i < leb_run(s) ==> s[i] >= 128,
        leb_run(s) < s.len() ==> s[leb_run(s) as int] < 128,
    decreases s.len(),
{
    if s.len() > 0 && s[0] >= 128 {
        let t = s.drop_first();
        lemma_run(t);
        assert forall|i: int| 0 <= i < leb_run(s) implies s[i] >= 128 by {
            if i > 0 {
                assert(t[i - 1] == s[i]);
            }
        }
        if leb_run(s) < s.len() {
            assert(t[leb_run(t) as int] == s[leb_run(s) as int]);
        }
    }
}

/// An operand is read up to the first byte without its high bit, which has to be
/// one of the first five. The number is what the groups spell, cut down to 32 bits.
/// Without such a byte nothing is read.
pub proof fn operands_are_read_up_to_a_low_byte(s: Seq<u8>, n: int)
    requires
        1 <= n <= s.len(),
        s[n - 1] < 128,
        forall|i: int| 0 <= i < n - 1 ==> s[i] >= 128,
    ensures
        n <= 5 ==> leb_parse(s) == Some(
            ((spelled_by_groups(s.take(n)) % 0x1_0000_0000) as u32, n as nat),
        ),
        n > 5 ==> leb_parse(s) is None,
{
    lemma_run(s);
    let r = leb_run(s) as int;
    if r < n - 1 {
        assert(s[r] < 128);
    }
    if r > n - 1 {
        assert(s[n - 1] >= 128);
    }
    lemma_value_by_groups(s.take(n));
}

/// Bytes that all have their high bit set hold no operand.
pub proof fn operands_need_a_low_byte(s: Seq<u8>)
    requires
        forall|i: int| 0 <= i < s.len() ==> s[i] >= 128,
    ensures
        leb_parse(s) is None,
{
    lemma_run(s);
    if leb_run(s) < s.len() {
        assert(s[leb_run(s) as int] >= 128);
    }
}

/// Fixed numbers have their lowest byte first: each byte counts 256 times as much
/// as the one before it.
pub proof fn fixed_numbers_have_their_lowest_byte_first(v: nat)
    ensures
        v < 0x1_0000 ==> le16_bytes(v).len() == 2 && le16_bytes(v)[0] + 256 * le16_bytes(v)[1] == v,
        v < 0x1_0000_0000 ==> le32_bytes(v).len() == 4 && le32_bytes(v)[0] + 0x100 * le32_bytes(
            v,
        )[1] + 0x1_0000 * le32_bytes(v)[2] + 0x100_0000 * le32_bytes(v)[3] == v,
        v < 0x1_0000_0000_0000_0000 ==> le64_bytes(v).len() == 8 && le64_bytes(v)[0] + 0x100
            * le64_bytes(v)[1] + 0x1_0000 * le64_bytes(v)[2] + 0x100_0000 * le64_bytes(v)[3]
            + 0x1_0000_0000 * le64_bytes(v)[4] + 0x100_0000_0000 * le64_bytes(v)[5]
            + 0x1_0000_0000_0000 * le64_bytes(v)[6] + 0x100_0000_0000_0000 * le64_bytes(v)[7] == v,
{
    broadcast use lemma_le32_len;

    reveal(le32_bytes);
    if v < 0x1_0000_0000 {
        lemma_four(v);
    }
    if v < 0x1_0000_0000_0000_0000 {
        lemma_four(v % 0x1_0000_0000);
        lemma_four(v / 0x1_0000_0000);
    }
}

proof fn lemma_four(v: nat)
    requires
        v < 0x1_0000_0000,
    ensures
        le32_bytes(v)[0] + 0x100 * le32_bytes(v)[1] + 0x1_0000 * le32_bytes(v)[2] + 0x100_0000
            * le32_bytes(v)[3] == v,
        le32_bytes(v).len() == 4,
{
    reveal(le32_bytes);
    assert(v == v % 256 + 256 * (v / 256));
    assert(v / 256 == v / 256 % 256 + 256 * (v / 65536));
    assert(v / 65536 == v / 65536 % 256 + 256 * (v / 16777216));
}

/// Reading a fixed number adds up its bytes, each counting 256 times as much as the
/// one before it.
pub proof fn fixed_numbers_add_up_their_bytes(s: Seq<u8>)
    ensures
        s.len() == 2 ==> le16_value(s) == s[0] + 256 * s[1],
        s.len() == 4 ==> le32_value(s) == s[0] + 0x100 * s[1] + 0x1_0000 * s[2] + 0x100_0000 * s[3],
        s.len() == 8 ==> le64_value(s) == s[0] + 0x100 * s[1] + 0x1_0000 * s[2] + 0x100_0000 * s[3]
            + 0x1_0000_0000 * s[4] + 0x100_0000_0000 * s[5] + 0x1_0000_0000_0000 * s[6]
            + 0x100_0000_0000_0000 * s[7],
{
    reveal(le32_value);
}

} // verus!
