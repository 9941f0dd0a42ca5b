//! Numbers in messages, and numbers brought into a range.

use vstd::prelude::*;
use crate::bytes::{lemma_lex_at, lex_less};
use crate::consensus_builder::key_of;
use crate::synth::loops::clamped;
use crate::synth::suffix::{common, lemma_common, lemma_common_at};
use crate::synth::token::capped;
use crate::text::{decimal, hex};

verus! {

/// The number that decimal digits spell.
pub open spec fn spelled(s: Seq<char>) -> int
    decreases s.len(),
{
    if s.len() == 0 {
        0
    } else {
        10 * spelled(s.drop_last()) + (s.last() as int - 48)
    }
}

/// Decimal digits spell their number, without a zero in front.
pub proof fn digits_spell_their_number(n: nat)
    ensures
        decimal(n).len() >= 1,
        spelled(decimal(n)) == n,
        forall|i: int| 0 <= i < decimal(n).len() ==> 48 <= #[trigger] decimal(n)[i] as int <= 57,
        n > 0 ==> decimal(n)[0] as int != 48,
    decreases n,
{
    let s = decimal(n);
    if n < 10 {
        assert(s.drop_last() =~= Seq::<char>::empty());
        assert(spelled(s.drop_last()) == 0);
    } else {
        digits_spell_their_number(n / 10);
        let front = decimal(n / 10);
        assert(s.drop_last() =~= front);
        assert forall|i: int| 0 <= i < s.len() implies 48 <= #[trigger] s[i] as int <= 57 by {
            if i < front.len() {
                assert(s[i] == front[i]);
            }
        }
        assert(s[0] == front[0]);
    }
}

/// A byte has two hexadecimal digits, the upper half first.
pub proof fn bytes_have_two_hexadecimal_digits(b: u8)
    ensures
        hex(b).len() == 2,
        b / 16 < 10 ==> hex(b)[0] as int == 48 + b / 16,
        b / 16 >= 10 ==> hex(b)[0] as int == 55 + b / 16,
        b % 16 < 10 ==> hex(b)[1] as int == 48 + b % 16,
        b % 16 >= 10 ==> hex(b)[1] as int == 55 + b % 16,
{
}

/// Numbers that fit stay as they are, and others become the nearest that does.
pub proof fn numbers_are_brought_into_range(g: int, n: nat)
    ensures
        isize::MIN <= g <= isize::MAX ==> clamped(g) == g,
        g > isize::MAX ==> clamped(g) == isize::MAX,
        g < isize::MIN ==> clamped(g) == isize::MIN,
        n <= usize::MAX ==> capped(n) == n,
        n > usize::MAX ==> capped(n) == usize::MAX,
{
}

/// Shared blocks have one byte as their key, or two from the 256th on.
pub proof fn keys_are_short(i: nat)
    requires
        i < 511,
    ensures
        i < 255 ==> key_of(i) == seq![i as u8],
        i >= 255 ==> key_of(i) == seq![0xFFu8, (i - 255) as u8],
{
}

/// Two sequences have in common as many bytes as agree from their beginning on.
pub proof fn common_beginnings_agree(s: Seq<u8>, t: Seq<u8>, n: nat)
    ensures
        n <= common(s, t) <==> n <= s.len() && n <= t.len() && forall|i: int|
            0 <= i < n ==> s[i] == t[i],
{
    lemma_common(s, t);
    if n <= s.len() && n <= t.len() && forall|i: int| 0 <= i < n ==> s[i] == t[i] {
        lemma_common_at(s, t, n);
    }
}

/// The first byte in which two sequences differ decides which comes first. Where one
/// goes on behind the other, the shorter comes first.
pub proof fn the_first_difference_decides(a: Seq<u8>, b: Seq<u8>, n: nat)
    requires
        n <= a.len(),
        n <= b.len(),
        a.take(n as int) == b.take(n as int),
    ensures
        n < a.len() && n < b.len() && a[n as int] != b[n as int] ==> (lex_less(a, b) <==> a[n as int]
            < b[n as int]),
        n == a.len() ==> (lex_less(a, b) <==> a.len() < b.len()),
        n == b.len() ==> !lex_less(a, b),
{
    assert forall|i: int| 0 <= i < n implies a[i] == b[i] by {
        assert(a.take(n as int)[i] == a[i]);
        assert(b.take(n as int)[i] == b[i]);
    }
    lemma_lex_at(a, b, n);
}

} // verus!
