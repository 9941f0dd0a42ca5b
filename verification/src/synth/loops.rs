//! Literals that repeat a shorter block.

use vstd::prelude::*;
use crate::bytes::same;
use crate::machine::{repeat, step, Env, State, MAX_OUTPUT_BYTES};
use crate::synth::token::{leb_len, low_bits};
use crate::tokens::{
    appends, fits, instr_of, lemma_toks_one, lo32, running_code_is_running_tokens, size_is_exact,
    tok_size, toks_bytes, toks_run, with_output, Tok,
};
use crate::leb::{leb_size, lemma_leb_size};

verus! {

/// The shortest loop body.
pub const MIN_LOOP_BODY: usize = 4;

/// The fewest rounds of a loop.
pub const MIN_LOOP_COUNT: usize = 3;

/// `count` copies of `block`, one behind the other.
pub open spec fn repeated(block: Seq<u8>, count: nat) -> Seq<u8>
    decreases count,
{
    if count == 0 {
        Seq::empty()
    } else {
        repeated(block, (count - 1) as nat) + block
    }
}

/// The data is at least three copies of its first `period` bytes, of which
/// there are at least four.
pub open spec fn is_period(data: Seq<u8>, period: nat) -> bool {
    &&& period >= MIN_LOOP_BODY
    &&& data.len() % period == 0
    &&& data.len() / period >= MIN_LOOP_COUNT
    &&& data == repeated(data.take(period as int), data.len() / period)
}

/// The loop that a literal is, as the length of its body and the number of
/// rounds.
#[verifier::opaque]
pub open spec fn loop_in(data: Seq<u8>) -> Option<(nat, nat)> {
    if exists|p: nat| is_period(data, p) {
        let p = shortest_period(data);
        Some((p, data.len() / p))
    } else {
        None
    }
}

/// The shortest period.
pub open spec fn shortest_period(data: Seq<u8>) -> nat {
    choose|p: nat| is_period(data, p) && (forall|q: nat| is_period(data, q) ==> p <= q)
}

/// Returns whether `data` is `count` copies of its first `period` bytes.
fn repeats(data: &[u8], period: usize, count: usize) -> (r: bool)
    requires
        0 < period <= data@.len(),
        places_ok(0, count as nat, period as nat, 0, data@.len()),
    ensures
        r == (data@ == repeated(data@.take(period as int), count as nat)),
{
    let n: usize = data.len();
    let block: &[u8] = &data[0..period];
    assert(block@ =~= data@.take(period as int));
    let ghost mut k: nat = 0;
    let mut at: usize = 0;
    assert(data@.take(0) =~= repeated(block@, 0));
    while at < n
        invariant
            n == data@.len(),
            n == data.len(),
            0 < period <= n,
            at <= n,
            places_ok(k, count as nat, period as nat, at as nat, n as nat),
            block@ == data@.take(period as int),
            data@.take(at as int) == repeated(block@, k),
        decreases n - at,
    {
        proof {
            lemma_places(k, count as nat, period as nat, at as nat, n as nat);
        }
        if !same(&data[at..at + period], block) {
            proof {
                if data@ == repeated(block@, count as nat) {
                    lemma_chunk(data@, block@, k, count as nat, at as nat);
                }
            }
            return false;
        }
        proof {
            lemma_one_more(data@, block@, at as int, k);
            k = k + 1;
        }
        at = at + period;
    }
    proof {
        lemma_places(k, count as nat, period as nat, at as nat, n as nat);
        assert(data@.take(n as int) =~= data@);
    }
    true
}

/// One more block behind `k` of them.
proof fn lemma_one_more(data: Seq<u8>, block: Seq<u8>, at: int, k: nat)
    requires
        0 <= at,
        at + block.len() <= data.len(),
        data.take(at) == repeated(block, k),
        data.subrange(at, at + block.len()) == block,
    ensures
        data.take(at + block.len()) == repeated(block, k + 1),
{
    assert(data.take(at + block.len()) =~= data.take(at) + data.subrange(at, at + block.len()));
}

/// `at` is the place behind `k` blocks, and `n` the place behind `count`.
#[verifier::opaque]
spec fn places_ok(k: nat, count: nat, period: nat, at: nat, n: nat) -> bool {
    &&& at == k * period
    &&& n == count * period
    &&& at <= n
}

proof fn lemma_places(k: nat, count: nat, period: nat, at: nat, n: nat)
    requires
        places_ok(k, count, period, at, n),
        period > 0,
    ensures
        at < n ==> k < count && places_ok(k + 1, count, period, at + period, n),
        at < n ==> at + period <= n,
        at == n ==> k == count,
{
    reveal(places_ok);
    assert(at < n ==> k < count) by (nonlinear_arith)
        requires
            at == k * period,
            n == count * period,
    ;
    assert(k < count ==> (k + 1) * period <= count * period) by (nonlinear_arith);
    assert((k + 1) * period == k * period + period) by (nonlinear_arith);
    assert(at == n ==> k == count) by (nonlinear_arith)
        requires
            at == k * period,
            n == count * period,
            period > 0,
    ;
}

/// Where copies of a block stand, each place holds one.
proof fn lemma_chunk(data: Seq<u8>, block: Seq<u8>, k: nat, count: nat, at: nat)
    requires
        data == repeated(block, count),
        block.len() > 0,
        places_ok(k, count, block.len(), at, data.len()),
        at < data.len(),
    ensures
        data.subrange(at as int, (at + block.len()) as int) == block,
{
    lemma_places(k, count, block.len(), at, data.len());
    reveal(places_ok);
    lemma_repeated_at(block, count, k);
}

/// Each copy stands at its place.
proof fn lemma_repeated_at(block: Seq<u8>, count: nat, k: nat)
    requires
        k < count,
    ensures
        repeated(block, count).len() == count * block.len(),
        (k + 1) * block.len() <= count * block.len(),
        k * block.len() + block.len() == (k + 1) * block.len(),
        repeated(block, count).subrange(
            (k * block.len()) as int,
            (k * block.len() + block.len()) as int,
        ) == block,
    decreases count,
{
    lemma_repeated_len(block, count);
    lemma_repeated_len(block, (count - 1) as nat);
    assert((k + 1) * block.len() <= count * block.len()) by (nonlinear_arith)
        requires
            k < count,
    ;
    assert(k * block.len() + block.len() == (k + 1) * block.len()) by (nonlinear_arith);
    assert((count - 1) * block.len() + block.len() == count * block.len()) by (nonlinear_arith);
    let before = repeated(block, (count - 1) as nat);
    let from = (k * block.len()) as int;
    if k == count - 1 {
        assert(repeated(block, count).subrange(from, from + block.len()) =~= block);
    } else {
        lemma_repeated_at(block, (count - 1) as nat, k);
        assert(repeated(block, count).subrange(from, from + block.len()) =~= before.subrange(
            from,
            from + block.len(),
        ));
    }
}

/// How long the copies are together.
pub proof fn lemma_repeated_len(block: Seq<u8>, count: nat)
    ensures
        repeated(block, count).len() == count * block.len(),
    decreases count,
{
    if count > 0 {
        lemma_repeated_len(block, (count - 1) as nat);
        assert((count - 1) * block.len() + block.len() == count * block.len()) by (nonlinear_arith);
    } else {
        assert(count * block.len() == 0) by (nonlinear_arith)
            requires
                count == 0,
        ;
    }
}

/// Finds the shortest block that `data` repeats. The result is the length of
/// the block and the number of copies.
pub fn detect_loop(data: &[u8]) -> (r: Option<(usize, usize)>)
    ensures
        match loop_in(data@) {
            Some((p, c)) => r matches Some((period, count)) && period == p && count == c,
            None => r is None,
        },
{
    let n: usize = data.len();
    let max_period: usize = n / MIN_LOOP_COUNT;
    let mut period: usize = MIN_LOOP_BODY;
    while period <= max_period
        invariant
            n == data@.len(),
            n == data.len(),
            max_period == n / 3,
            period >= MIN_LOOP_BODY,
            forall|q: nat| #[trigger] is_period(data@, q) ==> q >= period,
        decreases max_period + 1 - period,
    {
        if n % period == 0 {
            assert(n / period >= 3) by (nonlinear_arith)
                requires
                    period <= n / 3,
                    period > 0,
            ;
            proof {
                vstd::arithmetic::div_mod::lemma_fundamental_div_mod(n as int, period as int);
                vstd::arithmetic::mul::lemma_mul_is_commutative(
                    n as int / period as int,
                    period as int,
                );
                reveal(places_ok);
                assert(0 * (period as nat) == 0);
            }
            if repeats(data, period, n / period) {
                proof {
                    reveal(loop_in);
                    assert(is_period(data@, period as nat));
                    let p = shortest_period(data@);
                    assert(is_period(data@, p) && p <= period);
                }
                return Some((period, n / period));
            }
        }
        assert(!is_period(data@, period as nat));
        period = period + 1;
    }
    proof {
        reveal(loop_in);
        assert forall|q: nat| !is_period(data@, q) by {
            if is_period(data@, q) {
                assert(q <= n / 3) by (nonlinear_arith)
                    requires
                        (n as nat) / q >= 3,
                        q > 0,
                ;
            }
        }
    }
    None
}

/// A number, brought into the range of `isize`.
pub open spec fn clamped(g: int) -> isize {
    if g > isize::MAX {
        isize::MAX
    } else if g < isize::MIN {
        isize::MIN
    } else {
        g as isize
    }
}

/// Brings a number into the range of `isize`.
pub fn clamp(g: i128) -> (r: isize)
    ensures
        r == clamped(g as int),
{
    if g > isize::MAX as i128 {
        isize::MAX
    } else if g < isize::MIN as i128 {
        isize::MIN
    } else {
        g as isize
    }
}

/// The bytes saved by writing a literal of `lit_len` bytes as a loop of `count`
/// rounds over a literal of `period` bytes.
pub open spec fn loop_gain(lit_len: nat, period: nat, count: nat) -> int {
    let body = 1 + leb_size(lo32(period)) + period;
    (1 + leb_size(lo32(lit_len)) + lit_len) - (1 + leb_size(lo32(count)) + leb_size(lo32(body))
        + body)
}

/// Returns the bytes saved by writing a literal of `lit_len` bytes as a loop of
/// `count` rounds over a literal of `period` bytes.
pub fn loop_mdl_gain(lit_len: usize, period: usize, count: usize) -> (gain: isize)
    ensures
        gain == clamped(loop_gain(lit_len as nat, period as nat, count as nat)),
{
    let lit_cost: i128 = 1 + leb_len(low_bits(lit_len)) as i128 + lit_len as i128;
    let body: u128 = 1 + leb_len(low_bits(period)) as u128 + period as u128;
    let body_size: u32 = (body % 0x1_0000_0000) as u32;
    let loop_cost: i128 = 1 + leb_len(low_bits(count)) as i128 + leb_len(body_size) as i128
        + body as i128;
    clamp(lit_cost - loop_cost)
}

/// The loop that stands for a literal.
pub open spec fn loop_tok(data: Seq<u8>, period: nat, count: nat) -> Tok {
    Tok::Loop { count, body: seq![Tok::Lit { data: data.take(period as int) }] }
}

/// The stated gain is exactly how much shorter a loop over a block is than a
/// literal, whatever the literal, the block and the count are.
pub proof fn loop_gain_is_exact(data: Seq<u8>, block: Seq<u8>, count: nat)
    ensures
        loop_gain(data.len(), block.len(), count) == tok_size(Tok::Lit { data }) - tok_size(
            Tok::Loop { count, body: seq![Tok::Lit { data: block }] },
        ),
{
    lemma_toks_one(Tok::Lit { data: block });
}

/// A loop over a period writes exactly the literal.
pub proof fn loop_writes_the_literal(data: Seq<u8>, period: nat, env: Env)
    requires
        is_period(data, period),
        data.len() <= MAX_OUTPUT_BYTES,
    ensures
        fits(loop_tok(data, period, data.len() / period)),
        appends(seq![loop_tok(data, period, data.len() / period)], data, env),
{
    let count = data.len() / period;
    let block = data.take(period as int);
    let inner = seq![Tok::Lit { data: block }];
    let t = loop_tok(data, period, count);
    assert(count <= data.len() && period <= data.len()) by (nonlinear_arith)
        requires
            count == data.len() / period,
            count >= 3,
            period >= 4,
    ;
    lemma_toks_one(inner[0]);
    size_is_exact(inner[0]);
    lemma_leb_size(lo32(period));
    let none = Seq::<u32>::empty();
    assert forall|m: State|
        m.err is None && m.out.len() + data.len() <= MAX_OUTPUT_BYTES implies #[trigger] toks_run(
        seq![t],
        m,
        env,
        0,
        none,
    ) == with_output(m, data) by {
        lemma_repeated_len(block, count);
        vstd::arithmetic::div_mod::lemma_fundamental_div_mod(data.len() as int, period as int);
        lemma_repeat_literal(block, count, m, env, 0, none);
        let after = with_output(m, data);
        assert(step(instr_of(t), m, env, 0, none) == after);
        assert(toks_run(seq![t].drop_first(), after, env, 0, none) == after);
    }
}

/// Repeating a literal writes its copies.
pub proof fn lemma_repeat_literal(
    block: Seq<u8>,
    count: nat,
    m: State,
    env: Env,
    depth: nat,
    active: Seq<u32>,
)
    requires
        m.err is None,
        block.len() < 0x1_0000_0000,
        m.out.len() + repeated(block, count).len() <= MAX_OUTPUT_BYTES,
    ensures
        repeat(toks_bytes(seq![Tok::Lit { data: block }]), count, m, env, depth, active)
            == with_output(m, repeated(block, count)),
    decreases count,
{
    let ts = seq![Tok::Lit { data: block }];
    if count == 0 {
        assert(m.out + repeated(block, 0) =~= m.out);
    } else {
        lemma_repeat_literal(block, (count - 1) as nat, m, env, depth, active);
        let prev = with_output(m, repeated(block, (count - 1) as nat));
        assert(fits(ts[0]));
        running_code_is_running_tokens(ts, prev, env, depth, active);
        let after = prev.emit(block);
        assert(step(instr_of(ts[0]), prev, env, depth, active) == after);
        assert(toks_run(ts.drop_first(), after, env, depth, active) == after);
        assert(after.out =~= m.out + repeated(block, count));
    }
}

} // verus!
