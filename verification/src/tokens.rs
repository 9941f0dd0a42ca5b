//! Instruction tokens as mathematics: their byte code, its size, and what
//! running a token sequence does.

use vstd::prelude::*;
use crate::leb::{leb_bytes, leb_read_undoes_write, leb_size, lemma_leb_bytes};
use crate::machine::{
    fresh, lemma_parse_instr_bounds, operand, parse_instr, repeat, run, step, Env, Instr, State,
    Transform, MAX_CALL_DEPTH, MAX_OUTPUT_BYTES,
};
use crate::vm_error::VmError;

verus! {

/// An instruction with its operands, macros and loop bodies being token
/// sequences themselves.
pub enum Tok {
    Lit { data: Seq<u8> },
    Cpy { offset: nat, length: nat },
    Loop { count: nat, body: Seq<Tok> },
    Call { id: u32 },
    MapBlock { transform: Transform, length: nat },
    Ref { key: Seq<u8> },
    Scan { count: nat, template: u32, params: Seq<Seq<u8>> },
    Next,
}

/// A number cut down to the 32 bits that an operand holds.
pub open spec fn lo32(n: nat) -> nat {
    n % 0x1_0000_0000
}

/// The byte code of a field list: each field behind its length.
pub open spec fn param_bytes(params: Seq<Seq<u8>>) -> Seq<u8>
    decreases params.len(),
{
    if params.len() == 0 {
        Seq::empty()
    } else {
        param_bytes(params.drop_last()) + (leb_bytes(lo32(params.last().len())) + params.last())
    }
}

/// The byte code of a token.
pub open spec fn tok_bytes(t: Tok) -> Seq<u8>
    decreases t,
{
    match t {
        Tok::Lit { data } => seq![0x00u8] + leb_bytes(lo32(data.len())) + data,
        Tok::Cpy { offset, length } => seq![0x01u8] + leb_bytes(lo32(offset)) + leb_bytes(
            lo32(length),
        ),
        Tok::Loop { count, body } => seq![0x03u8] + leb_bytes(lo32(count)) + leb_bytes(
            lo32(toks_bytes(body).len()),
        ) + toks_bytes(body),
        Tok::Call { id } => seq![0x04u8] + leb_bytes(id as nat),
        Tok::MapBlock { transform, length } => seq![0x02u8, transform.byte()] + leb_bytes(
            lo32(length),
        ),
        Tok::Ref { key } => seq![0x05u8, (key.len() % 256) as u8] + key,
        Tok::Scan { count, template, params } => seq![0x07u8] + leb_bytes(lo32(count)) + leb_bytes(
            template as nat,
        ) + leb_bytes(lo32(param_bytes(params).len())) + param_bytes(params),
        Tok::Next => seq![0x08u8],
    }
}

/// The byte code of a token sequence.
pub open spec fn toks_bytes(ts: Seq<Tok>) -> Seq<u8>
    decreases ts,
{
    if ts.len() == 0 {
        Seq::empty()
    } else {
        toks_bytes(ts.drop_last()) + tok_bytes(ts.last())
    }
}

/// The size of a field list's byte code.
pub open spec fn param_size(params: Seq<Seq<u8>>) -> nat
    decreases params.len(),
{
    if params.len() == 0 {
        0
    } else {
        param_size(params.drop_last()) + leb_size(lo32(params.last().len())) + params.last().len()
    }
}

/// The size of a token's byte code.
pub open spec fn tok_size(t: Tok) -> nat
    decreases t,
{
    match t {
        Tok::Lit { data } => 1 + leb_size(lo32(data.len())) + data.len(),
        Tok::Cpy { offset, length } => 1 + leb_size(lo32(offset)) + leb_size(lo32(length)),
        Tok::Loop { count, body } => 1 + leb_size(lo32(count)) + leb_size(lo32(toks_size(body)))
            + toks_size(body),
        Tok::Call { id } => 1 + leb_size(id as nat),
        Tok::MapBlock { transform, length } => 2 + leb_size(lo32(length)),
        Tok::Ref { key } => 2 + key.len(),
        Tok::Scan { count, template, params } => 1 + leb_size(lo32(count)) + leb_size(
            template as nat,
        ) + leb_size(lo32(param_size(params))) + param_size(params),
        Tok::Next => 1,
    }
}

/// The size of a token sequence's byte code.
pub open spec fn toks_size(ts: Seq<Tok>) -> nat
    decreases ts,
{
    if ts.len() == 0 {
        0
    } else {
        toks_size(ts.drop_last()) + tok_size(ts.last())
    }
}

proof fn lemma_param_size(params: Seq<Seq<u8>>)
    ensures
        param_bytes(params).len() == param_size(params),
    decreases params.len(),
{
    if params.len() > 0 {
        lemma_param_size(params.drop_last());
        lemma_leb_bytes(lo32(params.last().len()));
    }
}

/// The stated size of a token is the exact length of its byte code.
pub proof fn size_is_exact(t: Tok)
    ensures
        tok_bytes(t).len() == tok_size(t),
    decreases t,
{
    match t {
        Tok::Lit { data } => {
            lemma_leb_bytes(lo32(data.len()));
        },
        Tok::Cpy { offset, length } => {
            lemma_leb_bytes(lo32(offset));
            lemma_leb_bytes(lo32(length));
        },
        Tok::Loop { count, body } => {
            sizes_are_exact(body);
            lemma_leb_bytes(lo32(count));
            lemma_leb_bytes(lo32(toks_size(body)));
        },
        Tok::Call { id } => {
            lemma_leb_bytes(id as nat);
        },
        Tok::MapBlock { transform, length } => {
            lemma_leb_bytes(lo32(length));
        },
        Tok::Ref { key } => {},
        Tok::Scan { count, template, params } => {
            lemma_param_size(params);
            lemma_leb_bytes(lo32(count));
            lemma_leb_bytes(template as nat);
            lemma_leb_bytes(lo32(param_size(params)));
        },
        Tok::Next => {},
    }
}

/// The stated size of a token sequence is the exact length of its byte code.
pub proof fn sizes_are_exact(ts: Seq<Tok>)
    ensures
        toks_bytes(ts).len() == toks_size(ts),
    decreases ts,
{
    if ts.len() > 0 {
        sizes_are_exact(ts.drop_last());
        size_is_exact(ts.last());
    }
}

/// Byte codes of concatenated sequences stand one behind the other.
pub proof fn lemma_toks_bytes_concat(a: Seq<Tok>, b: Seq<Tok>)
    ensures
        toks_bytes(a + b) == toks_bytes(a) + toks_bytes(b),
        toks_size(a + b) == toks_size(a) + toks_size(b),
    decreases b.len(),
{
    if b.len() == 0 {
        assert(a + b =~= a);
        assert(toks_bytes(a) + toks_bytes(b) =~= toks_bytes(a));
    } else {
        lemma_toks_bytes_concat(a, b.drop_last());
        assert((a + b).drop_last() =~= a + b.drop_last());
        assert(toks_bytes(a) + (toks_bytes(b.drop_last()) + tok_bytes(b.last())) =~= (toks_bytes(a)
            + toks_bytes(b.drop_last())) + tok_bytes(b.last()));
    }
}

pub proof fn lemma_toks_one(t: Tok)
    ensures
        toks_bytes(seq![t]) == tok_bytes(t),
        toks_size(seq![t]) == tok_size(t),
{
    assert(seq![t].drop_last() =~= Seq::<Tok>::empty());
    assert(toks_bytes(Seq::<Tok>::empty()) + tok_bytes(t) =~= tok_bytes(t));
    assert(toks_size(Seq::<Tok>::empty()) == 0);
}

/// Every operand of the token fits its byte code.
pub open spec fn fits(t: Tok) -> bool {
    match t {
        Tok::Lit { data } => data.len() < 0x1_0000_0000,
        Tok::Cpy { offset, length } => offset < 0x1_0000_0000 && length < 0x1_0000_0000,
        Tok::Loop { count, body } => count < 0x1_0000_0000 && toks_bytes(body).len()
            < 0x1_0000_0000,
        Tok::Call { id } => true,
        Tok::MapBlock { transform, length } => length < 0x1_0000_0000,
        Tok::Ref { key } => key.len() < 256,
        Tok::Scan { count, template, params } => count < 0x1_0000_0000 && param_bytes(params).len()
            < 0x1_0000_0000,
        Tok::Next => true,
    }
}

/// Every operand of the tokens fits its byte code.
pub open spec fn all_fit(ts: Seq<Tok>) -> bool {
    forall|i: int| 0 <= i < ts.len() ==> #[trigger] fits(ts[i])
}

/// The instruction that a token stands for.
pub open spec fn instr_of(t: Tok) -> Instr {
    match t {
        Tok::Lit { data } => Instr::Lit { data },
        Tok::Cpy { offset, length } => Instr::Cpy { offset, length },
        Tok::Loop { count, body } => Instr::Loop { count, body: toks_bytes(body) },
        Tok::Call { id } => Instr::Call { id },
        Tok::MapBlock { transform, length } => Instr::MapBlock { transform, length },
        Tok::Ref { key } => Instr::Ref { key },
        Tok::Scan { count, template, params } => Instr::Scan {
            count,
            template,
            params: param_bytes(params),
        },
        Tok::Next => Instr::Next,
    }
}

/// A number written at place `at` is read from there.
pub proof fn lemma_operand_at(s: Seq<u8>, at: nat, v: nat, tail: Seq<u8>)
    requires
        v < 0x1_0000_0000,
        at <= s.len(),
        s.skip(at as int) == leb_bytes(v) + tail,
    ensures
        operand(s, at) == Some((v as u32, at + leb_size(v))),
        s.skip((at + leb_size(v)) as int) == tail,
        at + leb_size(v) <= s.len(),
{
    leb_read_undoes_write(v as u32, tail);
    lemma_leb_bytes(v);
    assert(s.len() == at + leb_size(v) + tail.len());
    assert(s.skip((at + leb_size(v)) as int) =~= (leb_bytes(v) + tail).skip(leb_size(v) as int));
    assert((leb_bytes(v) + tail).skip(leb_size(v) as int) =~= tail);
}

/// The byte code of the token, with `rest` behind it, reads as the token's
/// instruction and its size.
pub open spec fn reads_back(t: Tok, rest: Seq<u8>) -> bool {
    parse_instr(tok_bytes(t) + rest) == Ok::<(Instr, nat), VmError>((instr_of(t), tok_size(t)))
}

proof fn lemma_reads_back_lit(data: Seq<u8>, rest: Seq<u8>)
    requires
        fits(Tok::Lit { data }),
    ensures
        reads_back(Tok::Lit { data }, rest),
{
    let t = Tok::Lit { data };
    let s = tok_bytes(t) + rest;
    size_is_exact(t);
    let n = data.len();
    assert(s.skip(1) =~= leb_bytes(n) + (data + rest));
    lemma_operand_at(s, 1, n, data + rest);
    let at = 1 + leb_size(n);
    assert(s.subrange(at as int, (at + n) as int) =~= s.skip(at as int).take(n as int));
    assert((data + rest).take(n as int) =~= data);
}

proof fn lemma_reads_back_cpy(offset: nat, length: nat, rest: Seq<u8>)
    requires
        fits(Tok::Cpy { offset, length }),
    ensures
        reads_back(Tok::Cpy { offset, length }, rest),
{
    let t = Tok::Cpy { offset, length };
    let s = tok_bytes(t) + rest;
    size_is_exact(t);
    assert(s.skip(1) =~= leb_bytes(offset) + (leb_bytes(length) + rest));
    lemma_operand_at(s, 1, offset, leb_bytes(length) + rest);
    lemma_operand_at(s, 1 + leb_size(offset), length, rest);
}

proof fn lemma_reads_back_loop(count: nat, body: Seq<Tok>, rest: Seq<u8>)
    requires
        fits(Tok::Loop { count, body }),
    ensures
        reads_back(Tok::Loop { count, body }, rest),
{
    let t = Tok::Loop { count, body };
    let s = tok_bytes(t) + rest;
    size_is_exact(t);
    let b = toks_bytes(body);
    sizes_are_exact(body);
    assert(s.skip(1) =~= leb_bytes(count) + (leb_bytes(b.len()) + (b + rest)));
    lemma_operand_at(s, 1, count, leb_bytes(b.len()) + (b + rest));
    lemma_operand_at(s, 1 + leb_size(count), b.len(), b + rest);
    let at = 1 + leb_size(count) + leb_size(b.len());
    assert(s.subrange(at as int, (at + b.len()) as int) =~= s.skip(at as int).take(
        b.len() as int,
    ));
    assert((b + rest).take(b.len() as int) =~= b);
}

proof fn lemma_reads_back_call(id: u32, rest: Seq<u8>)
    requires
        fits(Tok::Call { id }),
    ensures
        reads_back(Tok::Call { id }, rest),
{
    let t = Tok::Call { id };
    let s = tok_bytes(t) + rest;
    size_is_exact(t);
    assert(s.skip(1) =~= leb_bytes(id as nat) + rest);
    lemma_operand_at(s, 1, id as nat, rest);
}

proof fn lemma_reads_back_map(transform: Transform, length: nat, rest: Seq<u8>)
    requires
        fits(Tok::MapBlock { transform, length }),
    ensures
        reads_back(Tok::MapBlock { transform, length }, rest),
{
    let t = Tok::MapBlock { transform, length };
    let s = tok_bytes(t) + rest;
    size_is_exact(t);
    assert(s.skip(2) =~= leb_bytes(length) + rest);
    lemma_operand_at(s, 2, length, rest);
}

proof fn lemma_reads_back_ref(key: Seq<u8>, rest: Seq<u8>)
    requires
        fits(Tok::Ref { key }),
    ensures
        reads_back(Tok::Ref { key }, rest),
{
    let t = Tok::Ref { key };
    let s = tok_bytes(t) + rest;
    size_is_exact(t);
    assert(s.subrange(2, 2 + key.len() as int) =~= key);
}

#[verifier::rlimit(30)]
#[verifier::rlimit(60)]
proof fn lemma_reads_back_scan(count: nat, template: u32, params: Seq<Seq<u8>>, rest: Seq<u8>)
    requires
        fits(Tok::Scan { count, template, params }),
    ensures
        reads_back(Tok::Scan { count, template, params }, rest),
{
    let t = Tok::Scan { count, template, params };
    let s = tok_bytes(t) + rest;
    size_is_exact(t);
    let p = param_bytes(params);
    lemma_param_size(params);
    assert(s.skip(1) =~= leb_bytes(count) + (leb_bytes(template as nat) + (leb_bytes(
        p.len(),
    ) + (p + rest))));
    lemma_operand_at(
        s,
        1,
        count,
        leb_bytes(template as nat) + (leb_bytes(p.len()) + (p + rest)),
    );
    lemma_operand_at(
        s,
        1 + leb_size(count),
        template as nat,
        leb_bytes(p.len()) + (p + rest),
    );
    lemma_operand_at(
        s,
        1 + leb_size(count) + leb_size(template as nat),
        p.len(),
        p + rest,
    );
    let at = 1 + leb_size(count) + leb_size(template as nat) + leb_size(p.len());
    assert(s.subrange(at as int, (at + p.len()) as int) =~= s.skip(at as int).take(
        p.len() as int,
    ));
    assert((p + rest).take(p.len() as int) =~= p);
}

/// The byte code of a token, with anything behind it, reads back as the
/// token's instruction and is consumed exactly.
pub proof fn token_reads_back(t: Tok, rest: Seq<u8>)
    requires
        fits(t),
    ensures
        reads_back(t, rest),
        (tok_bytes(t) + rest).skip(tok_size(t) as int) == rest,
{
    let s = tok_bytes(t) + rest;
    size_is_exact(t);
    assert(s.skip(tok_size(t) as int) =~= rest);
    match t {
        Tok::Lit { data } => {
            lemma_reads_back_lit(data, rest);
        },
        Tok::Cpy { offset, length } => {
            lemma_reads_back_cpy(offset, length, rest);
        },
        Tok::Loop { count, body } => {
            lemma_reads_back_loop(count, body, rest);
        },
        Tok::Call { id } => {
            lemma_reads_back_call(id, rest);
        },
        Tok::MapBlock { transform, length } => {
            lemma_reads_back_map(transform, length, rest);
        },
        Tok::Ref { key } => {
            lemma_reads_back_ref(key, rest);
        },
        Tok::Scan { count, template, params } => {
            lemma_reads_back_scan(count, template, params, rest);
        },
        Tok::Next => {
            assert(s[0] == 0x08);
        },
    }
}

/// What running a token sequence does, token by token.
pub open spec fn toks_run(ts: Seq<Tok>, m: State, env: Env, depth: nat, active: Seq<u32>) -> State
    decreases ts.len(),
{
    if ts.len() == 0 {
        m
    } else {
        let after = step(instr_of(ts[0]), m, env, depth, active);
        if after.err is Some {
            after
        } else {
            toks_run(ts.drop_first(), after, env, depth, active)
        }
    }
}

/// Running the byte code of a token sequence, with anything behind it, runs the
/// tokens and then, unless an error came up, the rest.
#[verifier::rlimit(30)]
pub proof fn lemma_run_tokens(
    ts: Seq<Tok>,
    rest: Seq<u8>,
    m: State,
    env: Env,
    depth: nat,
    active: Seq<u32>,
)
    requires
        all_fit(ts),
        m.err is None,
    ensures
        ({
            let mid = toks_run(ts, m, env, depth, active);
            run(toks_bytes(ts) + rest, m, env, depth, active) == if mid.err is Some {
                mid
            } else {
                run(rest, mid, env, depth, active)
            }
        }),
    decreases ts.len(),
{
    if ts.len() == 0 {
        assert(toks_bytes(ts) + rest =~= rest);
    } else {
        let t = ts[0];
        let tail = ts.drop_first();
        assert(fits(ts[0]));
        assert forall|i: int| 0 <= i < tail.len() implies #[trigger] fits(tail[i]) by {
            assert(fits(ts[i + 1]));
        }
        lemma_toks_one(t);
        lemma_toks_bytes_concat(seq![t], tail);
        assert(seq![t] + tail =~= ts);
        let behind = toks_bytes(tail) + rest;
        assert(toks_bytes(ts) + rest =~= tok_bytes(t) + behind);
        token_reads_back(t, behind);
        size_is_exact(t);
        lemma_tok_size_positive(t);
        let after = step(instr_of(t), m, env, depth, active);
        assert(!(instr_of(t) is Halt));
        if after.err is None {
            lemma_run_tokens(tail, rest, after, env, depth, active);
        }
    }
}

pub proof fn lemma_tok_size_positive(t: Tok)
    ensures
        tok_size(t) >= 1,
{
}

/// Running the byte code of a token sequence is running the tokens.
pub proof fn running_code_is_running_tokens(
    ts: Seq<Tok>,
    m: State,
    env: Env,
    depth: nat,
    active: Seq<u32>,
)
    requires
        all_fit(ts),
        m.err is None,
    ensures
        run(toks_bytes(ts), m, env, depth, active) == toks_run(ts, m, env, depth, active),
{
    lemma_run_tokens(ts, Seq::empty(), m, env, depth, active);
    assert(toks_bytes(ts) + Seq::<u8>::empty() =~= toks_bytes(ts));
}

/// Running two token sequences one behind the other.
pub proof fn lemma_toks_run_concat(
    a: Seq<Tok>,
    b: Seq<Tok>,
    m: State,
    env: Env,
    depth: nat,
    active: Seq<u32>,
)
    requires
        m.err is None,
    ensures
        ({
            let mid = toks_run(a, m, env, depth, active);
            toks_run(a + b, m, env, depth, active) == if mid.err is Some {
                mid
            } else {
                toks_run(b, mid, env, depth, active)
            }
        }),
    decreases a.len(),
{
    if a.len() == 0 {
        assert(a + b =~= b);
    } else {
        assert((a + b)[0] == a[0]);
        assert((a + b).drop_first() =~= a.drop_first() + b);
        let after = step(instr_of(a[0]), m, env, depth, active);
        if after.err is None {
            lemma_toks_run_concat(a.drop_first(), b, after, env, depth, active);
        }
    }
}


/// The second pair of tables holds everything that the first one holds.
pub open spec fn extends(a: Env, b: Env) -> bool {
    &&& forall|id: u32| #[trigger]
        a.subs.contains_key(id) ==> b.subs.contains_key(id) && b.subs[id] == a.subs[id]
    &&& forall|k: Seq<u8>| #[trigger]
        a.consensus.contains_key(k) ==> b.consensus.contains_key(k) && b.consensus[k]
            == a.consensus[k]
}

proof fn lemma_step_extends(i: Instr, m: State, a: Env, b: Env, depth: nat, active: Seq<u32>)
    requires
        extends(a, b),
        m.err is None,
        step(i, m, a, depth, active).err is None,
    ensures
        step(i, m, b, depth, active) == step(i, m, a, depth, active),
    decreases
            MAX_CALL_DEPTH - depth,
            match i {
                Instr::Loop { body, .. } => body.len() + 1,
                _ => 0,
            },
            0nat,
{
    match i {
        Instr::Loop { count, body } => {
            lemma_repeat_extends(body, count, m, a, b, depth, active);
        },
        Instr::Call { id } => {
            assert(a.subs.contains_key(id));
            larger_tables_keep_the_output(a.subs[id], m, a, b, depth + 1, active.push(id));
        },
        Instr::Ref { key } => {
            assert(a.consensus.contains_key(key));
        },
        Instr::Scan { count, template, params } => {
            assert(a.subs.contains_key(template));
            let inner = State { params: Some((params, 0)), ..m };
            lemma_repeat_extends(a.subs[template], count, inner, a, b, depth + 1, active);
        },
        _ => {},
    }
}

proof fn lemma_repeat_extends(
    code: Seq<u8>,
    count: nat,
    m: State,
    a: Env,
    b: Env,
    depth: nat,
    active: Seq<u32>,
)
    requires
        extends(a, b),
        m.err is None,
        repeat(code, count, m, a, depth, active).err is None,
    ensures
        repeat(code, count, m, b, depth, active) == repeat(code, count, m, a, depth, active),
    decreases MAX_CALL_DEPTH - depth, code.len(), count + 1,
{
    if count > 0 {
        lemma_repeat_extends(code, (count - 1) as nat, m, a, b, depth, active);
        let prev = repeat(code, (count - 1) as nat, m, a, depth, active);
        larger_tables_keep_the_output(code, prev, a, b, depth, active);
    }
}

/// A program that runs to its end does the same with larger tables.
pub proof fn larger_tables_keep_the_output(
    code: Seq<u8>,
    m: State,
    a: Env,
    b: Env,
    depth: nat,
    active: Seq<u32>,
)
    requires
        extends(a, b),
        m.err is None,
        run(code, m, a, depth, active).err is None,
    ensures
        run(code, m, b, depth, active) == run(code, m, a, depth, active),
    decreases MAX_CALL_DEPTH - depth, code.len(), 0nat,
{
    if code.len() > 0 {
        lemma_parse_instr_bounds(code);
        if let Ok((i, n)) = parse_instr(code) {
            if !(i is Halt) {
                lemma_step_extends(i, m, a, b, depth, active);
                let after = step(i, m, a, depth, active);
                larger_tables_keep_the_output(code.skip(n as int), after, a, b, depth, active);
            }
        }
    }
}

/// A token sequence that runs to its end does the same with larger tables.
pub proof fn lemma_toks_run_extends(
    ts: Seq<Tok>,
    m: State,
    a: Env,
    b: Env,
    depth: nat,
    active: Seq<u32>,
)
    requires
        extends(a, b),
        m.err is None,
        toks_run(ts, m, a, depth, active).err is None,
    ensures
        toks_run(ts, m, b, depth, active) == toks_run(ts, m, a, depth, active),
    decreases ts.len(),
{
    if ts.len() > 0 {
        let i = instr_of(ts[0]);
        lemma_step_extends(i, m, a, b, depth, active);
        let after = step(i, m, a, depth, active);
        lemma_toks_run_extends(ts.drop_first(), after, a, b, depth, active);
    }
}

/// The state after appending bytes that fit.
pub open spec fn with_output(m: State, data: Seq<u8>) -> State {
    State { out: m.out + data, ..m }
}

/// Run from the top level, the tokens append exactly `data` wherever it fits.
pub open spec fn appends(ts: Seq<Tok>, data: Seq<u8>, env: Env) -> bool {
    forall|m: State|
        m.err is None && m.out.len() + data.len() <= MAX_OUTPUT_BYTES ==> #[trigger] toks_run(
            ts,
            m,
            env,
            0,
            Seq::empty(),
        ) == with_output(m, data)
}

/// Run from the start, the tokens yield exactly `data`.
pub open spec fn yields(ts: Seq<Tok>, data: Seq<u8>, env: Env) -> bool {
    toks_run(ts, fresh(), env, 0, Seq::empty()) == (State { out: data, params: None, err: None })
}

/// A literal appends its data.
pub proof fn lemma_lit_appends(data: Seq<u8>, env: Env)
    ensures
        appends(seq![Tok::Lit { data }], data, env),
{
    let ts = seq![Tok::Lit { data }];
    assert forall|m: State|
        m.err is None && m.out.len() + data.len() <= MAX_OUTPUT_BYTES implies #[trigger] toks_run(
        ts,
        m,
        env,
        0,
        Seq::empty(),
    ) == with_output(m, data) by {
        assert(toks_run(ts.drop_first(), m.emit(data), env, 0, Seq::empty()) == m.emit(data));
    }
}

/// Nothing appends nothing.
pub proof fn lemma_nothing_appends(env: Env)
    ensures
        appends(Seq::empty(), Seq::empty(), env),
{
    assert forall|m: State|
        m.err is None && m.out.len() <= MAX_OUTPUT_BYTES implies #[trigger] toks_run(
        Seq::empty(),
        m,
        env,
        0,
        Seq::empty(),
    ) == with_output(m, Seq::empty()) by {
        assert(m.out + Seq::<u8>::empty() =~= m.out);
    }
}

/// Sequences that append, one behind the other, append the concatenation.
pub proof fn lemma_appends_concat(a: Seq<Tok>, x: Seq<u8>, b: Seq<Tok>, y: Seq<u8>, env: Env)
    requires
        appends(a, x, env),
        appends(b, y, env),
    ensures
        appends(a + b, x + y, env),
{
    assert forall|m: State|
        m.err is None && m.out.len() + (x + y).len()
            <= MAX_OUTPUT_BYTES implies #[trigger] toks_run(a + b, m, env, 0, Seq::empty())
        == with_output(m, x + y) by {
        lemma_toks_run_concat(a, b, m, env, 0, Seq::empty());
        let mid = with_output(m, x);
        assert(toks_run(a, m, env, 0, Seq::empty()) == mid);
        assert(toks_run(b, mid, env, 0, Seq::empty()) == with_output(mid, y));
        assert((m.out + x) + y =~= m.out + (x + y));
    }
}

/// What yields with some tables yields with larger ones.
pub proof fn lemma_yields_extends(ts: Seq<Tok>, data: Seq<u8>, a: Env, b: Env)
    requires
        yields(ts, data, a),
        extends(a, b),
    ensures
        yields(ts, data, b),
{
    lemma_toks_run_extends(ts, fresh(), a, b, 0, Seq::empty());
}

/// Tokens that append a fitting block yield it from the start.
pub proof fn lemma_appends_yields(ts: Seq<Tok>, data: Seq<u8>, env: Env)
    requires
        appends(ts, data, env),
        data.len() <= MAX_OUTPUT_BYTES,
    ensures
        yields(ts, data, env),
{
    assert(toks_run(ts, fresh(), env, 0, Seq::empty()) == with_output(fresh(), data));
    assert(Seq::<u8>::empty() + data =~= data);
}

/// Wherever the first sequence runs to its end, the second does the same.
pub open spec fn refines(a: Seq<Tok>, b: Seq<Tok>, env: Env) -> bool {
    forall|m: State|
        m.err is None && toks_run(a, m, env, 0, Seq::empty()).err is None ==> #[trigger] toks_run(
            b,
            m,
            env,
            0,
            Seq::empty(),
        ) == toks_run(a, m, env, 0, Seq::empty())
}

/// Tokens that append the data of a literal do what the literal does.
pub proof fn lemma_appends_refines(data: Seq<u8>, seg: Seq<Tok>, env: Env)
    requires
        appends(seg, data, env),
    ensures
        refines(seq![Tok::Lit { data }], seg, env),
{
    let lit = seq![Tok::Lit { data }];
    let none = Seq::<u32>::empty();
    assert forall|m: State|
        m.err is None && toks_run(lit, m, env, 0, none).err is None implies #[trigger] toks_run(
        seg,
        m,
        env,
        0,
        none,
    ) == toks_run(lit, m, env, 0, none) by {
        let after = m.emit(data);
        assert(step(instr_of(lit[0]), m, env, 0, none) == after);
        assert(toks_run(lit.drop_first(), after, env, 0, none) == after);
    }
}

/// Refinement goes part by part.
pub proof fn lemma_refines_concat(a: Seq<Tok>, b: Seq<Tok>, c: Seq<Tok>, d: Seq<Tok>, env: Env)
    requires
        refines(a, b, env),
        refines(c, d, env),
    ensures
        refines(a + c, b + d, env),
{
    let none = Seq::<u32>::empty();
    assert forall|m: State|
        m.err is None && toks_run(a + c, m, env, 0, none).err is None implies #[trigger] toks_run(
        b + d,
        m,
        env,
        0,
        none,
    ) == toks_run(a + c, m, env, 0, none) by {
        lemma_toks_run_concat(a, c, m, env, 0, none);
        lemma_toks_run_concat(b, d, m, env, 0, none);
        let mid = toks_run(a, m, env, 0, none);
        assert(toks_run(b, m, env, 0, none) == mid);
        assert(toks_run(d, mid, env, 0, none) == toks_run(c, mid, env, 0, none));
    }
}

/// A refinement of tokens that yield some data yields it too.
pub proof fn lemma_yields_refines(a: Seq<Tok>, b: Seq<Tok>, data: Seq<u8>, env: Env)
    requires
        yields(a, data, env),
        refines(a, b, env),
    ensures
        yields(b, data, env),
{
    assert(toks_run(b, fresh(), env, 0, Seq::empty()) == toks_run(
        a,
        fresh(),
        env,
        0,
        Seq::empty(),
    ));
}

} // verus!
