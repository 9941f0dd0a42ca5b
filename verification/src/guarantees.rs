//! What every run of the machine keeps, whatever the program.

use vstd::prelude::*;
use crate::builder::elit_bytes;
use crate::bytes::{le32_value, lemma_le32, lemma_le32_back};
use crate::deflate::{zlib_contents, zlib_stream};
use crate::leb::{leb_bytes, leb_size, lemma_leb_bytes, lemma_leb_parse_prefix};
use crate::machine::{
    copied, execute, fresh, lemma_operand, lemma_parse_instr_bounds, map_step, operand,
    parse_instr, repeat, run, running_words, step, transformed, Env, Instr, State, Transform,
    MAX_CALL_DEPTH, MAX_OUTPUT_BYTES,
};
use crate::tokens::{
    all_fit, instr_of, lemma_operand_at, lo32, running_code_is_running_tokens, toks_bytes, toks_run,
    Tok,
};
use crate::vm_error::VmError;

verus! {

broadcast use {crate::bytes::lemma_le32_len, crate::bytes::lemma_le32_bound};

/// Every transform keeps the length of the block.
pub proof fn transforms_keep_the_length(t: Transform, s: Seq<u8>)
    ensures
        transformed(t, s) matches Some(block) ==> block.len() == s.len(),
{
    if t == Transform::DeltaU32 && s.len() % 4 == 0 {
        lemma_running_words_len(s, s.len() / 4);
    }
}

proof fn lemma_running_words_len(s: Seq<u8>, n: nat)
    ensures
        running_words(s, n).len() == 4 * n,
    decreases n,
{
    if n > 0 {
        lemma_running_words_len(s, (n - 1) as nat);
    }
}

/// Adding one and subtracting one undo each other, on bytes and on 32-bit
/// numbers.
pub proof fn increments_undo_decrements(s: Seq<u8>)
    ensures
        transformed(Transform::IncU8, transformed(Transform::DecU8, s)->0) == Some(s),
        transformed(Transform::DecU8, transformed(Transform::IncU8, s)->0) == Some(s),
        s.len() == 4 ==> transformed(
            Transform::IncU32,
            transformed(Transform::DecU32, s)->0,
        ) == Some(s),
        s.len() == 4 ==> transformed(
            Transform::DecU32,
            transformed(Transform::IncU32, s)->0,
        ) == Some(s),
{
    assert(transformed(Transform::IncU8, transformed(Transform::DecU8, s)->0)->0 =~= s);
    assert(transformed(Transform::DecU8, transformed(Transform::IncU8, s)->0)->0 =~= s);
    if s.len() == 4 {
        let v = le32_value(s);
        lemma_le32_back(s);
        let less = (v + 0xFFFF_FFFF) % 0x1_0000_0000;
        let more = (v + 1) % 0x1_0000_0000;
        lemma_le32(less);
        lemma_le32(more);
        assert((less + 1) % 0x1_0000_0000 == v);
        assert((more + 0xFFFF_FFFF) % 0x1_0000_0000 == v);
    }
}

/// Swapping four bytes twice gives them back.
pub proof fn swapping_twice_changes_nothing(s: Seq<u8>)
    requires
        s.len() == 4,
    ensures
        transformed(Transform::ByteswapU32, transformed(Transform::ByteswapU32, s)->0) == Some(s),
{
    assert(transformed(Transform::ByteswapU32, transformed(Transform::ByteswapU32, s)->0)->0
        =~= s);
}

/// A copy keeps what is there, adds exactly `length` bytes, and repeats at each
/// place the byte `offset` places before it.
pub proof fn copies_repeat_the_output(out: Seq<u8>, offset: nat, length: nat)
    requires
        1 <= offset <= out.len(),
    ensures
        copied(out, offset, length).len() == out.len() + length,
        copied(out, offset, length).take(out.len() as int) == out,
        forall|i: int|
            out.len() <= i < out.len() + length ==> #[trigger] copied(out, offset, length)[i]
                == copied(out, offset, length)[i - offset],
    decreases length,
{
    if length == 0 {
        assert(out.take(out.len() as int) =~= out);
    } else {
        copies_repeat_the_output(out, offset, (length - 1) as nat);
        let prev = copied(out, offset, (length - 1) as nat);
        let all = copied(out, offset, length);
        assert(all.take(out.len() as int) =~= prev.take(out.len() as int));
        assert forall|i: int| out.len() <= i < out.len() + length implies #[trigger] all[i] == all[i
            - offset] by {
            if i < prev.len() {
                assert(prev[i] == prev[i - offset]);
            }
        }
    }
}

/// The output was not cut and not grown past its limit.
pub open spec fn is_growth(before: State, after: State) -> bool {
    &&& before.out.len() <= after.out.len()
    &&& before.out.len() <= MAX_OUTPUT_BYTES ==> after.out.len() <= MAX_OUTPUT_BYTES
}

proof fn lemma_step_grows(i: Instr, m: State, env: Env, depth: nat, active: Seq<u32>)
    ensures
        is_growth(m, step(i, m, env, depth, active)),
    decreases
            MAX_CALL_DEPTH - depth,
            match i {
                Instr::Loop { body, .. } => body.len() + 1,
                _ => 0,
            },
            0nat,
{
    match i {
        Instr::Cpy { offset, length } => {
            if 1 <= offset <= m.out.len() {
                copies_repeat_the_output(m.out, offset, length);
                if m.out.len() < MAX_OUTPUT_BYTES {
                    copies_repeat_the_output(
                        m.out,
                        offset,
                        (MAX_OUTPUT_BYTES - m.out.len()) as nat,
                    );
                }
            }
        },
        Instr::MapBlock { transform, length } => {
            if length <= m.out.len() {
                transforms_keep_the_length(transform, m.out.skip(m.out.len() - length));
            }
        },
        Instr::Loop { count, body } => {
            lemma_repeat_grows(body, count, m, env, depth, active);
        },
        Instr::Call { id } => {
            if depth < MAX_CALL_DEPTH && !active.contains(id) && env.subs.contains_key(id) {
                run_only_grows(env.subs[id], m, env, depth + 1, active.push(id));
            }
        },
        Instr::Scan { count, template, params } => {
            if depth < MAX_CALL_DEPTH && env.subs.contains_key(template) {
                let inner = State { params: Some((params, 0)), ..m };
                lemma_repeat_grows(env.subs[template], count, inner, env, depth + 1, active);
            }
        },
        _ => {},
    }
}

proof fn lemma_repeat_grows(
    code: Seq<u8>,
    count: nat,
    m: State,
    env: Env,
    depth: nat,
    active: Seq<u32>,
)
    ensures
        is_growth(m, repeat(code, count, m, env, depth, active)),
    decreases MAX_CALL_DEPTH - depth, code.len(), count + 1,
{
    if count > 0 {
        lemma_repeat_grows(code, (count - 1) as nat, m, env, depth, active);
        let prev = repeat(code, (count - 1) as nat, m, env, depth, active);
        run_only_grows(code, prev, env, depth, active);
    }
}

/// No run makes the output shorter, and none makes it longer than its limit.
pub proof fn run_only_grows(code: Seq<u8>, m: State, env: Env, depth: nat, active: Seq<u32>)
    ensures
        is_growth(m, run(code, m, env, depth, active)),
    decreases MAX_CALL_DEPTH - depth, code.len(), 0nat,
{
    if code.len() > 0 {
        lemma_parse_instr_bounds(code);
        if let Ok((i, n)) = parse_instr(code) {
            if !(i is Halt) {
                lemma_step_grows(i, m, env, depth, active);
                let after = step(i, m, env, depth, active);
                run_only_grows(code.skip(n as int), after, env, depth, active);
            }
        }
    }
}

/// A whole program yields no more than the limit.
pub proof fn output_is_bounded(code: Seq<u8>, env: Env)
    ensures
        execute(code, env).out.len() <= MAX_OUTPUT_BYTES,
{
    run_only_grows(code, fresh(), env, 0, Seq::empty());
}

/// A number that is read does not depend on what stands behind it.
proof fn lemma_operand_behind(s: Seq<u8>, at: nat, rest: Seq<u8>)
    requires
        at <= s.len(),
        operand(s, at) is Some,
    ensures
        operand(s + rest, at) == operand(s, at),
        operand(s, at) matches Some((v, end)) ==> end <= s.len(),
{
    lemma_operand(s, at);
    lemma_leb_parse_prefix(s.skip(at as int), rest);
    assert((s + rest).skip(at as int) =~= s.skip(at as int) + rest);
}

/// An instruction that is read does not depend on what stands behind it.
proof fn lemma_parse_behind(s: Seq<u8>, rest: Seq<u8>)
    requires
        s.len() > 0,
        parse_instr(s) is Ok,
    ensures
        parse_instr(s + rest) == parse_instr(s),
{
    let t = s + rest;
    lemma_parse_instr_bounds(s);
    assert(t[0] == s[0]);
    assert(s.len() >= 2 ==> t[1] == s[1]);
    if operand(s, 1) is Some {
        lemma_operand_behind(s, 1, rest);
        let (_, at) = operand(s, 1)->0;
        if operand(s, at) is Some {
            lemma_operand_behind(s, at, rest);
            let (_, at2) = operand(s, at)->0;
            if operand(s, at2) is Some {
                lemma_operand_behind(s, at2, rest);
            }
        }
    }
    if s.len() >= 2 && operand(s, 2) is Some {
        lemma_operand_behind(s, 2, rest);
    }
    assert forall|a: int, b: int| 0 <= a <= b <= s.len() implies #[trigger] t.subrange(a, b)
        == s.subrange(a, b) by {
        assert(t.subrange(a, b) =~= s.subrange(a, b));
    }
}

/// A run from `m` comes to a halt of the program itself, not of a macro or a loop
/// in it.
pub open spec fn halts(code: Seq<u8>, m: State, env: Env, depth: nat, active: Seq<u32>) -> bool
    decreases code.len(),
    via halts_decreases
{
    if code.len() == 0 {
        false
    } else {
        match parse_instr(code) {
            Err(_) => false,
            Ok((i, n)) => if i is Halt {
                true
            } else {
                let after = step(i, m, env, depth, active);
                after.err is None && halts(code.skip(n as int), after, env, depth, active)
            },
        }
    }
}

#[via_fn]
proof fn halts_decreases(code: Seq<u8>, m: State, env: Env, depth: nat, active: Seq<u32>) {
    if code.len() > 0 {
        lemma_parse_instr_bounds(code);
    }
}

/// Where a program ends without an error and without a halt, what stands behind it
/// runs from there.
#[verifier::rlimit(30)]
pub proof fn programs_run_one_behind_the_other(
    p: Seq<u8>,
    q: Seq<u8>,
    m: State,
    env: Env,
    depth: nat,
    active: Seq<u32>,
)
    requires
        run(p, m, env, depth, active).err is None,
        !halts(p, m, env, depth, active),
    ensures
        run(p + q, m, env, depth, active) == run(
            q,
            run(p, m, env, depth, active),
            env,
            depth,
            active,
        ),
    decreases p.len(),
{
    if p.len() == 0 {
        assert(p + q =~= q);
    } else {
        lemma_parse_instr_bounds(p);
        if let Ok((i, n)) = parse_instr(p) {
            lemma_parse_behind(p, q);
            let after = step(i, m, env, depth, active);
            let rest = p.skip(n as int);
            assert((p + q).skip(n as int) =~= rest + q);
            programs_run_one_behind_the_other(rest, q, after, env, depth, active);
        }
    }
}

/// What stands behind a halt changes nothing: neither where the program before it
/// comes to its end, nor where it halts by itself.
#[verifier::rlimit(30)]
pub proof fn halt_ends_the_program(
    p: Seq<u8>,
    q: Seq<u8>,
    m: State,
    env: Env,
    depth: nat,
    active: Seq<u32>,
)
    ensures
        run(p, m, env, depth, active).err is None && !halts(p, m, env, depth, active) ==> run(
            p + seq![0xFFu8] + q,
            m,
            env,
            depth,
            active,
        ) == run(p, m, env, depth, active),
        halts(p, m, env, depth, active) ==> run(p + q, m, env, depth, active) == run(
            p,
            m,
            env,
            depth,
            active,
        ),
    decreases p.len(),
{
    let end = run(p, m, env, depth, active);
    if halts(p, m, env, depth, active) {
        lemma_parse_instr_bounds(p);
        if let Ok((i, n)) = parse_instr(p) {
            lemma_parse_behind(p, q);
            if !(i is Halt) {
                let rest = p.skip(n as int);
                assert((p + q).skip(n as int) =~= rest + q);
                halt_ends_the_program(
                    rest,
                    q,
                    step(i, m, env, depth, active),
                    env,
                    depth,
                    active,
                );
            }
        }
    } else if end.err is None {
        let tail = seq![0xFFu8] + q;
        programs_run_one_behind_the_other(p, tail, m, env, depth, active);
        assert(p + seq![0xFFu8] + q =~= p + tail);
        assert(parse_instr(tail) == Ok::<(Instr, nat), VmError>((Instr::Halt, 1)));
        assert(run(tail, end, env, depth, active) == end);
    }
}

/// An entropy-coded literal writes its data, if the codec gives it back.
#[verifier::rlimit(30)]
pub proof fn coded_literal_writes_its_data(
    raw: Seq<u8>,
    m: State,
    env: Env,
    depth: nat,
    active: Seq<u32>,
)
    requires
        raw.len() < 0x1_0000_0000,
        zlib_stream(raw, 6).len() < 0x1_0000_0000,
        zlib_contents(zlib_stream(raw, 6)) == Some(raw),
        m.err is None,
    ensures
        run(elit_bytes(raw), m, env, depth, active) == m.emit(raw),
{
    let payload = zlib_stream(raw, 6);
    let s = elit_bytes(raw);
    let n = payload.len();
    assert(lo32(n) == n && lo32(raw.len()) == raw.len());
    lemma_leb_bytes(n);
    lemma_leb_bytes(raw.len());
    assert(s.skip(1) =~= leb_bytes(n) + (leb_bytes(raw.len()) + payload));
    lemma_operand_at(s, 1, n, leb_bytes(raw.len()) + payload);
    lemma_operand_at(s, 1 + leb_size(n), raw.len(), payload);
    let from = 1 + leb_size(n) + leb_size(raw.len());
    assert(s.skip(from as int) == payload);
    assert(s.len() == from + n);
    assert(s.subrange(from as int, (from + n) as int) =~= payload);
    assert(parse_instr(s) == Ok::<(Instr, nat), VmError>((Instr::Elit { payload }, s.len())));
    let after = m.emit(raw);
    assert(step(Instr::Elit { payload }, m, env, depth, active) == after);
    assert(s.skip(s.len() as int).len() == 0);
    assert(run(s.skip(s.len() as int), after, env, depth, active) == after);
}

/// A program that is one entropy-coded literal yields its data, if the codec gives
/// it back. Its first byte is the opcode, and its second operand is the length of
/// the data.
#[verifier::rlimit(30)]
pub proof fn coded_literals_round_trip(raw: Seq<u8>, env: Env)
    requires
        raw.len() <= MAX_OUTPUT_BYTES,
        zlib_stream(raw, 6).len() < 0x1_0000_0000,
        zlib_contents(zlib_stream(raw, 6)) == Some(raw),
    ensures
        execute(elit_bytes(raw), env) == (State { out: raw, params: None, err: None }),
        elit_bytes(raw)[0] == 0x06,
        operand(elit_bytes(raw), 1) is Some,
        ({
            let (stored, at) = operand(elit_bytes(raw), 1)->0;
            stored == zlib_stream(raw, 6).len() && operand(elit_bytes(raw), at) == Some(
                (raw.len() as u32, at + leb_size(raw.len())),
            )
        }),
{
    coded_literal_writes_its_data(raw, fresh(), env, 0, Seq::empty());
    assert(fresh().out + raw =~= raw);
    let payload = zlib_stream(raw, 6);
    let s = elit_bytes(raw);
    let n = payload.len();
    assert(lo32(n) == n && lo32(raw.len()) == raw.len());
    assert(s.skip(1) =~= leb_bytes(n) + (leb_bytes(raw.len()) + payload));
    lemma_operand_at(s, 1, n, leb_bytes(raw.len()) + payload);
    lemma_operand_at(s, 1 + leb_size(n), raw.len(), payload);
}

/// The state that a run of a whole program starts from when there is output
/// already.
pub open spec fn resumed(out: Seq<u8>) -> State {
    State { out, params: None, err: None }
}

/// The state after running a whole program `count` times in a row, each time on
/// the output so far, and stopping at an error.
pub open spec fn executed(code: Seq<u8>, count: nat, out: Seq<u8>, env: Env) -> State
    decreases count,
{
    if count == 0 {
        resumed(out)
    } else {
        let before = executed(code, (count - 1) as nat, out, env);
        if before.err is Some {
            before
        } else {
            run(code, resumed(before.out), env, 0, Seq::empty())
        }
    }
}

/// The byte code of a loop.
pub open spec fn loop_code(count: nat, body: Seq<u8>) -> Seq<u8> {
    seq![0x03u8] + leb_bytes(count) + leb_bytes(body.len()) + body
}

/// Outside of a table scan no instruction opens a parameter block for those
/// behind it.
proof fn lemma_step_params(i: Instr, m: State, env: Env, depth: nat, active: Seq<u32>)
    requires
        m.params is None,
    ensures
        step(i, m, env, depth, active).params is None,
    decreases
            MAX_CALL_DEPTH - depth,
            match i {
                Instr::Loop { body, .. } => body.len() + 1,
                _ => 0,
            },
            0nat,
{
    match i {
        Instr::Loop { count, body } => {
            lemma_repeat_params(body, count, m, env, depth, active);
        },
        Instr::Call { id } => {
            if depth < MAX_CALL_DEPTH && !active.contains(id) && env.subs.contains_key(id) {
                lemma_run_params(env.subs[id], m, env, depth + 1, active.push(id));
            }
        },
        _ => {},
    }
}

proof fn lemma_repeat_params(
    code: Seq<u8>,
    count: nat,
    m: State,
    env: Env,
    depth: nat,
    active: Seq<u32>,
)
    requires
        m.params is None,
    ensures
        repeat(code, count, m, env, depth, active).params is None,
    decreases MAX_CALL_DEPTH - depth, code.len(), count + 1,
{
    if count > 0 {
        lemma_repeat_params(code, (count - 1) as nat, m, env, depth, active);
        let prev = repeat(code, (count - 1) as nat, m, env, depth, active);
        lemma_run_params(code, prev, env, depth, active);
    }
}

proof fn lemma_run_params(code: Seq<u8>, m: State, env: Env, depth: nat, active: Seq<u32>)
    requires
        m.params is None,
    ensures
        run(code, m, env, depth, active).params is None,
    decreases MAX_CALL_DEPTH - depth, code.len(), 0nat,
{
    if code.len() > 0 {
        lemma_parse_instr_bounds(code);
        if let Ok((i, n)) = parse_instr(code) {
            if !(i is Halt) {
                lemma_step_params(i, m, env, depth, active);
                let after = step(i, m, env, depth, active);
                lemma_run_params(code.skip(n as int), after, env, depth, active);
            }
        }
    }
}

/// Repeating a body is running it as a whole program as often.
proof fn lemma_repeat_is_executed(body: Seq<u8>, count: nat, out: Seq<u8>, env: Env)
    ensures
        repeat(body, count, resumed(out), env, 0, Seq::empty()) == executed(body, count, out, env),
    decreases count,
{
    if count > 0 {
        lemma_repeat_is_executed(body, (count - 1) as nat, out, env);
        let prev = repeat(body, (count - 1) as nat, resumed(out), env, 0, Seq::empty());
        lemma_repeat_params(body, (count - 1) as nat, resumed(out), env, 0, Seq::empty());
        if prev.err is None {
            assert(prev == resumed(prev.out));
        }
    }
}

/// Running a loop does what running its body `count` times in a row does: the
/// output is the same, and so is the error that stops it. A loop of no rounds
/// changes nothing.
pub proof fn loops_repeat_their_body(count: nat, body: Seq<u8>, out: Seq<u8>, env: Env)
    requires
        count < 0x1_0000_0000,
        body.len() < 0x1_0000_0000,
    ensures
        run(loop_code(count, body), resumed(out), env, 0, Seq::empty()) == executed(
            body,
            count,
            out,
            env,
        ),
        run(loop_code(0, body), resumed(out), env, 0, Seq::empty()) == resumed(out),
{
    lemma_repeat_is_executed(body, count, out, env);
    lemma_loop_runs(count, body, resumed(out), env, 0, Seq::empty());
    lemma_loop_runs(0, body, resumed(out), env, 0, Seq::empty());
}

/// Running the byte code of a loop repeats its body.
pub proof fn lemma_loop_runs(
    count: nat,
    body: Seq<u8>,
    m: State,
    env: Env,
    depth: nat,
    active: Seq<u32>,
)
    requires
        count < 0x1_0000_0000,
        body.len() < 0x1_0000_0000,
    ensures
        run(loop_code(count, body), m, env, depth, active) == repeat(
            body,
            count,
            m,
            env,
            depth,
            active,
        ),
{
    let s = loop_code(count, body);
    assert(s.skip(1) =~= leb_bytes(count) + (leb_bytes(body.len()) + body));
    lemma_operand_at(s, 1, count, leb_bytes(body.len()) + body);
    lemma_operand_at(s, 1 + leb_size(count), body.len(), body);
    let from = 1 + leb_size(count) + leb_size(body.len());
    assert(s.skip(from as int) == body);
    assert(s.len() == from + body.len());
    assert(s.subrange(from as int, (from + body.len()) as int) =~= body);
    assert(parse_instr(s) == Ok::<(Instr, nat), VmError>((Instr::Loop { count, body }, s.len())));
    let after = step(Instr::Loop { count, body }, m, env, depth, active);
    assert(after == repeat(body, count, m, env, depth, active));
    assert(s.skip(s.len() as int).len() == 0);
    assert(run(s.skip(s.len() as int), after, env, depth, active) == after);
}

/// The second transform undoes the first on blocks of `length` bytes.
pub open spec fn are_inverse(t: Transform, u: Transform, length: nat) -> bool {
    match (t, u) {
        (Transform::IncU8, Transform::DecU8) => true,
        (Transform::DecU8, Transform::IncU8) => true,
        (Transform::IncU32, Transform::DecU32) => length == 4,
        (Transform::DecU32, Transform::IncU32) => length == 4,
        (Transform::ByteswapU32, Transform::ByteswapU32) => length == 4,
        _ => false,
    }
}

/// On blocks too, the second transform undoes the first.
proof fn lemma_inverse_blocks(t: Transform, u: Transform, s: Seq<u8>)
    requires
        are_inverse(t, u, s.len()),
    ensures
        transformed(t, s) matches Some(block) && block.len() == s.len() && transformed(u, block)
            == Some(s),
{
    increments_undo_decrements(s);
    if s.len() == 4 {
        swapping_twice_changes_nothing(s);
    }
    transforms_keep_the_length(t, s);
}

/// Transforming the end of the output and transforming it back leaves the
/// machine as it was: incrementing and decrementing undo each other, and swapping
/// undoes itself.
pub proof fn inverse_transforms_cancel(m: State, t: Transform, u: Transform, length: nat)
    requires
        length <= m.out.len(),
        are_inverse(t, u, length),
    ensures
        map_step(map_step(m, t, length), u, length) == m,
        map_step(m, t, length).err == m.err,
{
    let start = m.out.len() - length;
    let (front, end) = (m.out.take(start), m.out.skip(start));
    lemma_inverse_blocks(t, u, end);
    let block = transformed(t, end)->0;
    let mid = map_step(m, t, length);
    assert(mid.out == front + block);
    assert(mid.out.skip(start) =~= block);
    assert(mid.out.take(start) =~= front);
    assert(front + end =~= m.out);
}

/// A program of a transform and its inverse leaves the machine as it was.
#[verifier::rlimit(30)]
pub proof fn inverse_instructions_cancel(
    m: State,
    t: Transform,
    u: Transform,
    length: nat,
    env: Env,
    depth: nat,
    active: Seq<u32>,
)
    requires
        m.err is None,
        length <= m.out.len(),
        length < 0x1_0000_0000,
        are_inverse(t, u, length),
    ensures
        run(
            toks_bytes(
                seq![
                    Tok::MapBlock { transform: t, length },
                    Tok::MapBlock { transform: u, length },
                ],
            ),
            m,
            env,
            depth,
            active,
        ) == m,
{
    let ts = seq![
        Tok::MapBlock { transform: t, length },
        Tok::MapBlock { transform: u, length },
    ];
    let mid = map_step(m, t, length);
    inverse_transforms_cancel(m, t, u, length);
    assert(all_fit(ts));
    running_code_is_running_tokens(ts, m, env, depth, active);
    let tail = ts.drop_first();
    assert(tail =~= seq![ts[1]]);
    assert(tail.drop_first() =~= Seq::<Tok>::empty());
    assert(step(instr_of(ts[0]), m, env, depth, active) == mid);
    assert(step(instr_of(tail[0]), mid, env, depth, active) == m);
    assert(toks_run(tail.drop_first(), m, env, depth, active) == m);
    assert(toks_run(tail, mid, env, depth, active) == m);
}

} // verus!
