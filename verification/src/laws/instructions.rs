//! What each instruction does, byte by byte of its code.

use vstd::prelude::*;
use crate::consensus::Consensus;
use crate::deflate::zlib_contents;
use crate::guarantees::{copies_repeat_the_output, lemma_loop_runs};
use crate::laws::codes::operands_need_a_low_byte;
use crate::leb::{leb_bytes, leb_size, lemma_leb_bytes};
use crate::machine::{
    map_step, parse_instr, repeat, run, step, Env, Instr, Opcode, State, Transform,
};
use crate::synth::program::code_of;
use crate::tokens::{
    fits, instr_of, lemma_operand_at, lo32, param_bytes, running_code_is_running_tokens, tok_bytes,
    toks_bytes, toks_run, Tok,
};
use crate::vm::{env_of, Subs};
use crate::vm_error::VmError;

verus! {

/// How many bytes a program may produce: 256 MiB.
pub open spec fn output_limit() -> nat {
    0x1000_0000
}

/// How deep calls and scans may nest.
pub open spec fn nesting_limit() -> nat {
    16
}

proof fn lemma_single(t: Tok, m: State, env: Env, depth: nat, active: Seq<u32>)
    requires
        fits(t),
        m.err is None,
    ensures
        run(tok_bytes(t), m, env, depth, active) == step(instr_of(t), m, env, depth, active),
{
    let ts = seq![t];
    running_code_is_running_tokens(ts, m, env, depth, active);
    assert(ts.drop_last() =~= Seq::<Tok>::empty());
    assert(toks_bytes(ts.drop_last()) =~= Seq::<u8>::empty());
    assert(toks_bytes(ts) =~= tok_bytes(t));
    let after = step(instr_of(t), m, env, depth, active);
    assert(ts.drop_first() =~= Seq::<Tok>::empty());
    assert(toks_run(ts.drop_first(), after, env, depth, active) == after);
}

/// A literal appends its bytes, or stops the run where the output would get longer
/// than 256 MiB.
pub proof fn literals_append_their_bytes(
    data: Seq<u8>,
    m: State,
    env: Env,
    depth: nat,
    active: Seq<u32>,
)
    requires
        data.len() < 0x1_0000_0000,
        m.err is None,
    ensures
        ({
            let e = run(seq![0x00u8] + leb_bytes(data.len()) + data, m, env, depth, active);
            &&& m.out.len() + data.len() <= output_limit() ==> e == (State {
                out: m.out + data,
                params: m.params,
                err: None,
            })
            &&& m.out.len() + data.len() > output_limit() ==> e.err == Some(VmError::OutputOverflow)
                && e.out == m.out
        }),
{
    lemma_single(Tok::Lit { data }, m, env, depth, active);
    assert(lo32(data.len()) == data.len());
}

/// A copy repeats what was written `offset` bytes before, byte by byte, also what
/// it has just written itself. It stops the run where nothing was written so far
/// back.
#[verifier::rlimit(30)]
pub proof fn copies_repeat_what_was_written(
    offset: nat,
    length: nat,
    m: State,
    env: Env,
    depth: nat,
    active: Seq<u32>,
)
    requires
        offset < 0x1_0000_0000,
        length < 0x1_0000_0000,
        m.err is None,
    ensures
        ({
            let e = run(
                seq![0x01u8] + leb_bytes(offset) + leb_bytes(length),
                m,
                env,
                depth,
                active,
            );
            &&& offset == 0 || offset > m.out.len() ==> e.err == Some(VmError::CpyUnderflow)
                && e.out == m.out
            &&& 0 < offset <= m.out.len() && m.out.len() + length <= output_limit() ==> {
                &&& e.err is None
                &&& e.params == m.params
                &&& e.out.len() == m.out.len() + length
                &&& e.out.take(m.out.len() as int) == m.out
                &&& forall|i: int|
                    m.out.len() <= i < e.out.len() ==> #[trigger] e.out[i] == e.out[i - offset]
            }
            &&& 0 < offset <= m.out.len() <= output_limit() && m.out.len() + length
                > output_limit() ==> {
                &&& e.err == Some(VmError::OutputOverflow)
                &&& e.out.len() == output_limit()
                &&& e.out.take(m.out.len() as int) == m.out
                &&& forall|i: int|
                    m.out.len() <= i < e.out.len() ==> #[trigger] e.out[i] == e.out[i - offset]
            }
        }),
{
    lemma_single(Tok::Cpy { offset, length }, m, env, depth, active);
    assert(lo32(offset) == offset && lo32(length) == length);
    if 0 < offset <= m.out.len() {
        copies_repeat_the_output(m.out, offset, length);
        assert(m.out.take(m.out.len() as int) =~= m.out);
        if m.out.len() < output_limit() {
            copies_repeat_the_output(m.out, offset, (output_limit() - m.out.len()) as nat);
        }
    }
}

/// A transform instruction names the transform by its number and the block by its
/// length.
pub proof fn transform_instructions_transform_the_end(
    t: Transform,
    length: nat,
    m: State,
    env: Env,
    depth: nat,
    active: Seq<u32>,
)
    requires
        length < 0x1_0000_0000,
        m.err is None,
    ensures
        run(seq![0x02u8, t.byte()] + leb_bytes(length), m, env, depth, active)
            == map_step(m, t, length),
{
    lemma_single(Tok::MapBlock { transform: t, length }, m, env, depth, active);
    assert(lo32(length) == length);
}

/// A call runs the macro as a program of its own, one level deeper. It stops the run
/// where sixteen levels are open, where the macro is open already, or where there is
/// no such macro.
pub proof fn calls_run_their_macro(
    id: u32,
    m: State,
    env: Env,
    depth: nat,
    active: Seq<u32>,
)
    requires
        m.err is None,
    ensures
        ({
            let e = run(seq![0x04u8] + leb_bytes(id as nat), m, env, depth, active);
            &&& depth >= nesting_limit() ==> e == m.fail(VmError::CallDepthExceeded)
            &&& depth < nesting_limit() && active.contains(id) ==> e == m.fail(
                VmError::CallCycle(id),
            )
            &&& depth < nesting_limit() && !active.contains(id) && !env.subs.contains_key(id)
                ==> e == m.fail(VmError::UnknownRef)
            &&& depth < nesting_limit() && !active.contains(id) && env.subs.contains_key(id)
                ==> e == run(env.subs[id], m, env, depth + 1, active.push(id))
        }),
{
    lemma_single(Tok::Call { id }, m, env, depth, active);
}

/// A failure keeps the output and tells what went wrong.
pub proof fn failures_keep_the_output(m: State, e: VmError)
    ensures
        m.fail(e).out == m.out,
        m.fail(e).err == Some(e),
{
}

/// A reference appends the block under its key, and stops the run where there is
/// none.
pub proof fn references_append_their_block(
    key: Seq<u8>,
    m: State,
    env: Env,
    depth: nat,
    active: Seq<u32>,
)
    requires
        key.len() < 256,
        m.err is None,
    ensures
        ({
            let e = run(seq![0x05u8, key.len() as u8] + key, m, env, depth, active);
            &&& !env.consensus.contains_key(key) ==> e.err == Some(VmError::UnknownRef) && e.out
                == m.out
            &&& env.consensus.contains_key(key) && m.out.len() + env.consensus[key].len()
                <= output_limit() ==> e == (State {
                out: m.out + env.consensus[key],
                params: m.params,
                err: None,
            })
            &&& env.consensus.contains_key(key) && m.out.len() + env.consensus[key].len()
                > output_limit() ==> e.err == Some(VmError::OutputOverflow) && e.out == m.out
        }),
{
    lemma_single(Tok::Ref { key }, m, env, depth, active);
    assert((key.len() % 256) as u8 == key.len() as u8);
}

/// A coded literal appends what its payload inflates to, whatever length is told
/// beside it, and stops the run where it does not inflate.
pub proof fn coded_literals_append_what_they_inflate_to(
    payload: Seq<u8>,
    told: nat,
    m: State,
    env: Env,
    depth: nat,
    active: Seq<u32>,
)
    requires
        payload.len() < 0x1_0000_0000,
        told < 0x1_0000_0000,
        m.err is None,
    ensures
        ({
            let e = run(
                seq![0x06u8] + leb_bytes(payload.len()) + leb_bytes(told) + payload,
                m,
                env,
                depth,
                active,
            );
            match zlib_contents(payload) {
                None => e.err == Some(VmError::TruncatedProgram) && e.out == m.out,
                Some(data) => if m.out.len() + data.len() <= output_limit() {
                    e == (State { out: m.out + data, params: m.params, err: None })
                } else {
                    e.err == Some(VmError::OutputOverflow) && e.out == m.out
                },
            }
        }),
{
    let n = payload.len();
    let s = seq![0x06u8] + leb_bytes(n) + leb_bytes(told) + payload;
    lemma_leb_bytes(n);
    lemma_leb_bytes(told);
    assert(s.skip(1) =~= leb_bytes(n) + (leb_bytes(told) + payload));
    lemma_operand_at(s, 1, n, leb_bytes(told) + payload);
    lemma_operand_at(s, 1 + leb_size(n), told, payload);
    let from = 1 + leb_size(n) + leb_size(told);
    assert(s.skip(from as int) == payload);
    assert(s.len() == from + n);
    assert(s.subrange(from as int, (from + n) as int) =~= payload);
    assert(parse_instr(s) == Ok::<(Instr, nat), VmError>((Instr::Elit { payload }, s.len())));
    let after = step(Instr::Elit { payload }, m, env, depth, active);
    assert(s.skip(s.len() as int).len() == 0);
    assert(run(s.skip(s.len() as int), after, env, depth, active) == after);
}

/// The rows of a scan: the template is run once for each, one behind the other on
/// the same stream of fields, until one fails.
pub open spec fn rows_run(
    template: Seq<u8>,
    count: nat,
    m: State,
    env: Env,
    depth: nat,
    active: Seq<u32>,
) -> State
    decreases count,
{
    if count == 0 {
        m
    } else {
        let before = rows_run(template, (count - 1) as nat, m, env, depth, active);
        if before.err is Some {
            before
        } else {
            run(template, before, env, depth, active)
        }
    }
}

proof fn lemma_rows(
    template: Seq<u8>,
    count: nat,
    m: State,
    env: Env,
    depth: nat,
    active: Seq<u32>,
)
    ensures
        rows_run(template, count, m, env, depth, active) == repeat(
            template,
            count,
            m,
            env,
            depth,
            active,
        ),
    decreases count,
{
    if count > 0 {
        lemma_rows(template, (count - 1) as nat, m, env, depth, active);
    }
}

/// A scan runs its template once for each row, one level deeper, on its own stream
/// of fields from its beginning, and leaves the stream around it as it was.
#[verifier::rlimit(60)]
pub proof fn scans_run_their_template_for_each_row(
    count: nat,
    template: u32,
    fields: Seq<Seq<u8>>,
    m: State,
    env: Env,
    depth: nat,
    active: Seq<u32>,
)
    requires
        count < 0x1_0000_0000,
        param_bytes(fields).len() < 0x1_0000_0000,
        m.err is None,
    ensures
        ({
            let p = param_bytes(fields);
            let e = run(
                seq![0x07u8] + leb_bytes(count) + leb_bytes(template as nat) + leb_bytes(p.len())
                    + p,
                m,
                env,
                depth,
                active,
            );
            let inner = State { out: m.out, params: Some((p, 0)), err: None };
            &&& depth >= nesting_limit() ==> e == m.fail(VmError::CallDepthExceeded)
            &&& depth < nesting_limit() && !env.subs.contains_key(template) ==> e == m.fail(
                VmError::UnknownRef,
            )
            &&& depth < nesting_limit() && env.subs.contains_key(template) ==> {
                let end = rows_run(env.subs[template], count, inner, env, depth + 1, active);
                e.out == end.out && e.err == end.err && e.params == m.params
            }
        }),
{
    let p = param_bytes(fields);
    let t = Tok::Scan { count, template, params: fields };
    assert(lo32(count) == count && lo32(p.len()) == p.len());
    assert(tok_bytes(t) == seq![0x07u8] + leb_bytes(count) + leb_bytes(template as nat)
        + leb_bytes(p.len()) + p);
    lemma_single(t, m, env, depth, active);
    assert(instr_of(t) == Instr::Scan { count, template, params: p });
    if env.subs.contains_key(template) {
        let inner = State { out: m.out, params: Some((p, 0)), err: None };
        lemma_rows(env.subs[template], count, inner, env, depth + 1, active);
        assert(inner == State { params: Some((p, 0nat)), ..m });
    }
}

/// A field stream holds each field behind its length, one behind the other.
pub proof fn fields_stand_behind_their_length(fields: Seq<Seq<u8>>, field: Seq<u8>)
    requires
        field.len() < 0x1_0000_0000,
    ensures
        param_bytes(Seq::<Seq<u8>>::empty()) == Seq::<u8>::empty(),
        param_bytes(fields.push(field)) == param_bytes(fields) + (leb_bytes(field.len()) + field),
{
    assert(fields.push(field).drop_last() =~= fields);
    assert(lo32(field.len()) == field.len());
}

/// Taking a field appends it and moves the place in the stream behind it. Outside of
/// a scan, and behind the last field, there is none to take.
pub proof fn fields_are_taken_in_order(
    before: Seq<u8>,
    field: Seq<u8>,
    behind: Seq<u8>,
    m: State,
    env: Env,
    depth: nat,
    active: Seq<u32>,
)
    requires
        field.len() < 0x1_0000_0000,
        m.err is None,
    ensures
        ({
            let e = run(seq![0x08u8], m, env, depth, active);
            let stream = before + (leb_bytes(field.len()) + field) + behind;
            &&& m.params is None ==> e == m.fail(VmError::ScanNoParamStream)
            &&& m.params == Some((before, before.len())) ==> e == m.fail(
                VmError::ScanParamExhausted,
            )
            &&& m.params == Some((stream, before.len())) && m.out.len() + field.len()
                <= output_limit() ==> e == (State {
                out: m.out + field,
                params: Some(
                    (stream, before.len() + leb_bytes(field.len()).len() + field.len()),
                ),
                err: None,
            })
        }),
{
    lemma_single(Tok::Next, m, env, depth, active);
    let n = field.len();
    let stream = before + (leb_bytes(n) + field) + behind;
    let at = before.len();
    lemma_leb_bytes(n);
    assert(stream.skip(at as int) =~= leb_bytes(n) + (field + behind));
    lemma_operand_at(stream, at, n, field + behind);
    let from = at + leb_size(n);
    assert(stream.subrange(from as int, (from + n) as int) =~= field);
    assert(tok_bytes(Tok::Next) =~= seq![0x08u8]);
}

/// A byte that is no instruction stops the run.
pub proof fn other_bytes_are_no_instructions(
    b: u8,
    rest: Seq<u8>,
    m: State,
    env: Env,
    depth: nat,
    active: Seq<u32>,
)
    requires
        9 <= b <= 254,
    ensures
        run(seq![b] + rest, m, env, depth, active) == m.fail(VmError::UnknownOpcode(b)),
{
    let s = seq![b] + rest;
    assert(s[0] == b);
}

/// A literal that announces more bytes than there are stops the run.
pub proof fn announced_bytes_have_to_be_there(
    n: nat,
    data: Seq<u8>,
    m: State,
    env: Env,
    depth: nat,
    active: Seq<u32>,
)
    requires
        data.len() < n < 0x1_0000_0000,
        m.err is None,
    ensures
        run(seq![0x00u8] + leb_bytes(n) + data, m, env, depth, active) == m.fail(
            VmError::TruncatedProgram,
        ),
{
    lemma_leb_bytes(n);
    let s = seq![0x00u8] + leb_bytes(n) + data;
    assert(s.skip(1) =~= leb_bytes(n) + data);
    lemma_operand_at(s, 1, n, data);
    assert(s.len() == 1 + leb_size(n) + data.len());
    assert(parse_instr(s) == Err::<(Instr, nat), VmError>(VmError::TruncatedProgram));
}

/// A loop whose body is announced longer than there are bytes stops the run.
#[verifier::rlimit(30)]
pub proof fn loop_bodies_have_to_be_there(
    count: nat,
    n: nat,
    data: Seq<u8>,
    m: State,
    env: Env,
    depth: nat,
    active: Seq<u32>,
)
    requires
        data.len() < n < 0x1_0000_0000,
        count < 0x1_0000_0000,
        m.err is None,
    ensures
        run(seq![0x03u8] + leb_bytes(count) + leb_bytes(n) + data, m, env, depth, active)
            == m.fail(VmError::LoopBodyOverrun),
{
    lemma_leb_bytes(n);
    lemma_leb_bytes(count);
    let t = seq![0x03u8] + leb_bytes(count) + leb_bytes(n) + data;
    assert(t.skip(1) =~= leb_bytes(count) + (leb_bytes(n) + data));
    lemma_operand_at(t, 1, count, leb_bytes(n) + data);
    lemma_operand_at(t, 1 + leb_size(count), n, data);
    assert(t.len() == 1 + leb_size(count) + leb_size(n) + data.len());
    assert(parse_instr(t) == Err::<(Instr, nat), VmError>(VmError::LoopBodyOverrun));
}

/// The numbers of the instructions.
pub proof fn instructions_have_their_numbers(b: u8)
    ensures
        b == 0x00 ==> Opcode::of_byte(b) == Ok::<Opcode, VmError>(Opcode::Lit),
        b == 0x01 ==> Opcode::of_byte(b) == Ok::<Opcode, VmError>(Opcode::Cpy),
        b == 0x02 ==> Opcode::of_byte(b) == Ok::<Opcode, VmError>(Opcode::MapBlock),
        b == 0x03 ==> Opcode::of_byte(b) == Ok::<Opcode, VmError>(Opcode::Loop),
        b == 0x04 ==> Opcode::of_byte(b) == Ok::<Opcode, VmError>(Opcode::Call),
        b == 0x05 ==> Opcode::of_byte(b) == Ok::<Opcode, VmError>(Opcode::Ref),
        b == 0x06 ==> Opcode::of_byte(b) == Ok::<Opcode, VmError>(Opcode::Elit),
        b == 0x07 ==> Opcode::of_byte(b) == Ok::<Opcode, VmError>(Opcode::Scan),
        b == 0x08 ==> Opcode::of_byte(b) == Ok::<Opcode, VmError>(Opcode::Next),
        b == 0xFF ==> Opcode::of_byte(b) == Ok::<Opcode, VmError>(Opcode::Halt),
        Opcode::of_byte(b) matches Ok(op) ==> op.byte() == b,
{
}

/// The numbers of the errors.
pub proof fn errors_have_their_numbers(e: VmError)
    ensures
        e is UnknownOpcode ==> e.code_of() == 0x01,
        e is CpyUnderflow ==> e.code_of() == 0x02,
        e is LoopBodyOverrun ==> e.code_of() == 0x03,
        e is OutputOverflow ==> e.code_of() == 0x04,
        e is CallDepthExceeded ==> e.code_of() == 0x05,
        e is CallCycle ==> e.code_of() == 0x06,
        e is UnknownRef ==> e.code_of() == 0x07,
        e is RefHashMismatch ==> e.code_of() == 0x08,
        e is ConsensusUnavailable ==> e.code_of() == 0x09,
        e is UnknownMapTransform ==> e.code_of() == 0x0A,
        e is ScanNoParamStream ==> e.code_of() == 0x0B,
        e is ScanParamExhausted ==> e.code_of() == 0x0C,
        e is TruncatedProgram ==> e.code_of() == 0xFF,
{
}

/// A loop runs its body as often as it says, wherever it stands: inside macros and
/// scans too.
pub proof fn loops_run_their_body_for_each_round(
    count: nat,
    body: Seq<u8>,
    m: State,
    env: Env,
    depth: nat,
    active: Seq<u32>,
)
    requires
        count < 0x1_0000_0000,
        body.len() < 0x1_0000_0000,
    ensures
        run(
            seq![0x03u8] + leb_bytes(count) + leb_bytes(body.len()) + body,
            m,
            env,
            depth,
            active,
        ) == rows_run(body, count, m, env, depth, active),
{
    lemma_loop_runs(count, body, m, env, depth, active);
    lemma_rows(body, count, m, env, depth, active);
}

/// An instruction whose operand is cut off stops the run.
pub proof fn operands_have_to_be_there(
    op: u8,
    rest: Seq<u8>,
    m: State,
    env: Env,
    depth: nat,
    active: Seq<u32>,
)
    requires
        op == 0x00 || op == 0x01 || op == 0x03 || op == 0x04 || op == 0x06 || op == 0x07,
        forall|i: int| 0 <= i < rest.len() ==> rest[i] >= 128,
    ensures
        run(seq![op] + rest, m, env, depth, active) == m.fail(VmError::TruncatedProgram),
{
    let s = seq![op] + rest;
    assert(s.skip(1) =~= rest);
    operands_need_a_low_byte(rest);
    assert(parse_instr(s) == Err::<(Instr, nat), VmError>(VmError::TruncatedProgram));
}

/// A reference whose key is cut off stops the run, and so does a field that is.
pub proof fn keys_and_fields_have_to_be_there(
    n: u8,
    key: Seq<u8>,
    before: Seq<u8>,
    length: nat,
    field: Seq<u8>,
    m: State,
    env: Env,
    depth: nat,
    active: Seq<u32>,
)
    requires
        key.len() < n,
        field.len() < length < 0x1_0000_0000,
        m.err is None,
    ensures
        run(seq![0x05u8, n] + key, m, env, depth, active) == m.fail(VmError::TruncatedProgram),
        m.params == Some((before + (leb_bytes(length) + field), before.len())) ==> run(
            seq![0x08u8],
            m,
            env,
            depth,
            active,
        ) == m.fail(VmError::TruncatedProgram),
{
    let s = seq![0x05u8, n] + key;
    assert(s[1] == n);
    assert(parse_instr(s) == Err::<(Instr, nat), VmError>(VmError::TruncatedProgram));
    lemma_single(Tok::Next, m, env, depth, active);
    assert(tok_bytes(Tok::Next) =~= seq![0x08u8]);
    let stream = before + (leb_bytes(length) + field);
    lemma_leb_bytes(length);
    assert(stream.skip(before.len() as int) =~= leb_bytes(length) + field);
    lemma_operand_at(stream, before.len(), length, field);
}

/// A program runs against the macros and the blocks that it is given, each under its id
/// or its key.
pub proof fn programs_run_against_their_tables(subs: Subs, consensus: Consensus, id: u32)
    ensures
        env_of(subs, consensus).consensus == consensus@,
        env_of(subs, consensus).subs.contains_key(id) <==> subs@.contains_key(id),
        subs@.contains_key(id) ==> env_of(subs, consensus).subs[id] == subs@[id]@,
{
}

/// The macros of a program are run as the codes of their instructions.
pub proof fn macros_run_as_their_code(defs: vstd::map::Map<u32, Seq<Tok>>, id: u32)
    ensures
        code_of(defs).contains_key(id) <==> defs.contains_key(id),
        defs.contains_key(id) ==> code_of(defs)[id] == toks_bytes(defs[id]),
{
}

} // verus!
