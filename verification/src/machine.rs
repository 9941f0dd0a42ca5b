//! What a program does, as mathematics: how instructions are read from a byte
//! sequence, what each one does to the output, and what a whole run yields.

use vstd::prelude::*;
use crate::bytes::{le32_bytes, le32_value};
use crate::deflate::zlib_contents;
use crate::leb::{leb_parse, lemma_leb_parse_prefix};
use crate::vm_error::VmError;

verus! {

/// How deep macro calls and table scans may nest.
pub const MAX_CALL_DEPTH: usize = 16;

/// How many bytes a program may produce: 256 MiB.
pub const MAX_OUTPUT_BYTES: usize = 268_435_456;

/// The instructions of the machine.
#[derive(Clone, Copy, Debug, PartialEq, Eq, Structural)]
pub enum Opcode {
    Lit,
    Cpy,
    MapBlock,
    Loop,
    Call,
    Ref,
    Elit,
    Scan,
    Next,
    Halt,
}

impl Opcode {
    /// The byte that stands for the instruction.
    pub open spec fn byte(self) -> u8 {
        match self {
            Opcode::Lit => 0x00,
            Opcode::Cpy => 0x01,
            Opcode::MapBlock => 0x02,
            Opcode::Loop => 0x03,
            Opcode::Call => 0x04,
            Opcode::Ref => 0x05,
            Opcode::Elit => 0x06,
            Opcode::Scan => 0x07,
            Opcode::Next => 0x08,
            Opcode::Halt => 0xFF,
        }
    }

    /// The instruction that a byte stands for.
    pub open spec fn of_byte(b: u8) -> Result<Opcode, VmError> {
        if b == 0x00 {
            Ok(Opcode::Lit)
        } else if b == 0x01 {
            Ok(Opcode::Cpy)
        } else if b == 0x02 {
            Ok(Opcode::MapBlock)
        } else if b == 0x03 {
            Ok(Opcode::Loop)
        } else if b == 0x04 {
            Ok(Opcode::Call)
        } else if b == 0x05 {
            Ok(Opcode::Ref)
        } else if b == 0x06 {
            Ok(Opcode::Elit)
        } else if b == 0x07 {
            Ok(Opcode::Scan)
        } else if b == 0x08 {
            Ok(Opcode::Next)
        } else if b == 0xFF {
            Ok(Opcode::Halt)
        } else {
            Err(VmError::UnknownOpcode(b))
        }
    }

    /// Returns the byte that stands for the instruction.
    pub fn to_byte(self) -> (b: u8)
        ensures
            b == self.byte(),
            Opcode::of_byte(b) == Ok::<Opcode, VmError>(self),
    {
        match self {
            Opcode::Lit => 0x00,
            Opcode::Cpy => 0x01,
            Opcode::MapBlock => 0x02,
            Opcode::Loop => 0x03,
            Opcode::Call => 0x04,
            Opcode::Ref => 0x05,
            Opcode::Elit => 0x06,
            Opcode::Scan => 0x07,
            Opcode::Next => 0x08,
            Opcode::Halt => 0xFF,
        }
    }
}

impl TryFrom<u8> for Opcode {
    type Error = VmError;

    fn try_from(b: u8) -> (r: Result<Opcode, VmError>) {
        match b {
            0x00 => Ok(Opcode::Lit),
            0x01 => Ok(Opcode::Cpy),
            0x02 => Ok(Opcode::MapBlock),
            0x03 => Ok(Opcode::Loop),
            0x04 => Ok(Opcode::Call),
            0x05 => Ok(Opcode::Ref),
            0x06 => Ok(Opcode::Elit),
            0x07 => Ok(Opcode::Scan),
            0x08 => Ok(Opcode::Next),
            0xFF => Ok(Opcode::Halt),
            _ => Err(VmError::UnknownOpcode(b)),
        }
    }
}

impl vstd::std_specs::convert::TryFromSpecImpl<u8> for Opcode {
    open spec fn obeys_try_from_spec() -> bool {
        true
    }

    open spec fn try_from_spec(b: u8) -> Result<Opcode, VmError> {
        Opcode::of_byte(b)
    }
}

/// The transforms that can be applied to the end of the output.
#[derive(Clone, Copy, Debug, PartialEq, Eq, Structural)]
pub enum Transform {
    /// Adds one to each byte, modulo 256.
    IncU8,
    /// Subtracts one from each byte, modulo 256.
    DecU8,
    /// Adds one to a 32-bit number; the block has four bytes.
    IncU32,
    /// Subtracts one from a 32-bit number; the block has four bytes.
    DecU32,
    /// Replaces each byte by the sum of the bytes up to it, modulo 256.
    DeltaU8,
    /// The same over 32-bit numbers; the block has a multiple of four bytes.
    DeltaU32,
    /// Reverses four bytes.
    ByteswapU32,
    /// Undoes the zigzag code of a 32-bit number; the block has four bytes.
    ZigzagU32,
}

impl Transform {
    /// The byte that stands for the transform.
    pub open spec fn byte(self) -> u8 {
        match self {
            Transform::IncU8 => 0x00,
            Transform::DecU8 => 0x01,
            Transform::IncU32 => 0x02,
            Transform::DecU32 => 0x03,
            Transform::DeltaU8 => 0x04,
            Transform::DeltaU32 => 0x05,
            Transform::ByteswapU32 => 0x06,
            Transform::ZigzagU32 => 0x07,
        }
    }

    /// The transform that a byte stands for.
    pub open spec fn of_byte(b: u8) -> Result<Transform, VmError> {
        if b == 0x00 {
            Ok(Transform::IncU8)
        } else if b == 0x01 {
            Ok(Transform::DecU8)
        } else if b == 0x02 {
            Ok(Transform::IncU32)
        } else if b == 0x03 {
            Ok(Transform::DecU32)
        } else if b == 0x04 {
            Ok(Transform::DeltaU8)
        } else if b == 0x05 {
            Ok(Transform::DeltaU32)
        } else if b == 0x06 {
            Ok(Transform::ByteswapU32)
        } else if b == 0x07 {
            Ok(Transform::ZigzagU32)
        } else {
            Err(VmError::UnknownMapTransform(b))
        }
    }

    /// Returns the byte that stands for the transform.
    pub fn to_byte(self) -> (b: u8)
        ensures
            b == self.byte(),
            Transform::of_byte(b) == Ok::<Transform, VmError>(self),
    {
        match self {
            Transform::IncU8 => 0x00,
            Transform::DecU8 => 0x01,
            Transform::IncU32 => 0x02,
            Transform::DecU32 => 0x03,
            Transform::DeltaU8 => 0x04,
            Transform::DeltaU32 => 0x05,
            Transform::ByteswapU32 => 0x06,
            Transform::ZigzagU32 => 0x07,
        }
    }
}

impl TryFrom<u8> for Transform {
    type Error = VmError;

    fn try_from(b: u8) -> (r: Result<Transform, VmError>) {
        match b {
            0x00 => Ok(Transform::IncU8),
            0x01 => Ok(Transform::DecU8),
            0x02 => Ok(Transform::IncU32),
            0x03 => Ok(Transform::DecU32),
            0x04 => Ok(Transform::DeltaU8),
            0x05 => Ok(Transform::DeltaU32),
            0x06 => Ok(Transform::ByteswapU32),
            0x07 => Ok(Transform::ZigzagU32),
            _ => Err(VmError::UnknownMapTransform(b)),
        }
    }
}

impl vstd::std_specs::convert::TryFromSpecImpl<u8> for Transform {
    open spec fn obeys_try_from_spec() -> bool {
        true
    }

    open spec fn try_from_spec(b: u8) -> Result<Transform, VmError> {
        Transform::of_byte(b)
    }
}

/// The sum of the first `n` bytes.
pub open spec fn byte_sum(s: Seq<u8>, n: nat) -> nat
    decreases n,
{
    if n == 0 {
        0
    } else {
        byte_sum(s, (n - 1) as nat) + s[n - 1] as nat
    }
}

/// The 32-bit number in four bytes from `4 * k` on.
pub open spec fn word(s: Seq<u8>, k: int) -> nat {
    le32_value(s.subrange(4 * k, 4 * k + 4))
}

/// The sum of the first `n` 32-bit numbers.
pub open spec fn word_sum(s: Seq<u8>, n: nat) -> nat
    decreases n,
{
    if n == 0 {
        0
    } else {
        word_sum(s, (n - 1) as nat) + word(s, n - 1)
    }
}

/// The running sums of the first `n` 32-bit numbers, modulo 2^32.
pub open spec fn running_words(s: Seq<u8>, n: nat) -> Seq<u8>
    decreases n,
{
    if n == 0 {
        Seq::empty()
    } else {
        running_words(s, (n - 1) as nat) + le32_bytes(word_sum(s, n) % 0x1_0000_0000)
    }
}

/// What a transform makes of a block; `None` where it does not accept one of
/// this length.
pub open spec fn transformed(t: Transform, s: Seq<u8>) -> Option<Seq<u8>> {
    match t {
        Transform::IncU8 => Some(Seq::new(s.len(), |i: int| ((s[i] + 1) % 256) as u8)),
        Transform::DecU8 => Some(Seq::new(s.len(), |i: int| ((s[i] + 255) % 256) as u8)),
        Transform::IncU32 => if s.len() == 4 {
            Some(le32_bytes((le32_value(s) + 1) % 0x1_0000_0000))
        } else {
            None
        },
        Transform::DecU32 => if s.len() == 4 {
            Some(le32_bytes((le32_value(s) + 0xFFFF_FFFF) % 0x1_0000_0000))
        } else {
            None
        },
        Transform::DeltaU8 => Some(
            Seq::new(s.len(), |i: int| (byte_sum(s, (i + 1) as nat) % 256) as u8),
        ),
        Transform::DeltaU32 => if s.len() % 4 == 0 {
            Some(running_words(s, s.len() / 4))
        } else {
            None
        },
        Transform::ByteswapU32 => if s.len() == 4 {
            Some(seq![s[3], s[2], s[1], s[0]])
        } else {
            None
        },
        Transform::ZigzagU32 => if s.len() == 4 {
            let n = le32_value(s);
            Some(
                le32_bytes(
                    if n % 2 == 0 {
                        n / 2
                    } else {
                        (0xFFFF_FFFF - n / 2) as nat
                    },
                ),
            )
        } else {
            None
        },
    }
}

/// An instruction with its operands.
pub enum Instr {
    Lit { data: Seq<u8> },
    Cpy { offset: nat, length: nat },
    MapBlock { transform: Transform, length: nat },
    Loop { count: nat, body: Seq<u8> },
    Call { id: u32 },
    Ref { key: Seq<u8> },
    Elit { payload: Seq<u8> },
    Scan { count: nat, template: u32, params: Seq<u8> },
    Next,
    Halt,
}

/// The number at place `at`, and the place behind it.
pub open spec fn operand(s: Seq<u8>, at: nat) -> Option<(u32, nat)> {
    match leb_parse(s.skip(at as int)) {
        Some((v, n)) => Some((v, at + n)),
        None => None,
    }
}

/// The instruction at the front of a nonempty program and its length, or the
/// error that stops the program there.
pub open spec fn parse_instr(s: Seq<u8>) -> Result<(Instr, nat), VmError> {
    match Opcode::of_byte(s[0]) {
        Err(e) => Err(e),
        Ok(Opcode::Halt) => Ok((Instr::Halt, 1)),
        Ok(Opcode::Next) => Ok((Instr::Next, 1)),
        Ok(Opcode::Lit) => match operand(s, 1) {
            None => Err(VmError::TruncatedProgram),
            Some((n, at)) => if at + n > s.len() {
                Err(VmError::TruncatedProgram)
            } else {
                Ok((Instr::Lit { data: s.subrange(at as int, at + n) }, at + n as nat))
            },
        },
        Ok(Opcode::Cpy) => match operand(s, 1) {
            None => Err(VmError::TruncatedProgram),
            Some((offset, at)) => match operand(s, at) {
                None => Err(VmError::TruncatedProgram),
                Some((length, end)) => Ok(
                    (Instr::Cpy { offset: offset as nat, length: length as nat }, end),
                ),
            },
        },
        Ok(Opcode::MapBlock) => if s.len() < 2 {
            Err(VmError::TruncatedProgram)
        } else {
            match Transform::of_byte(s[1]) {
                Err(e) => Err(e),
                Ok(transform) => match operand(s, 2) {
                    None => Err(VmError::TruncatedProgram),
                    Some((length, end)) => Ok(
                        (Instr::MapBlock { transform, length: length as nat }, end),
                    ),
                },
            }
        },
        Ok(Opcode::Loop) => match operand(s, 1) {
            None => Err(VmError::TruncatedProgram),
            Some((count, at)) => match operand(s, at) {
                None => Err(VmError::TruncatedProgram),
                Some((n, from)) => if from + n > s.len() {
                    Err(VmError::LoopBodyOverrun)
                } else {
                    Ok(
                        (
                            Instr::Loop {
                                count: count as nat,
                                body: s.subrange(from as int, from + n),
                            },
                            from + n as nat,
                        ),
                    )
                },
            },
        },
        Ok(Opcode::Call) => match operand(s, 1) {
            None => Err(VmError::TruncatedProgram),
            Some((id, end)) => Ok((Instr::Call { id }, end)),
        },
        Ok(Opcode::Ref) => if s.len() < 2 || 2 + s[1] > s.len() {
            Err(VmError::TruncatedProgram)
        } else {
            Ok((Instr::Ref { key: s.subrange(2, 2 + s[1]) }, 2 + s[1] as nat))
        },
        Ok(Opcode::Elit) => match operand(s, 1) {
            None => Err(VmError::TruncatedProgram),
            Some((n, at)) => match operand(s, at) {
                None => Err(VmError::TruncatedProgram),
                Some((_, from)) => if from + n > s.len() {
                    Err(VmError::TruncatedProgram)
                } else {
                    Ok((Instr::Elit { payload: s.subrange(from as int, from + n) }, from + n as nat))
                },
            },
        },
        Ok(Opcode::Scan) => match operand(s, 1) {
            None => Err(VmError::TruncatedProgram),
            Some((count, at)) => match operand(s, at) {
                None => Err(VmError::TruncatedProgram),
                Some((template, at2)) => match operand(s, at2) {
                    None => Err(VmError::TruncatedProgram),
                    Some((n, from)) => if from + n > s.len() {
                        Err(VmError::TruncatedProgram)
                    } else {
                        Ok(
                            (
                                Instr::Scan {
                                    count: count as nat,
                                    template,
                                    params: s.subrange(from as int, from + n),
                                },
                                from + n as nat,
                            ),
                        )
                    },
                },
            },
        },
    }
}

/// An instruction takes at least one byte and no more than there are.
pub proof fn lemma_parse_instr_bounds(s: Seq<u8>)
    requires
        s.len() > 0,
    ensures
        parse_instr(s) matches Ok((i, n)) ==> 1 <= n <= s.len() && match i {
            Instr::Loop { body, .. } => body.len() + 3 <= n,
            _ => true,
        },
{
    lemma_operand(s, 1);
    if let Some((a, at)) = operand(s, 1) {
        lemma_operand(s, at);
        if let Some((b, at2)) = operand(s, at) {
            lemma_operand(s, at2);
        }
    }
    if s.len() >= 2 {
        lemma_operand(s, 2);
    }
}

/// A number that is read lies inside the program.
pub proof fn lemma_operand(s: Seq<u8>, at: nat)
    requires
        at <= s.len(),
    ensures
        operand(s, at) matches Some((v, end)) ==> at + 1 <= end <= at + 5 && end <= s.len(),
{
    lemma_leb_parse_prefix(s.skip(at as int), Seq::empty());
}

/// The tables that programs refer to.
pub struct Env {
    pub subs: vstd::map::Map<u32, Seq<u8>>,
    pub consensus: vstd::map::Map<Seq<u8>, Seq<u8>>,
}

/// Where a run stands: the output so far, the parameter block of the innermost
/// table scan with the place of the next field, and the error that stopped the
/// run, if one did.
#[verifier::ext_equal]
pub struct State {
    pub out: Seq<u8>,
    pub params: Option<(Seq<u8>, nat)>,
    pub err: Option<VmError>,
}

impl State {
    /// The same place, stopped by an error.
    pub open spec fn fail(self, e: VmError) -> State {
        State { err: Some(e), ..self }
    }

    /// The state after appending `data`, which stops the run if it does not
    /// fit.
    pub open spec fn emit(self, data: Seq<u8>) -> State {
        if self.out.len() + data.len() > MAX_OUTPUT_BYTES {
            self.fail(VmError::OutputOverflow)
        } else {
            State { out: self.out + data, ..self }
        }
    }
}

/// The state at the start of a run with an empty output.
pub open spec fn fresh() -> State {
    State { out: Seq::empty(), params: None, err: None }
}

/// The output after copying `length` bytes from `offset` bytes back, one at a
/// time, so that a copy may read what it has just written.
pub open spec fn copied(out: Seq<u8>, offset: nat, length: nat) -> Seq<u8>
    decreases length,
{
    if length == 0 {
        out
    } else {
        let prev = copied(out, offset, (length - 1) as nat);
        prev.push(prev[prev.len() - offset])
    }
}

/// The state after a back reference. What fits is written even where the rest
/// does not.
pub open spec fn copy_step(m: State, offset: nat, length: nat) -> State {
    if offset == 0 || offset > m.out.len() {
        m.fail(VmError::CpyUnderflow)
    } else if length == 0 || m.out.len() + length <= MAX_OUTPUT_BYTES {
        State { out: copied(m.out, offset, length), ..m }
    } else if m.out.len() >= MAX_OUTPUT_BYTES {
        m.fail(VmError::OutputOverflow)
    } else {
        State {
            out: copied(m.out, offset, (MAX_OUTPUT_BYTES - m.out.len()) as nat),
            err: Some(VmError::OutputOverflow),
            ..m
        }
    }
}

/// The state after transforming the last `length` bytes.
pub open spec fn map_step(m: State, t: Transform, length: nat) -> State {
    if length > m.out.len() {
        m.fail(VmError::CpyUnderflow)
    } else {
        let start = m.out.len() - length;
        match transformed(t, m.out.skip(start)) {
            Some(block) => State { out: m.out.take(start) + block, ..m },
            None => m.fail(VmError::UnknownMapTransform(t.byte())),
        }
    }
}

/// The state after a field of the enclosing table scan.
pub open spec fn next_step(m: State) -> State {
    match m.params {
        None => m.fail(VmError::ScanNoParamStream),
        Some((data, pos)) => if pos >= data.len() {
            m.fail(VmError::ScanParamExhausted)
        } else {
            match operand(data, pos) {
                None => m.fail(VmError::TruncatedProgram),
                Some((n, from)) => if from + n > data.len() {
                    m.fail(VmError::TruncatedProgram)
                } else {
                    let taken = State { params: Some((data, from + n as nat)), ..m };
                    taken.emit(data.subrange(from as int, from + n))
                },
            }
        },
    }
}

/// The state after one instruction other than a halt, at nesting depth `depth`
/// inside the macros `active`.
pub open spec fn step(i: Instr, m: State, env: Env, depth: nat, active: Seq<u32>) -> State
    decreases
            MAX_CALL_DEPTH - depth,
            match i {
                Instr::Loop { body, .. } => body.len() + 1,
                _ => 0,
            },
            0nat,
{
    match i {
        Instr::Lit { data } => m.emit(data),
        Instr::Cpy { offset, length } => copy_step(m, offset, length),
        Instr::MapBlock { transform, length } => map_step(m, transform, length),
        Instr::Loop { count, body } => repeat(body, count, m, env, depth, active),
        Instr::Call { id } => if depth >= MAX_CALL_DEPTH {
            m.fail(VmError::CallDepthExceeded)
        } else if active.contains(id) {
            m.fail(VmError::CallCycle(id))
        } else if !env.subs.contains_key(id) {
            m.fail(VmError::UnknownRef)
        } else {
            run(env.subs[id], m, env, depth + 1, active.push(id))
        },
        Instr::Ref { key } => if !env.consensus.contains_key(key) {
            m.fail(VmError::UnknownRef)
        } else {
            m.emit(env.consensus[key])
        },
        Instr::Elit { payload } => match zlib_contents(payload) {
            None => m.fail(VmError::TruncatedProgram),
            Some(data) => m.emit(data),
        },
        Instr::Scan { count, template, params } => if depth >= MAX_CALL_DEPTH {
            m.fail(VmError::CallDepthExceeded)
        } else if !env.subs.contains_key(template) {
            m.fail(VmError::UnknownRef)
        } else {
            let inner = State { params: Some((params, 0)), ..m };
            let after = repeat(env.subs[template], count, inner, env, depth + 1, active);
            State { params: m.params, ..after }
        },
        Instr::Next => next_step(m),
        Instr::Halt => m,
    }
}

/// The state after running `code` up to `count` times, stopping at an error.
pub open spec fn repeat(
    code: Seq<u8>,
    count: nat,
    m: State,
    env: Env,
    depth: nat,
    active: Seq<u32>,
) -> State
    decreases MAX_CALL_DEPTH - depth, code.len(), count + 1,
{
    if count == 0 {
        m
    } else {
        let prev = repeat(code, (count - 1) as nat, m, env, depth, active);
        if prev.err is Some {
            prev
        } else {
            run(code, prev, env, depth, active)
        }
    }
}

/// The state after running `code` from `m`, at nesting depth `depth` inside
/// the macros `active`.
pub open spec fn run(code: Seq<u8>, m: State, env: Env, depth: nat, active: Seq<u32>) -> State
    decreases MAX_CALL_DEPTH - depth, code.len(), 0nat,
    via run_decreases
{
    if code.len() == 0 {
        m
    } else {
        match parse_instr(code) {
            Err(e) => m.fail(e),
            Ok((i, n)) => if i is Halt {
                m
            } else {
                let after = step(i, m, env, depth, active);
                if after.err is Some {
                    after
                } else {
                    run(code.skip(n as int), after, env, depth, active)
                }
            },
        }
    }
}

#[via_fn]
proof fn run_decreases(code: Seq<u8>, m: State, env: Env, depth: nat, active: Seq<u32>) {
    if code.len() > 0 {
        lemma_parse_instr_bounds(code);
    }
}

/// The state after running a whole program on an empty output.
pub open spec fn execute(code: Seq<u8>, env: Env) -> State {
    run(code, fresh(), env, 0, Seq::empty())
}

} // verus!
