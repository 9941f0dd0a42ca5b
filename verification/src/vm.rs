//! The virtual machine that runs programs.

use std::collections::HashMap;
use vstd::prelude::*;
use crate::bytes::{append, copy_of, le32_bytes, read_le32};
use crate::consensus::Consensus;
use crate::deflate::inflate;
use crate::leb::{decode_leb128, lemma_leb_parse_prefix};
use crate::machine::{
    byte_sum, copied, copy_step, lemma_parse_instr_bounds, map_step, next_step, operand,
    parse_instr, repeat, run, running_words, step, transformed, word_sum, Env, Instr, Opcode, State,
    Transform, MAX_CALL_DEPTH, MAX_OUTPUT_BYTES,
};
use crate::vm_error::VmError;

verus! {

broadcast use vstd::std_specs::hash::group_hash_axioms;

/// Macro table: the body of each macro under its id.
pub type Subs = HashMap<u32, Vec<u8>>;

/// The bodies that a macro table holds.
pub open spec fn bodies(subs: vstd::map::Map<u32, Vec<u8>>) -> vstd::map::Map<u32, Seq<u8>> {
    vstd::map::Map::new(|id: u32| subs.contains_key(id), |id: u32| subs[id]@)
}

/// The tables that a program runs against.
pub open spec fn env_of(subs: Subs, consensus: Consensus) -> Env {
    Env { subs: bodies(subs@), consensus: consensus@ }
}

/// Where a machine stands inside macros and table scans.
pub struct Nesting {
    call_depth: usize,
    active_calls: Vec<u32>,
    param_stack: Vec<(Vec<u8>, usize)>,
}

impl Nesting {
    /// Outside every macro and every table scan.
    pub closed spec fn is_empty(&self) -> bool {
        &&& self.call_depth == 0
        &&& self.active_calls@.len() == 0
        &&& self.param_stack@.len() == 0
    }
}

/// The state of a machine: its output, and where it stands inside macros and
/// table scans.
pub struct VmState {
    pub output: Vec<u8>,
    pub nesting: Nesting,
}

impl Default for VmState {
    fn default() -> (vm: VmState)
        ensures
            vm.idle(),
            vm.produced() == Seq::<u8>::empty(),
    {
        let nesting: Nesting = Nesting {
            call_depth: 0,
            active_calls: Vec::new(),
            param_stack: Vec::new(),
        };
        VmState { output: Vec::new(), nesting }
    }
}

impl VmState {
    /// The machine stands outside every macro and every table scan. This holds
    /// of a new machine and between any two runs.
    pub open spec fn idle(&self) -> bool {
        self.nesting.is_empty()
    }

    /// The bytes in the output.
    pub open spec fn produced(&self) -> Seq<u8> {
        self.output@
    }

    /// Returns the output.
    pub fn into_output(self) -> (out: Vec<u8>)
        ensures
            out@ == self.produced(),
    {
        self.output
    }

    closed spec fn wf(&self) -> bool {
        self.nesting.call_depth <= MAX_CALL_DEPTH
    }

    /// The state of the machine as a program sees it.
    closed spec fn state(&self) -> State {
        State {
            out: self.output@,
            params: if self.nesting.param_stack@.len() == 0 {
                None
            } else {
                Some((self.nesting.param_stack@.last().0@, self.nesting.param_stack@.last().1 as nat))
            },
            err: None,
        }
    }

    /// Nothing but the output and the place in the innermost parameter block
    /// differs.
    closed spec fn same_frame(&self, before: &VmState) -> bool {
        &&& self.nesting.call_depth == before.nesting.call_depth
        &&& self.nesting.active_calls@ == before.nesting.active_calls@
        &&& self.nesting.param_stack@.len() == before.nesting.param_stack@.len()
        &&& before.nesting.param_stack@.len() > 0 ==> self.nesting.param_stack@.drop_last()
            == before.nesting.param_stack@.drop_last()
    }

    /// The machine has come to the state `o`.
    closed spec fn reached(&self, r: Result<(), VmError>, o: State) -> bool {
        &&& self.output@ == o.out
        &&& match r {
            Ok(_) => o.err is None && self.state() == o,
            Err(e) => o.err == Some(e),
        }
    }

    /// Returns a machine with an empty output.
    pub fn new() -> (vm: VmState)
        ensures
            vm.idle(),
            vm.produced() == Seq::<u8>::empty(),
    {
        VmState::default()
    }

    /// Runs `prog`, which appends to the output.
    ///
    /// The output is what the program yields, also when an error stops it.
    pub fn exec(&mut self, prog: &[u8], subs: &Subs, consensus: &Consensus) -> (r: Result<
        (),
        VmError,
    >)
        requires
            old(self).idle(),
        ensures
            final(self).idle(),
            ({
                let from = State { out: old(self).produced(), params: None, err: None };
                let o = run(prog@, from, env_of(*subs, *consensus), 0, Seq::empty());
                &&& final(self).produced() == o.out
                &&& match r {
                    Ok(_) => o.err is None,
                    Err(e) => o.err == Some(e),
                }
            }),
    {
        assert(self.nesting.active_calls@ =~= Seq::empty());
        self.run(prog, subs, consensus)
    }

    fn run(&mut self, prog: &[u8], subs: &Subs, consensus: &Consensus) -> (r: Result<(), VmError>)
        requires
            old(self).wf(),
        ensures
            final(self).wf(),
            final(self).same_frame(old(self)),
            final(self).reached(
                r,
                run(
                    prog@,
                    old(self).state(),
                    env_of(*subs, *consensus),
                    old(self).nesting.call_depth as nat,
                    old(self).nesting.active_calls@,
                ),
            ),
        decreases MAX_CALL_DEPTH - old(self).nesting.call_depth, prog@.len(), 1nat,
    {
        let ghost env = env_of(*subs, *consensus);
        let ghost depth = self.nesting.call_depth as nat;
        let ghost active = self.nesting.active_calls@;
        let mut rest: &[u8] = prog;
        while rest.len() > 0
            invariant
                self.wf(),
                self.same_frame(old(self)),
                rest@.len() <= prog@.len(),
                env == env_of(*subs, *consensus),
                depth == old(self).nesting.call_depth,
                active == old(self).nesting.active_calls@,
                run(rest@, self.state(), env, depth, active) == run(
                    prog@,
                    old(self).state(),
                    env,
                    depth,
                    active,
                ),
            decreases rest@.len(),
        {
            proof {
                lemma_parse_instr_bounds(rest@);
            }
            match self.step(rest, subs, consensus) {
                Err(e) => {
                    return Err(e);
                },
                Ok(None) => {
                    return Ok(());
                },
                Ok(Some(n)) => {
                    rest = &rest[n..rest.len()];
                },
            }
        }
        Ok(())
    }

    /// Runs the instruction at the front of `rest`. The result is its length,
    /// or `None` for a halt.
    #[verifier::rlimit(30)]
    fn step(&mut self, rest: &[u8], subs: &Subs, consensus: &Consensus) -> (r: Result<
        Option<usize>,
        VmError,
    >)
        requires
            old(self).wf(),
            rest@.len() > 0,
        ensures
            final(self).wf(),
            final(self).same_frame(old(self)),
            match parse_instr(rest@) {
                Err(e) => r == Err::<Option<usize>, VmError>(e) && final(self).output@ == old(
                    self,
                ).output@,
                Ok((i, n)) => {
                    let o = step(
                        i,
                        old(self).state(),
                        env_of(*subs, *consensus),
                        old(self).nesting.call_depth as nat,
                        old(self).nesting.active_calls@,
                    );
                    match r {
                        Err(e) => i !is Halt && o.err == Some(e) && final(self).output@ == o.out,
                        Ok(None) => i is Halt && *final(self) == *old(self),
                        Ok(Some(m)) => i !is Halt && m == n && o.err is None
                            && final(self).state() == o,
                    }
                },
            },
        decreases MAX_CALL_DEPTH - old(self).nesting.call_depth, rest@.len(), 0nat,
    {
        proof {
            lemma_parse_instr_bounds(rest@);
        }
        let op: Opcode = match Opcode::try_from(rest[0]) {
            Ok(op) => op,
            Err(e) => {
                return Err(e);
            },
        };
        match op {
            Opcode::Halt => Ok(None),
            Opcode::Lit => {
                let (len, at) = read_operand(rest, 1)?;
                if len as usize > rest.len() - at {
                    return Err(VmError::TruncatedProgram);
                }
                let end: usize = at + len as usize;
                self.emit(&rest[at..end])?;
                Ok(Some(end))
            },
            Opcode::Cpy => {
                let (offset, at) = read_operand(rest, 1)?;
                let (length, end) = read_operand(rest, at)?;
                self.copy_back(offset as usize, length as usize)?;
                Ok(Some(end))
            },
            Opcode::MapBlock => {
                if rest.len() < 2 {
                    return Err(VmError::TruncatedProgram);
                }
                let transform: Transform = match Transform::try_from(rest[1]) {
                    Ok(t) => t,
                    Err(e) => {
                        return Err(e);
                    },
                };
                let (length, end) = read_operand(rest, 2)?;
                self.exec_map(transform, length as usize)?;
                Ok(Some(end))
            },
            Opcode::Loop => {
                let (count, at) = read_operand(rest, 1)?;
                let (len, from) = read_operand(rest, at)?;
                if len as usize > rest.len() - from {
                    return Err(VmError::LoopBodyOverrun);
                }
                let end: usize = from + len as usize;
                self.run_times(&rest[from..end], count, subs, consensus)?;
                Ok(Some(end))
            },
            Opcode::Call => {
                let (id, end) = read_operand(rest, 1)?;
                self.call(id, subs, consensus)?;
                Ok(Some(end))
            },
            Opcode::Ref => {
                if rest.len() < 2 || rest[1] as usize > rest.len() - 2 {
                    return Err(VmError::TruncatedProgram);
                }
                let end: usize = 2 + rest[1] as usize;
                match consensus.get(&rest[2..end]) {
                    None => {
                        return Err(VmError::UnknownRef);
                    },
                    Some(block) => {
                        self.emit(block.as_slice())?;
                    },
                }
                Ok(Some(end))
            },
            Opcode::Elit => {
                let (len, at) = read_operand(rest, 1)?;
                let (_, from) = read_operand(rest, at)?;
                if len as usize > rest.len() - from {
                    return Err(VmError::TruncatedProgram);
                }
                let end: usize = from + len as usize;
                match inflate(&rest[from..end]) {
                    None => {
                        return Err(VmError::TruncatedProgram);
                    },
                    Some(data) => {
                        self.emit(data.as_slice())?;
                    },
                }
                Ok(Some(end))
            },
            Opcode::Scan => {
                let (count, at) = read_operand(rest, 1)?;
                let (template, at2) = read_operand(rest, at)?;
                let (len, from) = read_operand(rest, at2)?;
                if len as usize > rest.len() - from {
                    return Err(VmError::TruncatedProgram);
                }
                let end: usize = from + len as usize;
                self.scan(count, template, &rest[from..end], subs, consensus)?;
                Ok(Some(end))
            },
            Opcode::Next => {
                self.next_field()?;
                Ok(Some(1))
            },
        }
    }

    /// Runs `body` up to `count` times, stopping at an error.
    fn run_times(&mut self, body: &[u8], count: u32, subs: &Subs, consensus: &Consensus) -> (r:
        Result<(), VmError>)
        requires
            old(self).wf(),
        ensures
            final(self).wf(),
            final(self).same_frame(old(self)),
            final(self).reached(
                r,
                repeat(
                    body@,
                    count as nat,
                    old(self).state(),
                    env_of(*subs, *consensus),
                    old(self).nesting.call_depth as nat,
                    old(self).nesting.active_calls@,
                ),
            ),
        decreases MAX_CALL_DEPTH - old(self).nesting.call_depth, body@.len(), 2nat,
    {
        let ghost env = env_of(*subs, *consensus);
        let ghost depth = self.nesting.call_depth as nat;
        let ghost active = self.nesting.active_calls@;
        let mut k: u32 = 0;
        while k < count
            invariant
                k <= count,
                self.wf(),
                self.same_frame(old(self)),
                env == env_of(*subs, *consensus),
                depth == old(self).nesting.call_depth,
                active == old(self).nesting.active_calls@,
                self.state() == repeat(body@, k as nat, old(self).state(), env, depth, active),
            decreases count - k,
        {
            let r: Result<(), VmError> = self.run(body, subs, consensus);
            if let Err(e) = r {
                proof {
                    lemma_repeat_stops(
                        body@,
                        (k + 1) as nat,
                        count as nat,
                        old(self).state(),
                        env,
                        depth,
                        active,
                    );
                }
                return Err(e);
            }
            k = k + 1;
        }
        Ok(())
    }

    /// Runs the macro `id`.
    fn call(&mut self, id: u32, subs: &Subs, consensus: &Consensus) -> (r: Result<(), VmError>)
        requires
            old(self).wf(),
        ensures
            final(self).wf(),
            final(self).same_frame(old(self)),
            final(self).reached(
                r,
                step(
                    Instr::Call { id },
                    old(self).state(),
                    env_of(*subs, *consensus),
                    old(self).nesting.call_depth as nat,
                    old(self).nesting.active_calls@,
                ),
            ),
        decreases MAX_CALL_DEPTH - old(self).nesting.call_depth, 0nat, 0nat,
    {
        if self.nesting.call_depth >= MAX_CALL_DEPTH {
            return Err(VmError::CallDepthExceeded);
        }
        if is_active(&self.nesting.active_calls, id) {
            return Err(VmError::CallCycle(id));
        }
        let body: &Vec<u8> = match subs.get(&id) {
            Some(body) => body,
            None => {
                return Err(VmError::UnknownRef);
            },
        };
        self.nesting.call_depth = self.nesting.call_depth + 1;
        self.nesting.active_calls.push(id);
        let r: Result<(), VmError> = self.run(body.as_slice(), subs, consensus);
        self.nesting.active_calls.pop();
        self.nesting.call_depth = self.nesting.call_depth - 1;
        assert(self.nesting.active_calls@ =~= old(self).nesting.active_calls@);
        r
    }

    /// Runs the macro `template` `count` times over the fields in `params`.
    fn scan(
        &mut self,
        count: u32,
        template: u32,
        params: &[u8],
        subs: &Subs,
        consensus: &Consensus,
    ) -> (r: Result<(), VmError>)
        requires
            old(self).wf(),
        ensures
            final(self).wf(),
            final(self).same_frame(old(self)),
            final(self).reached(
                r,
                step(
                    Instr::Scan { count: count as nat, template, params: params@ },
                    old(self).state(),
                    env_of(*subs, *consensus),
                    old(self).nesting.call_depth as nat,
                    old(self).nesting.active_calls@,
                ),
            ),
        decreases MAX_CALL_DEPTH - old(self).nesting.call_depth, 0nat, 0nat,
    {
        if self.nesting.call_depth >= MAX_CALL_DEPTH {
            return Err(VmError::CallDepthExceeded);
        }
        let body: &Vec<u8> = match subs.get(&template) {
            Some(body) => body,
            None => {
                return Err(VmError::UnknownRef);
            },
        };
        self.nesting.call_depth = self.nesting.call_depth + 1;
        self.nesting.param_stack.push((copy_of(params), 0));
        proof {
            assert(self.state() == (State { params: Some((params@, 0)), ..old(self).state() }));
            assert(self.nesting.param_stack@.drop_last() =~= old(self).nesting.param_stack@);
        }
        let r: Result<(), VmError> = self.run_times(body.as_slice(), count, subs, consensus);
        self.nesting.param_stack.pop();
        self.nesting.call_depth = self.nesting.call_depth - 1;
        assert(self.nesting.param_stack@ =~= old(self).nesting.param_stack@);
        r
    }

    /// Appends the next field of the enclosing table scan.
    fn next_field(&mut self) -> (r: Result<(), VmError>)
        requires
            old(self).wf(),
        ensures
            final(self).wf(),
            final(self).same_frame(old(self)),
            final(self).reached(r, next_step(old(self).state())),
    {
        let (data, pos) = match self.nesting.param_stack.pop() {
            Some(top) => top,
            None => {
                return Err(VmError::ScanNoParamStream);
            },
        };
        if pos >= data.len() {
            self.nesting.param_stack.push((data, pos));
            assert(self.nesting.param_stack@ =~= old(self).nesting.param_stack@);
            return Err(VmError::ScanParamExhausted);
        }
        match read_operand(data.as_slice(), pos) {
            Err(e) => {
                self.nesting.param_stack.push((data, pos));
                assert(self.nesting.param_stack@ =~= old(self).nesting.param_stack@);
                Err(e)
            },
            Ok((len, from)) => {
                if len as usize > data.len() - from {
                    self.nesting.param_stack.push((data, pos));
                    assert(self.nesting.param_stack@ =~= old(self).nesting.param_stack@);
                    return Err(VmError::TruncatedProgram);
                }
                let end: usize = from + len as usize;
                let r: Result<(), VmError> = self.emit(&data.as_slice()[from..end]);
                self.nesting.param_stack.push((data, end));
                assert(self.nesting.param_stack@.drop_last() =~= old(
                    self,
                ).nesting.param_stack@.drop_last());
                r
            },
        }
    }

    /// Copies `length` bytes from `offset` bytes back.
    fn copy_back(&mut self, offset: usize, length: usize) -> (r: Result<(), VmError>)
        requires
            old(self).wf(),
        ensures
            final(self).wf(),
            final(self).same_frame(old(self)),
            final(self).reached(r, copy_step(old(self).state(), offset as nat, length as nat)),
    {
        let out_len: usize = self.output.len();
        if offset == 0 || offset > out_len {
            return Err(VmError::CpyUnderflow);
        }
        let src: usize = out_len - offset;
        let mut i: usize = 0;
        while i < length
            invariant
                i <= length,
                src + offset == out_len,
                out_len == old(self).output@.len(),
                0 < offset <= out_len,
                self.wf(),
                self.same_frame(old(self)),
                self.nesting.param_stack@ == old(self).nesting.param_stack@,
                self.output@.len() == out_len + i,
                self.output@ == copied(old(self).output@, offset as nat, i as nat),
                i > 0 ==> out_len + i <= MAX_OUTPUT_BYTES,
            decreases length - i,
        {
            let b: u8 = self.output[src + i];
            self.emit_byte(b)?;
            i = i + 1;
        }
        Ok(())
    }

    /// Transforms the last `len` bytes of the output.
    fn exec_map(&mut self, transform: Transform, len: usize) -> (r: Result<(), VmError>)
        requires
            old(self).wf(),
        ensures
            final(self).wf(),
            final(self).same_frame(old(self)),
            final(self).reached(r, map_step(old(self).state(), transform, len as nat)),
    {
        if len > self.output.len() {
            return Err(VmError::CpyUnderflow);
        }
        let start: usize = self.output.len() - len;
        match transform_block(transform, &self.output.as_slice()[start..self.output.len()]) {
            None => Err(VmError::UnknownMapTransform(transform.to_byte())),
            Some(block) => {
                self.output.truncate(start);
                append(&mut self.output, block.as_slice());
                Ok(())
            },
        }
    }

    /// Appends `bytes`.
    fn emit(&mut self, bytes: &[u8]) -> (r: Result<(), VmError>)
        requires
            old(self).wf(),
        ensures
            final(self).wf(),
            final(self).same_frame(old(self)),
            final(self).nesting.param_stack@ == old(self).nesting.param_stack@,
            final(self).reached(r, old(self).state().emit(bytes@)),
    {
        if bytes.len() > MAX_OUTPUT_BYTES || self.output.len() > MAX_OUTPUT_BYTES - bytes.len() {
            return Err(VmError::OutputOverflow);
        }
        append(&mut self.output, bytes);
        Ok(())
    }

    /// Appends one byte.
    fn emit_byte(&mut self, b: u8) -> (r: Result<(), VmError>)
        requires
            old(self).wf(),
        ensures
            final(self).wf(),
            final(self).same_frame(old(self)),
            final(self).nesting.param_stack@ == old(self).nesting.param_stack@,
            r == (if old(self).output@.len() >= MAX_OUTPUT_BYTES {
                Err(VmError::OutputOverflow)
            } else {
                Ok::<(), VmError>(())
            }),
            final(self).output@ == (if old(self).output@.len() >= MAX_OUTPUT_BYTES {
                old(self).output@
            } else {
                old(self).output@.push(b)
            }),
    {
        if self.output.len() >= MAX_OUTPUT_BYTES {
            return Err(VmError::OutputOverflow);
        }
        self.output.push(b);
        Ok(())
    }
}

/// Once an error has stopped the repetition, more rounds change nothing.
proof fn lemma_repeat_stops(
    code: Seq<u8>,
    k: nat,
    count: nat,
    m: State,
    env: Env,
    depth: nat,
    active: Seq<u32>,
)
    requires
        k <= count,
        repeat(code, k, m, env, depth, active).err is Some,
    ensures
        repeat(code, count, m, env, depth, active) == repeat(code, k, m, env, depth, active),
    decreases count,
{
    if k < count {
        lemma_repeat_stops(code, k, (count - 1) as nat, m, env, depth, active);
    }
}

/// Returns whether `id` is among the calls in progress.
fn is_active(calls: &Vec<u32>, id: u32) -> (r: bool)
    ensures
        r == calls@.contains(id),
{
    let mut i: usize = 0;
    while i < calls.len()
        invariant
            i <= calls.len(),
            forall|j: int| 0 <= j < i ==> calls@[j] != id,
        decreases calls.len() - i,
    {
        if calls[i] == id {
            return true;
        }
        i = i + 1;
    }
    false
}

/// Reads the number at place `at`. The result is the number and the place
/// behind it.
fn read_operand(data: &[u8], at: usize) -> (r: Result<(u32, usize), VmError>)
    requires
        at <= data@.len(),
    ensures
        match operand(data@, at as nat) {
            Some((v, end)) => r matches Ok((w, e)) && w == v && e == end && at < e <= data@.len(),
            None => r == Err::<(u32, usize), VmError>(VmError::TruncatedProgram),
        },
{
    let tail: &[u8] = &data[at..data.len()];
    assert(tail@ =~= data@.skip(at as int));
    proof {
        lemma_leb_parse_prefix(tail@, Seq::empty());
    }
    let (v, n) = decode_leb128(tail)?;
    Ok((v, at + n))
}

/// Returns what a transform makes of a block.
fn transform_block(t: Transform, s: &[u8]) -> (r: Option<Vec<u8>>)
    ensures
        match r {
            Some(block) => transformed(t, s@) == Some(block@),
            None => transformed(t, s@) is None,
        },
{
    match t {
        Transform::IncU8 => Some(shift_bytes(s, 1)),
        Transform::DecU8 => Some(shift_bytes(s, 255)),
        Transform::IncU32 => {
            if s.len() != 4 {
                return None;
            }
            assert(s@.subrange(0, 4) =~= s@);
            Some(word_bytes(read_le32(s, 0).wrapping_add(1)))
        },
        Transform::DecU32 => {
            if s.len() != 4 {
                return None;
            }
            assert(s@.subrange(0, 4) =~= s@);
            Some(word_bytes(read_le32(s, 0).wrapping_sub(1)))
        },
        Transform::DeltaU8 => Some(sum_bytes(s)),
        Transform::DeltaU32 => {
            if s.len() % 4 != 0 {
                return None;
            }
            Some(sum_words(s))
        },
        Transform::ByteswapU32 => {
            if s.len() != 4 {
                return None;
            }
            let mut out: Vec<u8> = Vec::new();
            out.push(s[3]);
            out.push(s[2]);
            out.push(s[1]);
            out.push(s[0]);
            assert(out@ =~= seq![s@[3], s@[2], s@[1], s@[0]]);
            Some(out)
        },
        Transform::ZigzagU32 => {
            if s.len() != 4 {
                return None;
            }
            assert(s@.subrange(0, 4) =~= s@);
            let n: u32 = read_le32(s, 0);
            if n % 2 == 0 {
                Some(word_bytes(n / 2))
            } else {
                Some(word_bytes(0xFFFF_FFFF - n / 2))
            }
        },
    }
}

/// Returns the four bytes of a number.
fn word_bytes(v: u32) -> (out: Vec<u8>)
    ensures
        out@ == le32_bytes(v as nat),
{
    let mut out: Vec<u8> = Vec::new();
    crate::bytes::push_le32(&mut out, v);
    assert(out@ =~= le32_bytes(v as nat));
    out
}

/// Adds `by` to each byte, modulo 256.
fn shift_bytes(s: &[u8], by: u8) -> (out: Vec<u8>)
    ensures
        out@ == Seq::new(s@.len(), |i: int| ((s@[i] + by) % 256) as u8),
{
    let mut out: Vec<u8> = Vec::new();
    let mut i: usize = 0;
    while i < s.len()
        invariant
            i <= s.len(),
            out@.len() == i,
            forall|j: int| 0 <= j < i ==> out@[j] == ((s@[j] + by) % 256) as u8,
        decreases s.len() - i,
    {
        out.push(s[i].wrapping_add(by));
        i = i + 1;
    }
    assert(out@ =~= Seq::new(s@.len(), |i: int| ((s@[i] + by) % 256) as u8));
    out
}

/// Replaces each byte by the sum of the bytes up to it.
fn sum_bytes(s: &[u8]) -> (out: Vec<u8>)
    ensures
        transformed(Transform::DeltaU8, s@) == Some(out@),
{
    let mut out: Vec<u8> = Vec::new();
    let mut acc: u8 = 0;
    let mut i: usize = 0;
    while i < s.len()
        invariant
            i <= s.len(),
            out@.len() == i,
            acc == byte_sum(s@, i as nat) % 256,
            forall|j: int| 0 <= j < i ==> out@[j] == (byte_sum(s@, (j + 1) as nat) % 256) as u8,
        decreases s.len() - i,
    {
        acc = acc.wrapping_add(s[i]);
        out.push(acc);
        i = i + 1;
    }
    assert(out@ =~= transformed(Transform::DeltaU8, s@).unwrap());
    out
}

/// Adding with wrap-around keeps a sum modulo 2^32.
proof fn lemma_wrapping_sum(sum: nat, acc: u32, w: u32)
    requires
        acc == sum % 0x1_0000_0000,
    ensures
        acc.wrapping_add(w) == (sum + w) % 0x1_0000_0000,
{
}

/// Replaces each 32-bit number by the sum of the numbers up to it.
fn sum_words(s: &[u8]) -> (out: Vec<u8>)
    requires
        s@.len() % 4 == 0,
    ensures
        transformed(Transform::DeltaU32, s@) == Some(out@),
{
    let mut out: Vec<u8> = Vec::new();
    let mut acc: u32 = 0;
    let mut k: usize = 0;
    while k < s.len() / 4
        invariant
            k <= s@.len() / 4,
            acc == word_sum(s@, k as nat) % 0x1_0000_0000,
            out@ == running_words(s@, k as nat),
        decreases s.len() / 4 - k,
    {
        let w: u32 = read_le32(s, 4 * k);
        proof {
            lemma_wrapping_sum(word_sum(s@, k as nat), acc, w);
        }
        acc = acc.wrapping_add(w);
        crate::bytes::push_le32(&mut out, acc);
        k = k + 1;
    }
    out
}

} // verus!
