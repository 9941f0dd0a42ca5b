//! Writing programs by hand, instruction by instruction.

use std::collections::HashMap;
use vstd::prelude::*;
use crate::bytes::append;
use crate::deflate::{zlib_compress, zlib_contents, zlib_stream};
use crate::guarantees::coded_literals_round_trip;
use crate::leb::leb_bytes;
use crate::lz::push_lit;
use crate::machine::{execute, Env, State, Transform, MAX_OUTPUT_BYTES};
use crate::synth::token::{fields_of, low_bits, param_stream, push_leb};
use crate::tokens::{lo32, tok_bytes, Tok};
use crate::vm::{bodies, Subs};

verus! {

broadcast use vstd::std_specs::hash::group_hash_axioms;

/// A program in the making, with its macros.
pub struct ProgramBuilder {
    buf: Vec<u8>,
    subs: Subs,
}

/// The byte code of an entropy-coded literal: the size of its payload, the size
/// of its data, and the payload.
pub open spec fn elit_bytes(raw: Seq<u8>) -> Seq<u8> {
    let payload = zlib_stream(raw, 6);
    seq![0x06u8] + leb_bytes(lo32(payload.len())) + leb_bytes(lo32(raw.len())) + payload
}

impl Default for ProgramBuilder {
    fn default() -> (b: ProgramBuilder)
        ensures
            b.code() == Seq::<u8>::empty(),
            b.macros() == vstd::map::Map::<u32, Seq<u8>>::empty(),
    {
        let b: ProgramBuilder = ProgramBuilder { buf: Vec::new(), subs: HashMap::new() };
        assert(b.macros() =~= vstd::map::Map::<u32, Seq<u8>>::empty());
        b
    }
}

impl ProgramBuilder {
    /// The byte code written so far.
    pub closed spec fn code(&self) -> Seq<u8> {
        self.buf@
    }

    /// The macros defined so far.
    pub closed spec fn macros(&self) -> vstd::map::Map<u32, Seq<u8>> {
        bodies(self.subs@)
    }

    /// Returns an empty program.
    pub fn new() -> (b: ProgramBuilder)
        ensures
            b.code() == Seq::<u8>::empty(),
            b.macros() == vstd::map::Map::<u32, Seq<u8>>::empty(),
    {
        ProgramBuilder::default()
    }

    /// Adds a literal.
    pub fn lit(self, data: &[u8]) -> (b: ProgramBuilder)
        ensures
            b.code() == self.code() + tok_bytes(Tok::Lit { data: data@ }),
            b.macros() == self.macros(),
    {
        let mut buf: Vec<u8> = self.buf;
        push_lit(&mut buf, data);
        ProgramBuilder { buf, subs: self.subs }
    }

    /// Adds a back reference.
    pub fn cpy(self, offset: u32, length: u32) -> (b: ProgramBuilder)
        ensures
            b.code() == self.code() + tok_bytes(
                Tok::Cpy { offset: offset as nat, length: length as nat },
            ),
            b.macros() == self.macros(),
    {
        let mut buf: Vec<u8> = self.buf;
        let ghost before = buf@;
        buf.push(0x01);
        push_leb(&mut buf, offset);
        push_leb(&mut buf, length);
        assert(buf@ =~= before + tok_bytes(
            Tok::Cpy { offset: offset as nat, length: length as nat },
        ));
        ProgramBuilder { buf, subs: self.subs }
    }

    /// Adds a transform of the last `len` bytes of the output.
    pub fn map(self, transform: Transform, len: u32) -> (b: ProgramBuilder)
        ensures
            b.code() == self.code() + tok_bytes(Tok::MapBlock { transform, length: len as nat }),
            b.macros() == self.macros(),
    {
        let mut buf: Vec<u8> = self.buf;
        let ghost before = buf@;
        buf.push(0x02);
        buf.push(transform.to_byte());
        push_leb(&mut buf, len);
        assert(buf@ =~= before + tok_bytes(Tok::MapBlock { transform, length: len as nat }));
        ProgramBuilder { buf, subs: self.subs }
    }

    /// Adds a loop over the byte code `body`.
    pub fn loop_(self, count: u32, body: Vec<u8>) -> (b: ProgramBuilder)
        ensures
            b.code() == self.code() + (seq![0x03u8] + leb_bytes(count as nat) + leb_bytes(
                lo32(body@.len()),
            ) + body@),
            b.macros() == self.macros(),
    {
        let mut buf: Vec<u8> = self.buf;
        let ghost before = buf@;
        buf.push(0x03);
        push_leb(&mut buf, count);
        push_leb(&mut buf, low_bits(body.len()));
        append(&mut buf, body.as_slice());
        assert(buf@ =~= before + (seq![0x03u8] + leb_bytes(count as nat) + leb_bytes(
            lo32(body@.len()),
        ) + body@));
        ProgramBuilder { buf, subs: self.subs }
    }

    /// Adds a macro call.
    pub fn call(self, macro_id: u32) -> (b: ProgramBuilder)
        ensures
            b.code() == self.code() + tok_bytes(Tok::Call { id: macro_id }),
            b.macros() == self.macros(),
    {
        let mut buf: Vec<u8> = self.buf;
        let ghost before = buf@;
        buf.push(0x04);
        push_leb(&mut buf, macro_id);
        assert(buf@ =~= before + tok_bytes(Tok::Call { id: macro_id }));
        ProgramBuilder { buf, subs: self.subs }
    }

    /// Adds a block of the consensus table. The key has at most 255 bytes.
    pub fn ref_(self, hash: &[u8]) -> (b: ProgramBuilder)
        ensures
            b.code() == self.code() + tok_bytes(Tok::Ref { key: hash@ }),
            b.macros() == self.macros(),
    {
        let mut buf: Vec<u8> = self.buf;
        let ghost before = buf@;
        buf.push(0x05);
        buf.push((hash.len() % 256) as u8);
        append(&mut buf, hash);
        assert(buf@ =~= before + tok_bytes(Tok::Ref { key: hash@ }));
        ProgramBuilder { buf, subs: self.subs }
    }

    /// Adds an entropy-coded literal. Run on its own, it yields its data, if the
    /// length of the deflated payload fits its operand.
    pub fn elit(self, raw: &[u8]) -> (b: ProgramBuilder)
        ensures
            b.code() == self.code() + elit_bytes(raw@),
            b.macros() == self.macros(),
            zlib_contents(zlib_stream(raw@, 6)) == Some(raw@),
            raw@.len() <= MAX_OUTPUT_BYTES && zlib_stream(raw@, 6).len() < 0x1_0000_0000
                ==> forall|env: Env| #[trigger]
                execute(elit_bytes(raw@), env) == (State { out: raw@, params: None, err: None }),
    {
        let payload: Vec<u8> = zlib_compress(raw);
        proof {
            if raw@.len() <= MAX_OUTPUT_BYTES && zlib_stream(raw@, 6).len() < 0x1_0000_0000 {
                assert forall|env: Env| #[trigger]
                    execute(elit_bytes(raw@), env) == (State {
                        out: raw@,
                        params: None,
                        err: None,
                    }) by {
                    coded_literals_round_trip(raw@, env);
                }
            }
        }
        let mut buf: Vec<u8> = self.buf;
        let ghost before = buf@;
        buf.push(0x06);
        push_leb(&mut buf, low_bits(payload.len()));
        push_leb(&mut buf, low_bits(raw.len()));
        append(&mut buf, payload.as_slice());
        assert(buf@ =~= before + elit_bytes(raw@));
        ProgramBuilder { buf, subs: self.subs }
    }

    /// Adds a table scan that runs the macro `template_id` `count` times.
    /// `params` holds the fields of all rows, one row behind the other.
    pub fn scan(self, count: u32, template_id: u32, params: &Vec<Vec<u8>>) -> (b: ProgramBuilder)
        ensures
            b.code() == self.code() + tok_bytes(
                Tok::Scan {
                    count: count as nat,
                    template: template_id,
                    params: fields_of(params@),
                },
            ),
            b.macros() == self.macros(),
    {
        let stream: Vec<u8> = param_stream(params);
        let mut buf: Vec<u8> = self.buf;
        let ghost before = buf@;
        buf.push(0x07);
        push_leb(&mut buf, count);
        push_leb(&mut buf, template_id);
        push_leb(&mut buf, low_bits(stream.len()));
        append(&mut buf, stream.as_slice());
        assert(buf@ =~= before + tok_bytes(
            Tok::Scan { count: count as nat, template: template_id, params: fields_of(params@) },
        ));
        ProgramBuilder { buf, subs: self.subs }
    }

    /// Adds the next field of the enclosing table scan.
    pub fn next(self) -> (b: ProgramBuilder)
        ensures
            b.code() == self.code() + tok_bytes(Tok::Next),
            b.macros() == self.macros(),
    {
        let mut buf: Vec<u8> = self.buf;
        let ghost before = buf@;
        buf.push(0x08);
        assert(buf@ =~= before + tok_bytes(Tok::Next));
        ProgramBuilder { buf, subs: self.subs }
    }

    /// Adds a halt.
    pub fn halt(self) -> (b: ProgramBuilder)
        ensures
            b.code() == self.code().push(0xFF),
            b.macros() == self.macros(),
    {
        let mut buf: Vec<u8> = self.buf;
        buf.push(0xFF);
        ProgramBuilder { buf, subs: self.subs }
    }

    /// Defines the macro `id`, in place of any earlier one.
    pub fn add_sub(self, id: u32, body: Vec<u8>) -> (b: ProgramBuilder)
        ensures
            b.code() == self.code(),
            b.macros() == self.macros().insert(id, body@),
    {
        let mut subs: Subs = self.subs;
        subs.insert(id, body);
        assert(bodies(subs@) =~= self.macros().insert(id, body@));
        ProgramBuilder { buf: self.buf, subs }
    }

    /// Returns the byte code and the macros.
    pub fn build(self) -> (r: (Vec<u8>, Subs))
        ensures
            r.0@ == self.code(),
            bodies(r.1@) == self.macros(),
    {
        (self.buf, self.subs)
    }
}

} // verus!
