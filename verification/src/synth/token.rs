//! Instruction tokens: the pieces from which programs are built.

use vstd::prelude::*;
use crate::bytes::append;
use crate::leb::{encode_leb128, leb_size, lemma_leb_size};
use crate::lz::{push_cpy, push_lit};
use crate::machine::Transform;
use crate::tokens::{
    lo32, param_bytes, param_size, tok_bytes, tok_size, toks_bytes, toks_size, Tok,
};

verus! {

/// Returns the number of bytes in the LEB128 code of `v`.
pub fn leb_len(v: u32) -> (n: usize)
    ensures
        n == leb_size(v as nat),
        1 <= n <= 5,
{
    proof {
        lemma_leb_size(v as nat);
    }
    if v <= 0x7F {
        1
    } else if v <= 0x3FFF {
        2
    } else if v <= 0x1F_FFFF {
        3
    } else if v <= 0xFFF_FFFF {
        4
    } else {
        5
    }
}

/// An instruction of a program under construction.
#[derive(Debug, PartialEq)]
pub enum SynthToken {
    /// Raw bytes.
    Lit { data: Vec<u8> },
    /// A back reference.
    Cpy { offset: usize, length: usize },
    /// A repeated token sequence.
    Loop { count: usize, body: Vec<SynthToken> },
    /// A macro call.
    Call { sub_id: u32 },
    /// A transform of the last `len` bytes of the output.
    MapBlock { transform: Transform, len: usize },
    /// A block of the consensus table.
    Ref { hash: Vec<u8> },
    /// A macro run once per row, with the fields of all rows.
    Scan { count: usize, template_id: u32, params: Vec<Vec<u8>> },
    /// The next field of the enclosing table scan.
    Next,
}

/// What a list of byte vectors holds.
pub open spec fn fields_of(params: Seq<Vec<u8>>) -> Seq<Seq<u8>> {
    params.map_values(|p: Vec<u8>| p@)
}

/// The token as mathematics.
pub open spec fn tok_of(t: SynthToken) -> Tok
    decreases t,
{
    match t {
        SynthToken::Lit { data } => Tok::Lit { data: data@ },
        SynthToken::Cpy { offset, length } => Tok::Cpy {
            offset: offset as nat,
            length: length as nat,
        },
        SynthToken::Loop { count, body } => Tok::Loop {
            count: count as nat,
            body: Seq::new(
                body@.len(),
                |i: int|
                    if 0 <= i < body@.len() {
                        tok_of(body@[i])
                    } else {
                        Tok::Next
                    },
            ),
        },
        SynthToken::Call { sub_id } => Tok::Call { id: sub_id },
        SynthToken::MapBlock { transform, len } => Tok::MapBlock { transform, length: len as nat },
        SynthToken::Ref { hash } => Tok::Ref { key: hash@ },
        SynthToken::Scan { count, template_id, params } => Tok::Scan {
            count: count as nat,
            template: template_id,
            params: fields_of(params@),
        },
        SynthToken::Next => Tok::Next,
    }
}

/// The token sequence as mathematics.
pub open spec fn toks_of(ts: Seq<SynthToken>) -> Seq<Tok> {
    Seq::new(ts.len(), |i: int| tok_of(ts[i]))
}

/// The body of a loop token is its token sequence.
pub proof fn lemma_loop_body(count: usize, body: Vec<SynthToken>)
    ensures
        tok_of(SynthToken::Loop { count, body }) == (Tok::Loop {
            count: count as nat,
            body: toks_of(body@),
        }),
{
    assert(tok_of(SynthToken::Loop { count, body })->Loop_body =~= toks_of(body@));
}

pub proof fn lemma_toks_of_push(ts: Seq<SynthToken>, t: SynthToken)
    ensures
        toks_of(ts.push(t)) == toks_of(ts).push(tok_of(t)),
{
    assert(toks_of(ts.push(t)) =~= toks_of(ts).push(tok_of(t)));
}

/// A number, or `usize::MAX` where the number is larger.
pub open spec fn capped(n: nat) -> usize {
    if n <= usize::MAX {
        n as usize
    } else {
        usize::MAX
    }
}

/// Returns the number cut down to the 32 bits that an operand holds.
pub fn low_bits(n: usize) -> (v: u32)
    ensures
        v == lo32(n as nat),
{
    (n as u64 % 0x1_0000_0000) as u32
}

impl SynthToken {
    /// Returns the size of the token's byte code, or `usize::MAX` where that is
    /// larger than a `usize` can say.
    pub fn program_bytes(&self) -> (n: usize)
        ensures
            n == capped(tok_size(tok_of(*self))),
        decreases self,
    {
        match self {
            SynthToken::Lit { data } => {
                data.len().saturating_add(1 + leb_len(low_bits(data.len())))
            },
            SynthToken::Cpy { offset, length } => {
                1 + leb_len(low_bits(*offset)) + leb_len(low_bits(*length))
            },
            SynthToken::Loop { count, body } => {
                proof {
                    lemma_loop_body(*count, *body);
                }
                let mut size: usize = 0;
                let mut i: usize = 0;
                while i < body.len()
                    invariant
                        i <= body@.len(),
                        size == capped(toks_size(toks_of(body@).take(i as int))),
                        *self == (SynthToken::Loop { count: *count, body: *body }),
                    decreases body.len() - i,
                {
                    assert(toks_of(body@).take(i + 1).drop_last() =~= toks_of(body@).take(
                        i as int,
                    ));
                    assert(decreases_to!(*body => body[i as int]));
                    assert(decreases_to!(*self => self->Loop_body));
                    size = size.saturating_add(body[i].program_bytes());
                    i = i + 1;
                }
                assert(toks_of(body@).take(i as int) =~= toks_of(body@));
                size.saturating_add(1 + leb_len(low_bits(*count)) + leb_len(low_bits(size)))
            },
            SynthToken::Call { sub_id } => 1 + leb_len(*sub_id),
            SynthToken::MapBlock { len, .. } => 2 + leb_len(low_bits(*len)),
            SynthToken::Ref { hash } => hash.len().saturating_add(2),
            SynthToken::Scan { count, template_id, params } => {
                let mut size: usize = 0;
                let mut i: usize = 0;
                while i < params.len()
                    invariant
                        i <= params@.len(),
                        size == capped(param_size(fields_of(params@).take(i as int))),
                    decreases params.len() - i,
                {
                    assert(fields_of(params@).take(i + 1).drop_last() =~= fields_of(params@).take(
                        i as int,
                    ));
                    let n: usize = params[i].len();
                    size = size.saturating_add(leb_len(low_bits(n))).saturating_add(n);
                    i = i + 1;
                }
                assert(fields_of(params@).take(i as int) =~= fields_of(params@));
                size.saturating_add(
                    1 + leb_len(low_bits(*count)) + leb_len(*template_id) + leb_len(low_bits(size)),
                )
            },
            SynthToken::Next => 1,
        }
    }

    /// Appends the token's byte code.
    pub fn write_to(&self, out: &mut Vec<u8>)
        ensures
            final(out)@ == old(out)@ + tok_bytes(tok_of(*self)),
        decreases self,
    {
        let ghost before = out@;
        match self {
            SynthToken::Lit { data } => {
                push_lit(out, data.as_slice());
            },
            SynthToken::Cpy { offset, length } => {
                push_cpy(out, *offset, *length);
            },
            SynthToken::Loop { count, body } => {
                proof {
                    lemma_loop_body(*count, *body);
                }
                let mut code: Vec<u8> = Vec::new();
                let mut i: usize = 0;
                while i < body.len()
                    invariant
                        i <= body@.len(),
                        code@ == toks_bytes(toks_of(body@).take(i as int)),
                        *self == (SynthToken::Loop { count: *count, body: *body }),
                    decreases body.len() - i,
                {
                    assert(toks_of(body@).take(i + 1).drop_last() =~= toks_of(body@).take(
                        i as int,
                    ));
                    assert(decreases_to!(*body => body[i as int]));
                    assert(decreases_to!(*self => self->Loop_body));
                    body[i].write_to(&mut code);
                    i = i + 1;
                }
                assert(toks_of(body@).take(i as int) =~= toks_of(body@));
                out.push(0x03);
                push_leb(out, low_bits(*count));
                push_leb(out, low_bits(code.len()));
                append(out, code.as_slice());
                assert(out@ =~= before + tok_bytes(tok_of(*self)));
            },
            SynthToken::Call { sub_id } => {
                out.push(0x04);
                push_leb(out, *sub_id);
                assert(out@ =~= before + tok_bytes(tok_of(*self)));
            },
            SynthToken::MapBlock { transform, len } => {
                out.push(0x02);
                out.push(transform.to_byte());
                push_leb(out, low_bits(*len));
                assert(out@ =~= before + tok_bytes(tok_of(*self)));
            },
            SynthToken::Ref { hash } => {
                out.push(0x05);
                out.push((hash.len() % 256) as u8);
                append(out, hash.as_slice());
                assert(out@ =~= before + tok_bytes(tok_of(*self)));
            },
            SynthToken::Scan { count, template_id, params } => {
                let stream: Vec<u8> = param_stream(params);
                out.push(0x07);
                push_leb(out, low_bits(*count));
                push_leb(out, *template_id);
                push_leb(out, low_bits(stream.len()));
                append(out, stream.as_slice());
                assert(out@ =~= before + tok_bytes(tok_of(*self)));
            },
            SynthToken::Next => {
                out.push(0x08);
                assert(out@ =~= before + tok_bytes(tok_of(*self)));
            },
        }
    }
}

/// Appends the LEB128 code of `v`.
pub fn push_leb(out: &mut Vec<u8>, v: u32)
    ensures
        final(out)@ == old(out)@ + crate::leb::leb_bytes(v as nat),
{
    let code: Vec<u8> = encode_leb128(v);
    append(out, code.as_slice());
}

/// Returns the byte code of a field list.
pub fn param_stream(params: &Vec<Vec<u8>>) -> (stream: Vec<u8>)
    ensures
        stream@ == param_bytes(fields_of(params@)),
{
    let mut stream: Vec<u8> = Vec::new();
    let mut i: usize = 0;
    while i < params.len()
        invariant
            i <= params@.len(),
            stream@ == param_bytes(fields_of(params@).take(i as int)),
        decreases params.len() - i,
    {
        let ghost before = stream@;
        assert(fields_of(params@).take(i + 1).drop_last() =~= fields_of(params@).take(i as int));
        push_leb(&mut stream, low_bits(params[i].len()));
        append(&mut stream, params[i].as_slice());
        assert(stream@ =~= before + (crate::leb::leb_bytes(lo32(params@[i as int]@.len()))
            + params@[i as int]@));
        i = i + 1;
    }
    assert(fields_of(params@).take(i as int) =~= fields_of(params@));
    stream
}

/// Returns the byte code of a token sequence.
pub fn tokens_to_bytes(tokens: &Vec<SynthToken>) -> (out: Vec<u8>)
    ensures
        out@ == toks_bytes(toks_of(tokens@)),
{
    let mut out: Vec<u8> = Vec::new();
    let mut i: usize = 0;
    while i < tokens.len()
        invariant
            i <= tokens@.len(),
            out@ == toks_bytes(toks_of(tokens@).take(i as int)),
        decreases tokens.len() - i,
    {
        assert(toks_of(tokens@).take(i + 1).drop_last() =~= toks_of(tokens@).take(i as int));
        tokens[i].write_to(&mut out);
        i = i + 1;
    }
    assert(toks_of(tokens@).take(i as int) =~= toks_of(tokens@));
    out
}

/// Returns the size of a token sequence's byte code, or `usize::MAX` where that
/// is larger than a `usize` can say.
pub fn tokens_size(tokens: &Vec<SynthToken>) -> (n: usize)
    ensures
        n == capped(toks_size(toks_of(tokens@))),
{
    let mut n: usize = 0;
    let mut i: usize = 0;
    while i < tokens.len()
        invariant
            i <= tokens@.len(),
            n == capped(toks_size(toks_of(tokens@).take(i as int))),
        decreases tokens.len() - i,
    {
        assert(toks_of(tokens@).take(i + 1).drop_last() =~= toks_of(tokens@).take(i as int));
        n = n.saturating_add(tokens[i].program_bytes());
        i = i + 1;
    }
    assert(toks_of(tokens@).take(i as int) =~= toks_of(tokens@));
    n
}

} // verus!
