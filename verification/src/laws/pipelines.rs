//! What the pipeline makes of data of each kind.

use vstd::prelude::*;
use crate::format::{block_bytes, macro_bytes, payload_of};
use crate::ids::listing;
use crate::judge::Answers;
use crate::laws::codes::fixed_numbers_have_their_lowest_byte_first;
use crate::laws::transforms::number_in;
use crate::lz::{piece_toks, LzEncoder, Piece};
use crate::pipeline::is_piped;
use crate::sched::{start_of, DataClass};
use crate::synth::draft::{with_parses, Draft};
use crate::synth::program::{lemma_macro_cost_insert, literals, macro_cost};
use crate::tokens::{
    lo32, size_is_exact, sizes_are_exact, tok_bytes, tok_size, toks_bytes, toks_size, Tok,
};

verus! {

broadcast use crate::bytes::lemma_le32_len;

/// The program of a parse writes each literal as it is and each reference as a copy,
/// and has no macros.
pub proof fn parses_are_written_piece_by_piece(lz: LzEncoder, data: Seq<u8>, k: int)
    requires
        0 <= k < lz.parse(data).len(),
    ensures
        ({
            let d = start_of(lz, data);
            &&& d.toks.len() == lz.parse(data).len()
            &&& d.defs == vstd::map::Map::<u32, Seq<Tok>>::empty()
            &&& match lz.parse(data)[k] {
                Piece::Literal { start, data } => d.toks[k] == (Tok::Lit { data }),
                Piece::Match { start, offset, length } => d.toks[k] == (Tok::Cpy {
                    offset,
                    length,
                }),
            }
        }),
{
}

/// Binary and compressed data is parsed and nothing else.
pub proof fn binary_data_is_only_parsed(
    class: DataClass,
    lz: LzEncoder,
    data: Seq<u8>,
    b: Draft,
    hybrid: bool,
    answers: Answers,
)
    requires
        is_piped(class, lz, data, b, hybrid, answers),
        class == DataClass::Binary || class == DataClass::AlreadyCompressed,
    ensures
        b.toks == piece_toks(lz.parse(data)),
        b.defs == vstd::map::Map::<u32, Seq<Tok>>::empty(),
        !hybrid,
{
    reveal(is_piped);
}

/// After synthesis on the raw data each literal that is left is parsed by itself, and
/// everything else stays.
pub proof fn leftover_literals_are_parsed(front: Seq<Tok>, t: Tok, lz: LzEncoder)
    ensures
        with_parses(Seq::empty(), &lz) == Seq::<Tok>::empty(),
        t is Lit ==> with_parses(front.push(t), &lz) == with_parses(front, &lz) + piece_toks(
            lz.parse(t->data),
        ),
        !(t is Lit) ==> with_parses(front.push(t), &lz) == with_parses(front, &lz) + seq![t],
{
    assert(front.push(t).drop_last() =~= front);
}

/// A payload holds the number of its blocks and the blocks, if there are any, then the
/// number of its macros and the macros, and ends with the program.
pub proof fn payloads_have_their_sections_in_order(
    program: Seq<u8>,
    subs: vstd::map::Map<u32, Seq<u8>>,
    blocks: Seq<(Vec<u8>, Vec<u8>)>,
)
    requires
        blocks.len() < 0x1_0000_0000,
        listing(subs.dom()).len() < 0x1_0000_0000,
    ensures
        ({
            let s = payload_of(program, subs, blocks);
            let ids = listing(subs.dom());
            &&& s.len() >= program.len() + 4
            &&& s.skip(s.len() - program.len()) == program
            &&& blocks.len() > 0 ==> {
                let first = block_bytes(blocks[0].0@, blocks[0].1@);
                &&& number_in(s, 0) == blocks.len()
                &&& s.subrange(4, 4 + first.len() as int) == first
            }
            &&& blocks.len() == 0 ==> number_in(s, 0) == ids.len()
            &&& blocks.len() == 0 && ids.len() > 0 ==> {
                let first = macro_bytes(ids[0], subs[ids[0]]);
                s.subrange(4, 4 + first.len() as int) == first
            }
            &&& blocks.len() == 0 && ids.len() == 0 ==> s == seq![0u8, 0, 0, 0] + program
        }),
{
    let s = payload_of(program, subs, blocks);
    let ids = listing(subs.dom());
    assert(s.skip(s.len() - program.len()) =~= program);
    fixed_numbers_have_their_lowest_byte_first(blocks.len());
    fixed_numbers_have_their_lowest_byte_first(ids.len());
    assert(lo32(blocks.len()) == blocks.len());
    assert(lo32(ids.len()) == ids.len());
    if blocks.len() > 0 {
        let first = block_bytes(blocks[0].0@, blocks[0].1@);
        assert(s.subrange(4, 4 + first.len() as int) =~= first);
    } else if ids.len() > 0 {
        let first = macro_bytes(ids[0], subs[ids[0]]);
        assert(s.subrange(4, 4 + first.len() as int) =~= first);
    } else {
        let four = crate::bytes::le32_bytes(0);
        fixed_numbers_have_their_lowest_byte_first(0);
        assert(four =~= seq![0u8, 0, 0, 0]);
        assert(s =~= four + program);
    }
}

/// The code of a program is the codes of its instructions, one behind the other, and
/// its size is its length.
pub proof fn codes_stand_one_behind_the_other(front: Seq<Tok>, t: Tok)
    ensures
        toks_bytes(front.push(t)) == toks_bytes(front) + tok_bytes(t),
        toks_bytes(Seq::<Tok>::empty()) == Seq::<u8>::empty(),
        toks_size(front) == toks_bytes(front).len(),
        tok_size(t) == tok_bytes(t).len(),
{
    assert(front.push(t).drop_last() =~= front);
    sizes_are_exact(front);
    size_is_exact(t);
}

/// The literal bytes of a program are the bytes of its literals, one behind the other,
/// and no others.
pub proof fn literal_bytes_are_those_of_the_literals(front: Seq<Tok>, t: Tok)
    ensures
        literals(Seq::<Tok>::empty()) == Seq::<u8>::empty(),
        t is Lit ==> literals(front.push(t)) == literals(front) + t->data,
        !(t is Lit) ==> literals(front.push(t)) == literals(front),
{
    assert(front.push(t).drop_last() =~= front);
    if !(t is Lit) {
        assert(literals(front) + Seq::<u8>::empty() =~= literals(front));
    }
}

/// A macro takes up its code and four bytes.
pub proof fn macros_take_up_their_code_and_four_bytes(
    defs: vstd::map::Map<u32, Seq<Tok>>,
    id: u32,
    body: Seq<Tok>,
)
    requires
        defs.dom().finite(),
        !defs.contains_key(id),
    ensures
        macro_cost(defs.insert(id, body)) == macro_cost(defs) + toks_bytes(body).len() + 4,
        macro_cost(vstd::map::Map::<u32, Seq<Tok>>::empty()) == 0,
{
    lemma_macro_cost_insert(defs, id, body);
    sizes_are_exact(body);
    assert(vstd::map::Map::<u32, Seq<Tok>>::empty().dom() =~= Set::<u32>::empty());
}

} // verus!
