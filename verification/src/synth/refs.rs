//! References to blocks that several programs share.
//!
//! A consensus block that stands in the literals of a program is written once
//! next to the program and referred to wherever it stands, if that makes the
//! program and its blocks together smaller.

use vstd::prelude::*;
use crate::bytes::copy_of;
use crate::consensus::Consensus;
use crate::machine::{step, Env, State, MAX_OUTPUT_BYTES};
use crate::synth::draft::{lemma_literal_fits, lemma_shorter, lemma_with_marks, with_marks};
use crate::synth::macros::Mark;
use crate::synth::program::SynthProgram;
use crate::synth::rewrite::{marks_size, place_marks};
use crate::synth::table::shorter;
use crate::synth::token::SynthToken;
use crate::tokens::{
    all_fit, appends, extends, instr_of, lemma_yields_extends, lemma_yields_refines, toks_run,
    toks_size, with_output, yields, Tok,
};

verus! {

broadcast use vstd::std_specs::hash::group_hash_axioms;

/// Tokens, the blocks that they refer to, and what the blocks that were added
/// take up.
pub struct Referred {
    pub toks: Seq<Tok>,
    pub blocks: vstd::map::Map<Seq<u8>, Seq<u8>>,
    pub cost: nat,
}

/// What a block takes up next to a program: its key and its bytes, each behind
/// its length.
pub open spec fn block_cost(key: Seq<u8>, block: Seq<u8>) -> nat {
    1 + key.len() + 4 + block.len()
}

/// References to the block save more than the block costs.
pub open spec fn pays_back(toks: Seq<Tok>, key: Seq<u8>, block: Seq<u8>) -> bool {
    &&& key.len() <= 255
    &&& shorter(
        toks_size(with_marks(toks, block, Tok::Ref { key })) + block_cost(key, block),
        toks_size(toks),
    )
}

/// The tokens after each of the first `n` blocks of the list was referred to, if
/// it paid back.
pub open spec fn referred(a: Referred, list: Seq<(Vec<u8>, Vec<u8>)>, n: nat) -> Referred
    decreases n,
{
    if n == 0 {
        a
    } else {
        let b = referred(a, list, (n - 1) as nat);
        let key = list[n - 1].0@;
        let block = list[n - 1].1@;
        if pays_back(b.toks, key, block) {
            Referred {
                toks: with_marks(b.toks, block, Tok::Ref { key }),
                blocks: b.blocks.insert(key, block),
                cost: b.cost + block_cost(key, block),
            }
        } else {
            b
        }
    }
}

/// Every key fits its length byte.
pub open spec fn short_keys(blocks: vstd::map::Map<Seq<u8>, Seq<u8>>) -> bool {
    forall|key: Seq<u8>| #[trigger] blocks.contains_key(key) ==> key.len() <= 255
}

/// The list holds blocks of the table.
pub open spec fn lists_blocks(
    list: Seq<(Vec<u8>, Vec<u8>)>,
    n: nat,
    table: vstd::map::Map<Seq<u8>, Seq<u8>>,
) -> bool {
    &&& n <= list.len()
    &&& forall|i: int|
        0 <= i < n ==> table.contains_key((#[trigger] list[i]).0@) && table[list[i].0@]
            == list[i].1@
}

/// A reference writes the block that it refers to.
pub proof fn reference_writes_the_block(key: Seq<u8>, env: Env)
    requires
        env.consensus.contains_key(key),
    ensures
        appends(seq![Tok::Ref { key }], env.consensus[key], env),
{
    let ts = seq![Tok::Ref { key }];
    let block = env.consensus[key];
    let none = Seq::<u32>::empty();
    assert forall|m: State|
        m.err is None && m.out.len() + block.len() <= MAX_OUTPUT_BYTES implies #[trigger] toks_run(
        ts,
        m,
        env,
        0,
        none,
    ) == with_output(m, block) by {
        let after = m.emit(block);
        assert(step(instr_of(ts[0]), m, env, 0, none) == after);
        assert(toks_run(ts.drop_first(), after, env, 0, none) == after);
    }
}

/// References keep the output: a program that yields `data` with some blocks of
/// a table yields it with the references and the blocks that were added.
pub proof fn references_keep_the_output(
    a: Referred,
    list: Seq<(Vec<u8>, Vec<u8>)>,
    n: nat,
    table: vstd::map::Map<Seq<u8>, Seq<u8>>,
    subs: vstd::map::Map<u32, Seq<u8>>,
    data: Seq<u8>,
)
    requires
        lists_blocks(list, n, table),
        a.blocks.submap_of(table),
        all_fit(a.toks),
        yields(a.toks, data, Env { subs, consensus: a.blocks }),
    ensures
        ({
            let b = referred(a, list, n);
            &&& b.blocks.submap_of(table)
            &&& all_fit(b.toks)
            &&& yields(b.toks, data, Env { subs, consensus: b.blocks })
        }),
    decreases n,
{
    if n > 0 {
        references_keep_the_output(a, list, (n - 1) as nat, table, subs, data);
        let b = referred(a, list, (n - 1) as nat);
        let key = list[n - 1].0@;
        let block = list[n - 1].1@;
        if pays_back(b.toks, key, block) {
            let env = Env { subs, consensus: b.blocks };
            let more = Env { subs, consensus: b.blocks.insert(key, block) };
            let mark = Tok::Ref { key };
            assert(extends(env, more));
            lemma_yields_extends(b.toks, data, env, more);
            assert forall|i: int| 0 <= i < b.toks.len() && #[trigger] b.toks[i] is Lit implies b.toks[i]
                ->data.len() <= MAX_OUTPUT_BYTES by {
                lemma_literal_fits(b.toks, i, data, env);
            }
            reference_writes_the_block(key, more);
            lemma_with_marks(b.toks, block, mark, more);
            lemma_yields_refines(b.toks, with_marks(b.toks, block, mark), data, more);
        }
    }
}

/// References never make a program and its blocks together larger.
pub proof fn references_never_lengthen(a: Referred, list: Seq<(Vec<u8>, Vec<u8>)>, n: nat)
    ensures
        toks_size(referred(a, list, n).toks) + referred(a, list, n).cost <= toks_size(a.toks)
            + a.cost,
        short_keys(a.blocks) ==> short_keys(referred(a, list, n).blocks),
    decreases n,
{
    if n > 0 {
        references_never_lengthen(a, list, (n - 1) as nat);
        let b = referred(a, list, (n - 1) as nat);
        let key = list[n - 1].0@;
        let block = list[n - 1].1@;
        if pays_back(b.toks, key, block) {
            lemma_shorter(
                toks_size(with_marks(b.toks, block, Tok::Ref { key })) + block_cost(key, block),
                toks_size(b.toks),
            );
        }
    }
}

impl SynthProgram {
    /// The program with its blocks, none of them added yet.
    pub open spec fn unreferred(&self) -> Referred {
        Referred { toks: self.toks(), blocks: self.consensus@, cost: 0 }
    }

    /// Refers to the blocks of `consensus` wherever that pays back, in the order
    /// of their keys. The program takes up the blocks that it refers to.
    pub fn apply_ref_pass(&mut self, consensus: &Consensus)
        ensures
            ({
                let end = referred(
                    old(self).unreferred(),
                    consensus.listing(),
                    consensus.listing().len(),
                );
                &&& final(self).toks() == end.toks
                &&& final(self).consensus@ == end.blocks
            }),
            final(self).sub_defs == old(self).sub_defs,
            final(self).next_sub_id == old(self).next_sub_id,
            final(self).input_len == old(self).input_len,
            short_keys(old(self).consensus@) ==> short_keys(final(self).consensus@),
            old(self).consensus@.submap_of(consensus@) ==> forall|data: Seq<u8>|
                old(self).restores(data) ==> #[trigger] final(self).restores(data),
    {
        let ghost start = self.unreferred();
        let ghost list = consensus.listing();
        let n: usize = consensus.len();
        let mut i: usize = 0;
        while i < n
            invariant
                i <= n,
                n == list.len(),
                list == consensus.listing(),
                start == old(self).unreferred(),
                self.toks() == referred(start, list, i as nat).toks,
                self.consensus@ == referred(start, list, i as nat).blocks,
                self.sub_defs == old(self).sub_defs,
                self.next_sub_id == old(self).next_sub_id,
                self.input_len == old(self).input_len,
                lists_blocks(list, i as nat, consensus@),
            decreases n - i,
        {
            let (key, block) = consensus.entry(i);
            let ghost b = referred(start, list, i as nat);
            assert(list[i as int].0 == *key && list[i as int].1 == *block);
            if key.len() <= 255 {
                let mark: Mark = Mark::Ref { hash: copy_of(key.as_slice()) };
                let after: usize = marks_size(
                    &self.tokens,
                    block.as_slice(),
                    &mark,
                ).saturating_add(key.len() + 5).saturating_add(block.len());
                let pays: bool = after < self.encoded_len();
                assert(pays == pays_back(b.toks, key@, block@));
                if pays {
                    let mut tokens: Vec<SynthToken> = Vec::new();
                    core::mem::swap(&mut self.tokens, &mut tokens);
                    self.tokens = place_marks(tokens, block.as_slice(), &mark);
                    self.consensus.insert(copy_of(key.as_slice()), copy_of(block.as_slice()));
                }
            }
            i = i + 1;
        }
        proof {
            references_never_lengthen(start, list, n as nat);
            if old(self).consensus@.submap_of(consensus@) {
                assert forall|data: Seq<u8>| old(self).restores(data) implies #[trigger] self.restores(
                    data,
                ) by {
                    references_keep_the_output(
                        start,
                        list,
                        n as nat,
                        consensus@,
                        old(self).env().subs,
                        data,
                    );
                }
            }
        }
    }
}

} // verus!
