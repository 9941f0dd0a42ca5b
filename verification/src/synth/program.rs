//! Programs under construction: the main token sequence and the macros.

use std::collections::HashMap;
use vstd::prelude::*;
use crate::bytes::{append, copy_of, same};
use crate::consensus::Consensus;
use crate::ids::{is_listing, sorted_ids};
use crate::lz::{LzAnalysis, LzToken};
use crate::machine::{execute, Env};
use crate::synth::token::{
    capped, lemma_toks_of_push, tok_of, tokens_size, tokens_to_bytes, toks_of, SynthToken,
};
use crate::tokens::{sizes_are_exact, toks_bytes, toks_size, Tok};
use crate::vm::{bodies, env_of, Subs, VmState};

verus! {

broadcast use vstd::std_specs::hash::group_hash_axioms;

/// A program: its tokens, its macros, and the blocks that it refers to.
pub struct SynthProgram {
    pub tokens: Vec<SynthToken>,
    pub sub_defs: HashMap<u32, Vec<SynthToken>>,
    pub next_sub_id: u32,
    pub input_len: usize,
    pub consensus: Consensus,
}

/// The macros as mathematics.
pub open spec fn defs_of(
    sub_defs: vstd::map::Map<u32, Vec<SynthToken>>,
) -> vstd::map::Map<u32, Seq<Tok>> {
    vstd::map::Map::new(|id: u32| sub_defs.contains_key(id), |id: u32| toks_of(sub_defs[id]@))
}

/// The byte codes of the macros.
pub open spec fn code_of(defs: vstd::map::Map<u32, Seq<Tok>>) -> vstd::map::Map<u32, Seq<u8>> {
    vstd::map::Map::new(|id: u32| defs.contains_key(id), |id: u32| toks_bytes(defs[id]))
}

/// What the macros take up in a container: four bytes and the byte code of each.
pub open spec fn macro_cost(defs: vstd::map::Map<u32, Seq<Tok>>) -> nat
    decreases defs.dom().len(),
    when defs.dom().finite()
{
    if defs.dom().len() == 0 {
        0
    } else {
        let id = defs.dom().choose();
        4 + toks_size(defs[id]) + macro_cost(defs.remove(id))
    }
}

/// A new macro adds its own cost.
pub proof fn lemma_macro_cost_insert(
    defs: vstd::map::Map<u32, Seq<Tok>>,
    id: u32,
    body: Seq<Tok>,
)
    requires
        defs.dom().finite(),
        !defs.contains_key(id),
    ensures
        macro_cost(defs.insert(id, body)) == 4 + toks_size(body) + macro_cost(defs),
    decreases defs.dom().len(),
{
    let more = defs.insert(id, body);
    assert(more.dom() =~= defs.dom().insert(id));
    let first = more.dom().choose();
    assert(more.dom().contains(id));
    assert(more.dom().contains(first));
    if first == id {
        assert(more.remove(id) =~= defs);
    } else {
        let less = defs.remove(first);
        assert(less.dom() =~= defs.dom().remove(first));
        assert(more.remove(first) =~= less.insert(id, body));
        lemma_macro_cost_insert(less, id, body);
        lemma_macro_cost_insert(less, first, defs[first]);
        assert(less.insert(first, defs[first]) =~= defs);
    }
}

/// What macros take up in a container: four bytes and the code of each.
pub open spec fn stored_size(subs: vstd::map::Map<u32, Seq<u8>>) -> nat
    decreases subs.dom().len(),
    when subs.dom().finite()
{
    if subs.dom().len() == 0 {
        0
    } else {
        let id = subs.dom().choose();
        4 + subs[id].len() + stored_size(subs.remove(id))
    }
}

/// The cost of macros is what their codes take up.
proof fn lemma_stored_size(defs: vstd::map::Map<u32, Seq<Tok>>)
    requires
        defs.dom().finite(),
    ensures
        macro_cost(defs) == stored_size(code_of(defs)),
        macro_cost(defs) == 0 <==> defs.dom().len() == 0,
    decreases defs.dom().len(),
{
    let code = code_of(defs);
    assert(code.dom() =~= defs.dom());
    if defs.dom().len() > 0 {
        let id = defs.dom().choose();
        assert(defs.dom().contains(id));
        lemma_stored_size(defs.remove(id));
        assert(code.remove(id) =~= code_of(defs.remove(id)));
        sizes_are_exact(defs[id]);
    }
}

/// The total size is the length of the program's code and what the codes of its
/// macros take up. It is the size of the main program alone exactly where there
/// is no macro.
pub proof fn total_size_is_exact(p: &SynthProgram)
    ensures
        p.total_size() == toks_bytes(p.toks()).len() + stored_size(p.env().subs),
        p.total_size() == toks_size(p.toks()) <==> p.sub_defs@.dom().is_empty(),
{
    assert(p.defs().dom() =~= p.sub_defs@.dom());
    lemma_stored_size(p.defs());
    sizes_are_exact(p.toks());
    if p.sub_defs@.dom().len() == 0 {
        assert forall|id: u32| !p.sub_defs@.dom().contains(id) by {
            if p.sub_defs@.dom().contains(id) {
                assert(p.sub_defs@.dom().remove(id).len() + 1 == p.sub_defs@.dom().len());
            }
        }
        assert(p.sub_defs@.dom() =~= Set::empty());
    }
}

/// The bytes of the literals, one behind the other.
pub open spec fn literals(ts: Seq<Tok>) -> Seq<u8>
    decreases ts.len(),
{
    if ts.len() == 0 {
        Seq::empty()
    } else {
        literals(ts.drop_last()) + if ts.last() is Lit {
            ts.last()->data
        } else {
            Seq::empty()
        }
    }
}

impl SynthProgram {
    /// The main token sequence.
    pub open spec fn toks(&self) -> Seq<Tok> {
        toks_of(self.tokens@)
    }

    /// The macros.
    pub open spec fn defs(&self) -> vstd::map::Map<u32, Seq<Tok>> {
        defs_of(self.sub_defs@)
    }

    /// The tables that the program runs against.
    pub open spec fn env(&self) -> Env {
        Env { subs: code_of(self.defs()), consensus: self.consensus@ }
    }

    /// The size of the program and its macros.
    pub open spec fn total_size(&self) -> nat {
        toks_size(self.toks()) + macro_cost(self.defs())
    }

    /// Every macro id in use is below the next one.
    pub open spec fn ids_ok(&self) -> bool {
        forall|id: u32| #[trigger] self.sub_defs@.contains_key(id) ==> id < self.next_sub_id
    }

    /// Returns an empty program for an input of the given length.
    pub fn new(input_len: usize) -> (p: SynthProgram)
        ensures
            p.toks() == Seq::<Tok>::empty(),
            p.defs() == vstd::map::Map::<u32, Seq<Tok>>::empty(),
            p.next_sub_id == 0,
            p.input_len == input_len,
            p.consensus@ == vstd::map::Map::<Seq<u8>, Seq<u8>>::empty(),
            p.ids_ok(),
    {
        let p: SynthProgram = SynthProgram {
            tokens: Vec::new(),
            sub_defs: HashMap::new(),
            next_sub_id: 0,
            input_len,
            consensus: Consensus::new(),
        };
        assert(p.toks() =~= Seq::<Tok>::empty());
        assert(p.defs() =~= vstd::map::Map::<u32, Seq<Tok>>::empty());
        p
    }

    /// Returns the program of a parse.
    pub fn from_analysis(a: &LzAnalysis) -> (p: SynthProgram)
        ensures
            p.toks() == a.toks(),
            p.defs() == vstd::map::Map::<u32, Seq<Tok>>::empty(),
            p.next_sub_id == 0,
            p.input_len == a.input_len,
            p.consensus@ == vstd::map::Map::<Seq<u8>, Seq<u8>>::empty(),
            p.ids_ok(),
    {
        let mut p: SynthProgram = SynthProgram::new(a.input_len);
        let mut tokens: Vec<SynthToken> = Vec::new();
        assert(toks_of(tokens@) =~= a.toks().take(0));
        let mut i: usize = 0;
        while i < a.tokens.len()
            invariant
                i <= a.tokens@.len(),
                toks_of(tokens@) == a.toks().take(i as int),
            decreases a.tokens.len() - i,
        {
            let t: SynthToken = match &a.tokens[i] {
                LzToken::Literal { data, .. } => SynthToken::Lit { data: copy_of(data.as_slice()) },
                LzToken::Match { offset, length, .. } => SynthToken::Cpy {
                    offset: *offset,
                    length: *length,
                },
            };
            proof {
                lemma_toks_of_push(tokens@, t);
                assert(tok_of(t) == a.toks()[i as int]);
                assert(a.toks().take(i + 1) =~= a.toks().take(i as int).push(tok_of(t)));
            }
            tokens.push(t);
            i = i + 1;
        }
        assert(a.toks().take(i as int) =~= a.toks());
        p.tokens = tokens;
        p
    }

    /// Returns the size of the main program, or `usize::MAX` where that is
    /// larger than a `usize` can say.
    pub fn encoded_len(&self) -> (n: usize)
        ensures
            n == capped(toks_size(self.toks())),
    {
        tokens_size(&self.tokens)
    }

    /// Returns the size of the program and its macros, or `usize::MAX` where
    /// that is larger than a `usize` can say.
    pub fn total_encoded_len(&self) -> (n: usize)
        ensures
            n == capped(self.total_size()),
            n == capped(toks_bytes(self.toks()).len() + stored_size(self.env().subs)),
    {
        proof {
            total_size_is_exact(self);
        }
        let ids: Vec<u32> = sorted_ids(&self.sub_defs);
        let mut n: usize = self.encoded_len();
        let ghost mut done: nat = 0;
        let ghost mut rest = self.defs();
        assert(self.defs().dom() =~= self.sub_defs@.dom());
        assert(ids@.skip(0) =~= ids@);
        let mut i: usize = 0;
        while i < ids.len()
            invariant
                i <= ids@.len(),
                is_listing(ids@, self.sub_defs@.dom()),
                n == capped(toks_size(self.toks()) + done),
                macro_cost(self.defs()) == done + macro_cost(rest),
                rest.dom().finite(),
                forall|id: u32| #[trigger]
                    rest.contains_key(id) <==> ids@.skip(i as int).contains(id),
                forall|id: u32| #[trigger]
                    rest.contains_key(id) ==> rest[id] == self.defs()[id],
            decreases ids.len() - i,
        {
            let id: u32 = ids[i];
            proof {
                assert(ids@.contains(id));
                assert(ids@.skip(i as int)[0] == id);
                assert(rest.contains_key(id));
                let less = rest.remove(id);
                lemma_macro_cost_insert(less, id, rest[id]);
                assert(less.insert(id, rest[id]) =~= rest);
                assert forall|x: u32| #[trigger] less.contains_key(x) <==> ids@.skip(
                    i + 1,
                ).contains(x) by {
                    let here = ids@.skip(i as int);
                    let next = ids@.skip(i + 1);
                    if less.contains_key(x) {
                        assert(rest.contains_key(x));
                        let j = choose|j: int| 0 <= j < here.len() && here[j] == x;
                        assert(next[j - 1] == x);
                    }
                    if next.contains(x) {
                        let j = choose|j: int| 0 <= j < next.len() && next[j] == x;
                        assert(here[j + 1] == x);
                        assert(rest.contains_key(x));
                        assert(ids@[i as int] < ids@[i + 1 + j]);
                    }
                }
            }
            if let Some(body) = self.sub_defs.get(&id) {
                let size: usize = tokens_size(body);
                n = n.saturating_add(size).saturating_add(4);
                proof {
                    done = done + 4 + toks_size(rest[id]);
                    rest = rest.remove(id);
                }
            }
            i = i + 1;
        }
        proof {
            assert forall|id: u32| !rest.dom().contains(id) by {
                assert(rest.contains_key(id) <==> ids@.skip(i as int).contains(id));
            }
            assert(rest.dom() =~= Set::empty());
        }
        n
    }

    /// Returns the byte code of the main program and of each macro.
    pub fn to_bytes(&self) -> (r: (Vec<u8>, Subs))
        ensures
            r.0@ == toks_bytes(self.toks()),
            bodies(r.1@) == self.env().subs,
    {
        let prog: Vec<u8> = tokens_to_bytes(&self.tokens);
        let ids: Vec<u32> = sorted_ids(&self.sub_defs);
        let mut subs: Subs = HashMap::new();
        let mut i: usize = 0;
        while i < ids.len()
            invariant
                i <= ids@.len(),
                is_listing(ids@, self.sub_defs@.dom()),
                forall|id: u32| #[trigger]
                    subs@.contains_key(id) <==> ids@.take(i as int).contains(id),
                forall|id: u32| #[trigger]
                    subs@.contains_key(id) ==> subs@[id]@ == toks_bytes(self.defs()[id]),
            decreases ids.len() - i,
        {
            let id: u32 = ids[i];
            assert(ids@.contains(id));
            assert(ids@.take(i + 1) =~= ids@.take(i as int).push(id));
            assert forall|x: u32| #[trigger] ids@.take(i + 1).contains(x) <==> ids@.take(
                i as int,
            ).contains(x) || x == id by {
                if ids@.take(i as int).contains(x) {
                    let j = choose|j: int| 0 <= j < i && ids@.take(i as int)[j] == x;
                    assert(ids@.take(i + 1)[j] == x);
                }
                if x == id {
                    assert(ids@.take(i + 1)[i as int] == x);
                }
            }
            if let Some(body) = self.sub_defs.get(&id) {
                subs.insert(id, tokens_to_bytes(body));
            }
            i = i + 1;
        }
        assert(ids@.take(i as int) =~= ids@);
        assert(bodies(subs@) =~= self.env().subs);
        (prog, subs)
    }

    /// Returns the bytes of the literals of the main program.
    pub fn literal_bytes(&self) -> (out: Vec<u8>)
        ensures
            out@ == literals(self.toks()),
    {
        let ghost ts = self.toks();
        let mut out: Vec<u8> = Vec::new();
        let mut i: usize = 0;
        while i < self.tokens.len()
            invariant
                i <= self.tokens@.len(),
                ts == self.toks(),
                out@ == literals(ts.take(i as int)),
            decreases self.tokens.len() - i,
        {
            assert(ts.take(i + 1).drop_last() =~= ts.take(i as int));
            if let SynthToken::Lit { data } = &self.tokens[i] {
                append(&mut out, data.as_slice());
            }
            i = i + 1;
        }
        assert(ts.take(i as int) =~= ts);
        out
    }

    /// Runs the program and returns whether it yields `original`.
    pub fn verify_round_trip(&self, original: &[u8]) -> (r: bool)
        ensures
            r == ({
                let end = execute(toks_bytes(self.toks()), self.env());
                end.err is None && end.out == original@
            }),
    {
        let (prog, subs) = self.to_bytes();
        let mut vm: VmState = VmState::new();
        assert(env_of(subs, self.consensus) == self.env());
        match vm.exec(prog.as_slice(), &subs, &self.consensus) {
            Ok(_) => same(vm.into_output().as_slice(), original),
            Err(_) => false,
        }
    }
}

} // verus!
