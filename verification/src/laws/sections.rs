//! How the sections of a payload are read, whoever wrote them.

use vstd::prelude::*;
use crate::bytes::{lemma_le32_len, le32_bytes};
use crate::format::{
    block_bytes, lemma_number_at, macro_bytes, number_at, read_blocks, read_consensus, read_macros,
    read_payload, read_subs, FileView,
};
use crate::tokens::lo32;

verus! {

broadcast use lemma_le32_len;

/// Macros one behind the other.
pub open spec fn macro_section(defs: Seq<(u32, Seq<u8>)>) -> Seq<u8>
    decreases defs.len(),
{
    if defs.len() == 0 {
        Seq::empty()
    } else {
        macro_bytes(defs[0].0, defs[0].1) + macro_section(defs.drop_first())
    }
}

/// Blocks one behind the other.
pub open spec fn block_section(blocks: Seq<(Seq<u8>, Seq<u8>)>) -> Seq<u8>
    decreases blocks.len(),
{
    if blocks.len() == 0 {
        Seq::empty()
    } else {
        block_bytes(blocks[0].0, blocks[0].1) + block_section(blocks.drop_first())
    }
}

/// What the pairs put on top of a map: of two with one key the later stays.
pub open spec fn put_on<K, V>(m: vstd::map::Map<K, V>, pairs: Seq<(K, V)>) -> vstd::map::Map<K, V>
    decreases pairs.len(),
{
    if pairs.len() == 0 {
        m
    } else {
        put_on(m.insert(pairs[0].0, pairs[0].1), pairs.drop_first())
    }
}

/// What is defined last stays defined.
pub proof fn the_last_of_a_key_stays<K, V>(m: vstd::map::Map<K, V>, pairs: Seq<(K, V)>, j: int)
    requires
        0 <= j < pairs.len(),
        forall|k: int| j < k < pairs.len() ==> (#[trigger] pairs[k]).0 != pairs[j].0,
    ensures
        put_on(m, pairs).contains_key(pairs[j].0),
        put_on(m, pairs)[pairs[j].0] == pairs[j].1,
    decreases pairs.len(),
{
    let rest = pairs.drop_first();
    let next = m.insert(pairs[0].0, pairs[0].1);
    if j == 0 {
        lemma_put_elsewhere(next, rest, pairs[0].0);
    } else {
        assert(rest[j - 1] == pairs[j]);
        assert forall|k: int| j - 1 < k < rest.len() implies (#[trigger] rest[k]).0 != rest[j
            - 1].0 by {
            assert(rest[k] == pairs[k + 1]);
        }
        the_last_of_a_key_stays(next, rest, j - 1);
    }
}

proof fn lemma_put_elsewhere<K, V>(m: vstd::map::Map<K, V>, pairs: Seq<(K, V)>, key: K)
    requires
        forall|k: int| 0 <= k < pairs.len() ==> (#[trigger] pairs[k]).0 != key,
    ensures
        put_on(m, pairs).contains_key(key) == m.contains_key(key),
        put_on(m, pairs)[key] == m[key],
    decreases pairs.len(),
{
    if pairs.len() > 0 {
        let rest = pairs.drop_first();
        assert forall|k: int| 0 <= k < rest.len() implies (#[trigger] rest[k]).0 != key by {
            assert(rest[k] == pairs[k + 1]);
        }
        assert(pairs[0].0 != key);
        lemma_put_elsewhere(m.insert(pairs[0].0, pairs[0].1), rest, key);
    }
}

proof fn lemma_macro_section(
    s: Seq<u8>,
    pos: nat,
    defs: Seq<(u32, Seq<u8>)>,
    rest: Seq<u8>,
    acc: vstd::map::Map<u32, Seq<u8>>,
)
    requires
        pos <= s.len(),
        s.skip(pos as int) == macro_section(defs) + rest,
        forall|i: int| 0 <= i < defs.len() ==> (#[trigger] defs[i]).1.len() < 0x1_0000_0000,
    ensures
        read_macros(s, pos, defs.len(), acc) == Some(
            (put_on(acc, defs), (s.len() - rest.len()) as nat),
        ),
        rest.len() <= s.len(),
        s.skip(s.len() - rest.len()) == rest,
    decreases defs.len(),
{
    if defs.len() == 0 {
        assert(macro_section(defs) + rest =~= rest);
        assert(s.len() == pos + rest.len());
    } else {
        let (id, body) = defs[0];
        let tail = defs.drop_first();
        let n = body.len();
        let more = macro_section(tail) + rest;
        assert(lo32(n) == n);
        assert(s.skip(pos as int) =~= le32_bytes(id as nat) + (le32_bytes(n) + (body + more)));
        assert(s.len() == pos + 8 + n + more.len());
        lemma_number_at(s, pos, id as nat, le32_bytes(n) + (body + more));
        lemma_number_at(s, pos + 4, n, body + more);
        let end = pos + 8 + n;
        assert(s.subrange((pos + 8) as int, end as int) =~= s.skip((pos + 8) as int).take(n as int));
        assert((body + more).take(n as int) =~= body);
        assert(s.skip(end as int) =~= s.skip((pos + 8) as int).skip(n as int));
        assert((body + more).skip(n as int) =~= more);
        assert forall|i: int| 0 <= i < tail.len() implies (#[trigger] tail[i]).1.len()
            < 0x1_0000_0000 by {
            assert(tail[i] == defs[i + 1]);
        }
        lemma_macro_section(s, end, tail, rest, acc.insert(id, body));
    }
}

#[verifier::rlimit(30)]
proof fn lemma_block_section(
    s: Seq<u8>,
    pos: nat,
    blocks: Seq<(Seq<u8>, Seq<u8>)>,
    rest: Seq<u8>,
    acc: vstd::map::Map<Seq<u8>, Seq<u8>>,
)
    requires
        pos <= s.len(),
        s.skip(pos as int) == block_section(blocks) + rest,
        forall|i: int|
            0 <= i < blocks.len() ==> (#[trigger] blocks[i]).0.len() < 256 && blocks[i].1.len()
                < 0x1_0000_0000,
    ensures
        read_blocks(s, pos, blocks.len(), acc) == Some(
            (put_on(acc, blocks), (s.len() - rest.len()) as nat),
        ),
        rest.len() <= s.len(),
        s.skip(s.len() - rest.len()) == rest,
    decreases blocks.len(),
{
    if blocks.len() == 0 {
        assert(block_section(blocks) + rest =~= rest);
        assert(s.len() == pos + rest.len());
    } else {
        let (key, block) = blocks[0];
        let next = blocks.drop_first();
        let more = block_section(next) + rest;
        let n = block.len();
        assert(lo32(n) == n);
        let tail = le32_bytes(n) + (block + more);
        let here = seq![key.len() as u8] + (key + tail);
        assert(s.skip(pos as int) =~= here);
        assert(s.len() == pos + 1 + key.len() + 4 + n + more.len());
        assert(s[pos as int] == s.skip(pos as int)[0]);
        let at = pos + 1 + key.len();
        assert(s.subrange((pos + 1) as int, at as int) =~= here.subrange(1, 1 + key.len() as int));
        assert(here.subrange(1, 1 + key.len() as int) =~= key);
        assert(s.skip(at as int) =~= here.skip(1 + key.len() as int));
        assert(here.skip(1 + key.len() as int) =~= tail);
        lemma_number_at(s, at, n, block + more);
        let end = at + 4 + n;
        assert(s.subrange((at + 4) as int, end as int) =~= s.skip((at + 4) as int).take(n as int));
        assert((block + more).take(n as int) =~= block);
        assert(s.skip(end as int) =~= s.skip((at + 4) as int).skip(n as int));
        assert((block + more).skip(n as int) =~= more);
        assert forall|i: int| 0 <= i < next.len() implies (#[trigger] next[i]).0.len() < 256
            && next[i].1.len() < 0x1_0000_0000 by {
            assert(next[i] == blocks[i + 1]);
        }
        lemma_block_section(s, end, next, rest, acc.insert(key, block));
    }
}

/// A payload with these flags that defines blocks and macros, in any order and some of
/// them more than once, and ends with a program. Blocks are there if the lowest flag is
/// set, whatever the other flags are.
pub open spec fn sections(
    flags: u8,
    blocks: Seq<(Seq<u8>, Seq<u8>)>,
    defs: Seq<(u32, Seq<u8>)>,
) -> Seq<u8> {
    (if flags % 2 == 1 {
        le32_bytes(blocks.len()) + block_section(blocks)
    } else {
        Seq::empty()
    }) + (le32_bytes(defs.len()) + macro_section(defs))
}

/// A payload is read as it is written, whatever it defines: its blocks if the lowest
/// flag is set, its macros, and all that is left as its program. Of two definitions
/// with one key or id the later counts.
pub proof fn payloads_are_read_as_they_are_written(
    flags: u8,
    blocks: Seq<(Seq<u8>, Seq<u8>)>,
    defs: Seq<(u32, Seq<u8>)>,
    program: Seq<u8>,
)
    requires
        blocks.len() < 0x1_0000_0000,
        defs.len() < 0x1_0000_0000,
        forall|i: int|
            0 <= i < blocks.len() ==> (#[trigger] blocks[i]).0.len() < 256 && blocks[i].1.len()
                < 0x1_0000_0000,
        forall|i: int| 0 <= i < defs.len() ==> (#[trigger] defs[i]).1.len() < 0x1_0000_0000,
    ensures
        read_payload(sections(flags, blocks, defs) + program, flags) == Some(
            FileView {
                program,
                subs: put_on(vstd::map::Map::empty(), defs),
                flags,
                consensus: if flags % 2 == 1 {
                    put_on(vstd::map::Map::empty(), blocks)
                } else {
                    vstd::map::Map::empty()
                },
            },
        ),
{
    let s = sections(flags, blocks, defs) + program;
    let own = macro_section(defs) + program;
    let tail = le32_bytes(defs.len()) + own;
    let pos: nat;
    if flags % 2 == 1 {
        let rest = block_section(blocks) + tail;
        assert(s.skip(0) =~= le32_bytes(blocks.len()) + rest);
        lemma_number_at(s, 0, blocks.len(), rest);
        lemma_block_section(s, 4, blocks, tail, vstd::map::Map::empty());
        pos = (s.len() - tail.len()) as nat;
    } else {
        pos = 0;
        assert(s.skip(0) =~= tail);
    }
    lemma_number_at(s, pos, defs.len(), own);
    lemma_macro_section(s, pos + 4, defs, program, vstd::map::Map::empty());
}

proof fn lemma_number_stays(s: Seq<u8>, more: Seq<u8>, pos: nat)
    requires
        number_at(s, pos) is Some,
    ensures
        number_at(s + more, pos) == number_at(s, pos),
{
    assert((s + more).subrange(pos as int, (pos + 4) as int) =~= s.subrange(
        pos as int,
        (pos + 4) as int,
    ));
}

proof fn lemma_macros_stay(
    s: Seq<u8>,
    more: Seq<u8>,
    pos: nat,
    count: nat,
    acc: vstd::map::Map<u32, Seq<u8>>,
)
    requires
        pos <= s.len(),
        read_macros(s, pos, count, acc) is Some,
    ensures
        read_macros(s + more, pos, count, acc) == read_macros(s, pos, count, acc),
        read_macros(s, pos, count, acc) matches Some(r) && r.1 <= s.len(),
    decreases count,
{
    if count > 0 {
        lemma_number_stays(s, more, pos);
        lemma_number_stays(s, more, pos + 4);
        let id = number_at(s, pos)->0;
        let n = number_at(s, pos + 4)->0;
        let body = s.subrange((pos + 8) as int, (pos + 8 + n) as int);
        assert((s + more).subrange((pos + 8) as int, (pos + 8 + n) as int) =~= body);
        lemma_macros_stay(s, more, pos + 8 + n, (count - 1) as nat, acc.insert(id as u32, body));
    }
}

proof fn lemma_blocks_stay(
    s: Seq<u8>,
    more: Seq<u8>,
    pos: nat,
    count: nat,
    acc: vstd::map::Map<Seq<u8>, Seq<u8>>,
)
    requires
        pos <= s.len(),
        read_blocks(s, pos, count, acc) is Some,
    ensures
        read_blocks(s + more, pos, count, acc) == read_blocks(s, pos, count, acc),
        read_blocks(s, pos, count, acc) matches Some(r) && r.1 <= s.len(),
    decreases count,
{
    if count > 0 {
        let at = pos + 1 + s[pos as int] as nat;
        assert((s + more)[pos as int] == s[pos as int]);
        lemma_number_stays(s, more, at);
        let n = number_at(s, at)->0;
        let key = s.subrange((pos + 1) as int, at as int);
        let block = s.subrange((at + 4) as int, (at + 4 + n) as int);
        assert((s + more).subrange((pos + 1) as int, at as int) =~= key);
        assert((s + more).subrange((at + 4) as int, (at + 4 + n) as int) =~= block);
        lemma_blocks_stay(s, more, at + 4 + n, (count - 1) as nat, acc.insert(key, block));
    }
}

/// Bytes behind a payload are more of its program and change nothing else of it.
pub proof fn what_stands_behind_is_program(s: Seq<u8>, more: Seq<u8>, flags: u8)
    requires
        read_payload(s, flags) is Some,
    ensures
        ({
            let f = read_payload(s, flags)->0;
            read_payload(s + more, flags) == Some(FileView { program: f.program + more, ..f })
        }),
{
    let pos: nat;
    if flags % 2 == 0 {
        pos = 0;
    } else {
        lemma_number_stays(s, more, 0);
        lemma_blocks_stay(s, more, 4, number_at(s, 0)->0, vstd::map::Map::empty());
        let (_, place) = read_consensus(s, flags)->0;
        pos = place;
    }
    assert(read_consensus(s + more, flags) == read_consensus(s, flags));
    lemma_number_stays(s, more, pos);
    lemma_macros_stay(s, more, pos + 4, number_at(s, pos)->0, vstd::map::Map::empty());
    assert(read_subs(s + more, pos) == read_subs(s, pos));
    let (_, start) = read_subs(s, pos)->0;
    assert((s + more).skip(start as int) =~= s.skip(start as int) + more);
}

/// A payload that ends before its program starts is refused, wherever it is cut.
pub proof fn cut_payloads_are_refused(
    flags: u8,
    blocks: Seq<(Seq<u8>, Seq<u8>)>,
    defs: Seq<(u32, Seq<u8>)>,
    n: int,
)
    requires
        blocks.len() < 0x1_0000_0000,
        defs.len() < 0x1_0000_0000,
        forall|i: int|
            0 <= i < blocks.len() ==> (#[trigger] blocks[i]).0.len() < 256 && blocks[i].1.len()
                < 0x1_0000_0000,
        forall|i: int| 0 <= i < defs.len() ==> (#[trigger] defs[i]).1.len() < 0x1_0000_0000,
        0 <= n < sections(flags, blocks, defs).len(),
    ensures
        read_payload(sections(flags, blocks, defs).take(n), flags) is None,
{
    let s = sections(flags, blocks, defs);
    let none = Seq::<u8>::empty();
    payloads_are_read_as_they_are_written(flags, blocks, defs, none);
    assert(s + none =~= s);
    if read_payload(s.take(n), flags) is Some {
        what_stands_behind_is_program(s.take(n), s.skip(n), flags);
        assert(s.take(n) + s.skip(n) =~= s);
        let f = read_payload(s.take(n), flags)->0;
        assert((f.program + s.skip(n)).len() > 0);
    }
}

} // verus!
