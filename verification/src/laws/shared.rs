//! Which blocks files share, and when they are worth sharing.

use vstd::prelude::*;
use crate::consensus_builder::{
    is_fed, is_ranking, is_sample, kept, key_of, needed_coverage, net_gain, sample_at,
    saved_per_file, shared_blocks_are_the_best, table_holds_its_blocks, table_of, table_size,
    top_blocks, verdicts_on, ConsensusBuilder,
};
use crate::judge::{tally, Answers};
use crate::synth::draft::with_marks;
use crate::synth::refs::{referred, Referred};
use crate::tokens::{sizes_are_exact, toks_bytes, Tok};

verus! {

/// The blocks that are taken from a file have 8, 16, 32 or 64 bytes and stand at
/// multiples of half their length.
pub proof fn samples_stand_at_half_lengths(data: Seq<u8>, pat: Seq<u8>)
    ensures
        is_sample(data, pat) <==> {
            &&& pat.len() == 8 || pat.len() == 16 || pat.len() == 32 || pat.len() == 64
            &&& exists|k: int|
                0 <= k && k * (pat.len() / 2) + pat.len() <= data.len()
                    && #[trigger] data.subrange(
                    k * (pat.len() / 2),
                    k * (pat.len() / 2) + pat.len(),
                ) == pat
        },
{
    let n = pat.len() as int;
    if is_sample(data, pat) {
        let len: int = if crate::consensus_builder::is_sample_of(data, pat, 8) {
            8
        } else if crate::consensus_builder::is_sample_of(data, pat, 16) {
            16
        } else if crate::consensus_builder::is_sample_of(data, pat, 32) {
            32
        } else {
            64
        };
        let k = choose|k: int| #[trigger] sample_at(data, pat, len, k);
        assert(k * (len / 2) >= 0) by (nonlinear_arith)
            requires
                k >= 0,
                len >= 8,
        ;
        assert(pat.len() == len);
        assert(data.subrange(k * (pat.len() / 2), k * (pat.len() / 2) + pat.len()) == pat);
    }
    if (n == 8 || n == 16 || n == 32 || n == 64) && exists|k: int|
        0 <= k && k * (pat.len() / 2) + pat.len() <= data.len() && #[trigger] data.subrange(
            k * (pat.len() / 2),
            k * (pat.len() / 2) + pat.len(),
        ) == pat {
        let k = choose|k: int|
            0 <= k && k * (pat.len() / 2) + pat.len() <= data.len() && #[trigger] data.subrange(
                k * (pat.len() / 2),
                k * (pat.len() / 2) + pat.len(),
            ) == pat;
        assert(sample_at(data, pat, n, k));
    }
}

/// A block has to stand in at least two files, and in a tenth of them.
pub proof fn blocks_are_needed_in_a_tenth_of_the_files(files: nat, held: nat)
    ensures
        held >= needed_coverage(files) <==> held >= 2 && held >= files / 10,
{
}

/// The table of shared blocks holds at most fifty. Each has 8, 16, 32 or 64 bytes, is
/// rich enough for the judge, and stands in enough files. Those that more files hold
/// come first, and of those that as many hold the longer ones. Where there are fewer
/// than fifty, no block that is rich and stands in enough files is missing.
pub proof fn tables_hold_the_most_widespread_blocks(
    b: &ConsensusBuilder,
    c: Seq<(Seq<u8>, nat)>,
    order: Seq<usize>,
    answers: Answers,
)
    requires
        b.is_sound(),
        b.are_frequent(c),
        is_ranking(kept(c, verdicts_on(c, answers)), order),
    ensures
        ({
            let blocks = top_blocks(kept(c, verdicts_on(c, answers)), order);
            let table = table_of(blocks);
            &&& blocks.len() <= 50
            &&& blocks.no_duplicates()
            &&& forall|i: int|
                0 <= i < blocks.len() ==> {
                    let x = #[trigger] blocks[i];
                    &&& x.len() == 8 || x.len() == 16 || x.len() == 32 || x.len() == 64
                    &&& (answers.rich)(tally(x), x.len())
                    &&& b.coverage(x) >= 2
                    &&& b.coverage(x) >= b.files() / 10
                    &&& table.contains_key(seq![i as u8])
                    &&& table[seq![i as u8]] == x
                }
            &&& forall|i: int, j: int|
                0 <= i <= j < blocks.len() ==> {
                    let (x, y) = (#[trigger] blocks[i], #[trigger] blocks[j]);
                    ||| b.coverage(x) > b.coverage(y)
                    ||| b.coverage(x) == b.coverage(y) && x.len() >= y.len()
                }
            &&& blocks.len() < 50 ==> forall|pat: Seq<u8>|
                #![trigger b.coverage(pat)]
                b.coverage(pat) >= 2 && b.coverage(pat) >= b.files() / 10 && (answers.rich)(
                    tally(pat),
                    pat.len(),
                ) ==> blocks.contains(pat)
        }),
{
    shared_blocks_are_the_best(b, c, order, answers);
    let blocks = top_blocks(kept(c, verdicts_on(c, answers)), order);
    table_holds_its_blocks(blocks);
    assert forall|i: int| 0 <= i < blocks.len() implies {
        let x = #[trigger] blocks[i];
        &&& table_of(blocks).contains_key(seq![i as u8])
        &&& table_of(blocks)[seq![i as u8]] == x
    } by {
        assert(key_of(i as nat) == seq![i as u8]);
    }
    assert forall|pat: Seq<u8>|
        #![trigger b.coverage(pat)]
        blocks.len() < 50 && b.coverage(pat) >= 2 && b.coverage(pat) >= b.files() / 10 && (
        answers.rich)(tally(pat), pat.len()) implies blocks.contains(pat) by {
        blocks_are_needed_in_a_tenth_of_the_files(b.files(), b.coverage(pat));
        assert(answers.is_rich(pat));
    }
}

/// What a table gains: each block saves its length less two bytes and its key in every
/// file, if that is positive, and takes up its length, its key and five bytes in the
/// archive. A table without blocks takes up eight bytes.
pub proof fn shared_blocks_gain_per_file(
    e: Seq<(Vec<u8>, Vec<u8>)>,
    x: (Vec<u8>, Vec<u8>),
    files: nat,
)
    requires
        saved_per_file(e.push(x), e.len() + 1) <= usize::MAX,
        table_size(e.push(x), e.len() + 1) <= usize::MAX,
    ensures
        net_gain(Seq::<(Vec<u8>, Vec<u8>)>::empty(), files) == -8,
        net_gain(e.push(x), files) == net_gain(e, files) + (if x.1@.len() > x.0@.len() + 2 {
            x.1@.len() - x.0@.len() - 2
        } else {
            0
        }) * files - (x.1@.len() + x.0@.len() + 5),
{
    let f = e.push(x);
    let n = e.len();
    lemma_prefix_sums(e, x, n);
    let empty = Seq::<(Vec<u8>, Vec<u8>)>::empty();
    assert(saved_per_file(empty, 0) == 0);
    assert(0 * files == 0) by (nonlinear_arith);
    let a = saved_per_file(e, n) as int;
    let more = if x.1@.len() > x.0@.len() + 2 {
        x.1@.len() - x.0@.len() - 2
    } else {
        0
    };
    assert((a + more) * files == a * files + more * files) by (nonlinear_arith);
}

proof fn lemma_prefix_sums(e: Seq<(Vec<u8>, Vec<u8>)>, x: (Vec<u8>, Vec<u8>), n: nat)
    requires
        n <= e.len(),
    ensures
        saved_per_file(e.push(x), n) == saved_per_file(e, n),
        table_size(e.push(x), n) == table_size(e, n),
    decreases n,
{
    if n > 0 {
        lemma_prefix_sums(e, x, (n - 1) as nat);
        assert(e.push(x)[n - 1] == e[n - 1]);
    }
}

/// A block of the table is referred to wherever it stands, and taken up beside the
/// program, exactly where its key has at most 255 bytes and the references save more
/// than the block takes up there: its length, its key and five bytes.
pub proof fn blocks_are_referred_to_where_that_saves(
    a: Referred,
    list: Seq<(Vec<u8>, Vec<u8>)>,
    n: nat,
)
    requires
        n < list.len(),
        toks_bytes(referred(a, list, n).toks).len() <= usize::MAX,
    ensures
        ({
            let b = referred(a, list, n);
            let c = referred(a, list, n + 1);
            let (key, block) = (list[n as int].0@, list[n as int].1@);
            let with = with_marks(b.toks, block, Tok::Ref { key });
            let saves = key.len() <= 255 && toks_bytes(with).len() + block.len() + key.len() + 5
                < toks_bytes(b.toks).len();
            &&& saves ==> c.toks == with && c.blocks == b.blocks.insert(key, block)
            &&& !saves ==> c == b
        }),
        referred(a, list, 0) == a,
{
    let b = referred(a, list, n);
    let (key, block) = (list[n as int].0@, list[n as int].1@);
    sizes_are_exact(with_marks(b.toks, block, Tok::Ref { key }));
    sizes_are_exact(b.toks);
}

/// Files take part in the search for shared blocks that are larger than 32 KiB, not
/// above the limit, and not compressed already.
pub proof fn large_files_take_part(compressed: bool, size: nat, limit: nat)
    ensures
        compressed ==> !is_fed(compressed, size, limit),
        size <= 0x8000 ==> !is_fed(compressed, size, limit),
        size > limit ==> !is_fed(compressed, size, limit),
        !compressed && size > 0x8000 && size <= limit ==> is_fed(compressed, size, limit),
{
}

/// What is kept of candidates are those with a good verdict, in their order.
pub proof fn good_candidates_are_kept(
    c: Seq<(Seq<u8>, nat)>,
    x: (Seq<u8>, nat),
    verdicts: Seq<bool>,
)
    requires
        verdicts.len() == c.len() + 1,
    ensures
        kept(Seq::<(Seq<u8>, nat)>::empty(), verdicts) == Seq::<(Seq<u8>, nat)>::empty(),
        verdicts.last() ==> kept(c.push(x), verdicts) == kept(c, verdicts).push(x),
        !verdicts.last() ==> kept(c.push(x), verdicts) == kept(c, verdicts),
{
    assert(c.push(x).drop_last() =~= c);
}

} // verus!
