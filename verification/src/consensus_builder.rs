//! Finding the blocks that many files share.

use std::collections::HashMap;
use vstd::prelude::*;
use crate::bytes::{copy_of, same};
use crate::consensus::Consensus;
use crate::judge::{byte_counts, Answers, Judge};
use crate::sorting::{indices_below, is_permutation, key_le, lemma_permutation, sort_by_pair};
use crate::synth::loops::clamped;
use crate::synth::token::capped;

verus! {

broadcast use vstd::std_specs::hash::group_hash_axioms;

/// Files up to this size are not worth feeding: the entropy coder sees all of
/// their repetition anyway.
pub const MIN_FEED_SIZE: usize = 32_768;

/// How many blocks a consensus table holds at most.
pub const N_PATTERNS: usize = 50;

/// How many files must hold a block at least.
pub const MIN_COVERAGE: usize = 2;

/// The gain from which on a consensus table is worth writing.
pub const GAIN_THRESHOLD: isize = 1024;

/// The lengths of the blocks that are looked for.
pub open spec fn is_block_len(n: nat) -> bool {
    n == 8 || n == 16 || n == 32 || n == 64
}

/// The block is one of those taken from a file: 8, 16, 32 or 64 bytes from a
/// place that is a multiple of half its length.
pub open spec fn is_sample(data: Seq<u8>, pat: Seq<u8>) -> bool {
    is_sample_of(data, pat, 8) || is_sample_of(data, pat, 16) || is_sample_of(data, pat, 32)
        || is_sample_of(data, pat, 64)
}

/// The block is one of `len` bytes taken from a file.
pub open spec fn is_sample_of(data: Seq<u8>, pat: Seq<u8>, len: int) -> bool {
    exists|k: int| #[trigger] sample_at(data, pat, len, k)
}

/// The block is the `k`-th of `len` bytes taken from a file.
pub open spec fn sample_at(data: Seq<u8>, pat: Seq<u8>, len: int, k: int) -> bool {
    &&& 0 <= k
    &&& k * (len / 2) + len <= data.len()
    &&& pat == data.subrange(k * (len / 2), k * (len / 2) + len)
}

/// A hash of a block.
pub open spec fn block_hash(s: Seq<u8>) -> u64
    decreases s.len(),
{
    if s.len() == 0 {
        0
    } else {
        block_hash(s.drop_last()).wrapping_mul(131).wrapping_add(s.last() as u64)
    }
}

fn hash_block(s: &[u8]) -> (h: u64)
    ensures
        h == block_hash(s@),
{
    let mut h: u64 = 0;
    let mut i: usize = 0;
    while i < s.len()
        invariant
            i <= s@.len(),
            h == block_hash(s@.take(i as int)),
        decreases s.len() - i,
    {
        assert(s@.take(i + 1).drop_last() =~= s@.take(i as int));
        h = h.wrapping_mul(131).wrapping_add(s[i] as u64);
        i = i + 1;
    }
    assert(s@.take(i as int) =~= s@);
    h
}

/// A block with the number of files that hold it and the last of them.
struct Sighting {
    pattern: Vec<u8>,
    files: usize,
    last: usize,
}

/// Counts in how many files each block occurs.
pub struct ConsensusBuilder {
    found: Vec<Sighting>,
    index: HashMap<u64, Vec<usize>>,
    files_seen: usize,
}

/// The index leads to every block by its hash, and to nothing else.
spec fn index_ok(found: Seq<Sighting>, index: vstd::map::Map<u64, Vec<usize>>) -> bool {
    &&& forall|i: int|
        0 <= i < found.len() ==> {
            let h = block_hash((#[trigger] found[i]).pattern@);
            index.contains_key(h) && index[h]@.contains(i as usize)
        }
    &&& forall|h: u64, j: int| #![trigger index[h]@[j]]
        index.contains_key(h) && 0 <= j < index[h]@.len() ==> index[h]@[j] < found.len()
}

/// No block is listed twice.
spec fn all_different(found: Seq<Sighting>) -> bool {
    forall|i: int, j: int|
        0 <= i < j < found.len() ==> (#[trigger] found[i]).pattern@ != (
        #[trigger] found[j]).pattern@
}

/// In how many files a block was found.
spec fn coverage_of(found: Seq<Sighting>, pat: Seq<u8>) -> nat
    decreases found.len(),
{
    if found.len() == 0 {
        0
    } else if found.last().pattern@ == pat {
        found.last().files as nat
    } else {
        coverage_of(found.drop_last(), pat)
    }
}

proof fn lemma_coverage(found: Seq<Sighting>, i: int)
    requires
        all_different(found),
        0 <= i < found.len(),
    ensures
        coverage_of(found, found[i].pattern@) == found[i].files,
    decreases found.len(),
{
    if i < found.len() - 1 {
        let d = found.drop_last();
        assert(found[i].pattern@ != found[found.len() - 1].pattern@);
        assert forall|a: int, b: int| 0 <= a < b < d.len() implies (#[trigger] d[a]).pattern@ != (
        #[trigger] d[b]).pattern@ by {
            assert(d[a] == found[a] && d[b] == found[b]);
        }
        lemma_coverage(d, i);
    }
}

proof fn lemma_no_coverage(found: Seq<Sighting>, pat: Seq<u8>)
    requires
        forall|i: int| 0 <= i < found.len() ==> (#[trigger] found[i]).pattern@ != pat,
    ensures
        coverage_of(found, pat) == 0,
    decreases found.len(),
{
    if found.len() > 0 {
        let d = found.drop_last();
        assert(found[found.len() - 1].pattern@ != pat);
        assert forall|i: int| 0 <= i < d.len() implies (#[trigger] d[i]).pattern@ != pat by {
            assert(d[i] == found[i]);
        }
        lemma_no_coverage(d, pat);
    }
}

impl Default for ConsensusBuilder {
    fn default() -> (b: ConsensusBuilder)
        ensures
            b.files() == 0,
            b.is_sound(),
            forall|pat: Seq<u8>| #[trigger] b.coverage(pat) == 0,
    {
        ConsensusBuilder { found: Vec::new(), index: HashMap::new(), files_seen: 0 }
    }
}

impl ConsensusBuilder {
    /// How many files were fed.
    pub closed spec fn files(&self) -> nat {
        self.files_seen as nat
    }

    /// In how many of the files fed so far a block was found.
    pub closed spec fn coverage(&self, pat: Seq<u8>) -> nat {
        coverage_of(self.found@, pat)
    }

    /// The builder keeps each block once, finds it by its hash, and keeps blocks
    /// of the set lengths only. This holds of a new builder, and feeding keeps it.
    pub closed spec fn is_sound(&self) -> bool {
        &&& index_ok(self.found@, self.index@)
        &&& all_different(self.found@)
        &&& forall|i: int|
            0 <= i < self.found@.len() ==> (#[trigger] self.found@[i]).last <= self.files_seen
                && self.found@[i].files <= self.found@[i].last
        &&& forall|pat: Seq<u8>| #[trigger]
            coverage_of(self.found@, pat) > 0 ==> is_block_len(pat.len())
    }

    /// Returns a builder that has seen nothing.
    pub fn new() -> (b: ConsensusBuilder)
        ensures
            b.files() == 0,
            b.is_sound(),
            forall|pat: Seq<u8>| #[trigger] b.coverage(pat) == 0,
    {
        ConsensusBuilder::default()
    }

    /// Returns how many files were fed.
    pub fn files_seen(&self) -> (n: usize)
        ensures
            n == self.files(),
    {
        self.files_seen
    }

    /// Returns the place of a block, if it was seen.
    fn place(&self, pat: &[u8]) -> (r: Option<usize>)
        requires
            index_ok(self.found@, self.index@),
        ensures
            match r {
                Some(i) => i < self.found@.len() && self.found@[i as int].pattern@ == pat@,
                None => forall|i: int|
                    0 <= i < self.found@.len() ==> (#[trigger] self.found@[i]).pattern@ != pat@,
            },
    {
        let h: u64 = hash_block(pat);
        if let Some(bucket) = self.index.get(&h) {
            let mut j: usize = 0;
            while j < bucket.len()
                invariant
                    j <= bucket@.len(),
                    index_ok(self.found@, self.index@),
                    self.index@.contains_key(h),
                    self.index@[h] == *bucket,
                    forall|k: int|
                        0 <= k < j ==> self.found@[#[trigger] bucket@[k] as int].pattern@ != pat@,
                decreases bucket.len() - j,
            {
                assert(self.index@[h]@[j as int] < self.found@.len());
                let i: usize = bucket[j];
                if same(self.found[i].pattern.as_slice(), pat) {
                    return Some(i);
                }
                j = j + 1;
            }
            proof {
                assert forall|i: int| 0 <= i < self.found@.len() implies (
                #[trigger] self.found@[i]).pattern@ != pat@ by {
                    if self.found@[i].pattern@ == pat@ {
                        assert(i < self.found.len());
                        assert(self.index@[h]@.contains(i as usize));
                        let k = choose|k: int| 0 <= k < bucket@.len() && bucket@[k] == i as usize;
                        assert(self.found@[bucket@[k] as int].pattern@ != pat@);
                    }
                }
            }
        }
        None
    }
}

/// A block is listed with its coverage, or not listed and not covered.
proof fn lemma_listed(found: Seq<Sighting>, pat: Seq<u8>)
    requires
        all_different(found),
    ensures
        (exists|i: int|
            0 <= i < found.len() && (#[trigger] found[i]).pattern@ == pat && coverage_of(found, pat)
                == found[i].files) || (coverage_of(found, pat) == 0 && forall|i: int|
            0 <= i < found.len() ==> (#[trigger] found[i]).pattern@ != pat),
{
    if exists|i: int| 0 <= i < found.len() && (#[trigger] found[i]).pattern@ == pat {
        let i = choose|i: int| 0 <= i < found.len() && (#[trigger] found[i]).pattern@ == pat;
        lemma_coverage(found, i);
    } else {
        lemma_no_coverage(found, pat);
    }
}

/// What feeding has done so far: of the blocks in `seen`, each is covered by one
/// file more, and they are the ones last found in `file`.
spec fn is_progress(
    before: Seq<Sighting>,
    now: Seq<Sighting>,
    index: vstd::map::Map<u64, Vec<usize>>,
    file: usize,
    seen: Set<Seq<u8>>,
) -> bool {
    &&& index_ok(now, index)
    &&& all_different(now)
    &&& forall|i: int|
        0 <= i < now.len() ==> (#[trigger] now[i]).last <= file && now[i].files <= now[i].last
            && (now[i].last == file <==> seen.contains(now[i].pattern@))
    &&& forall|pat: Seq<u8>| #[trigger]
        coverage_of(now, pat) == coverage_of(before, pat) + if seen.contains(pat) {
            1nat
        } else {
            0
        }
}

/// Finding a listed block in another file.
proof fn lemma_found_again(
    before: Seq<Sighting>,
    now: Seq<Sighting>,
    index: vstd::map::Map<u64, Vec<usize>>,
    file: usize,
    seen: Set<Seq<u8>>,
    i: int,
    s: Sighting,
)
    requires
        is_progress(before, now, index, file, seen),
        0 <= i < now.len(),
        now[i].last != file,
        s.pattern == now[i].pattern,
        s.files == now[i].files + 1,
        s.last == file,
    ensures
        is_progress(before, now.update(i, s), index, file, seen.insert(now[i].pattern@)),
{
    let later = now.update(i, s);
    let pat = now[i].pattern@;
    let more = seen.insert(pat);
    assert forall|a: int| 0 <= a < later.len() implies (#[trigger] later[a]).pattern@
        == now[a].pattern@ by {}
    assert forall|a: int, b: int| 0 <= a < b < later.len() implies (#[trigger] later[a]).pattern@
        != (#[trigger] later[b]).pattern@ by {
        assert(now[a].pattern@ != now[b].pattern@);
    }
    assert forall|a: int| 0 <= a < later.len() implies {
        let h = block_hash((#[trigger] later[a]).pattern@);
        index.contains_key(h) && index[h]@.contains(a as usize)
    } by {
        assert(index.contains_key(block_hash(now[a].pattern@)));
    }
    assert forall|a: int| 0 <= a < later.len() implies (#[trigger] later[a]).last <= file
        && later[a].files <= later[a].last && (later[a].last == file <==> more.contains(
        later[a].pattern@,
    )) by {
        assert(now[a].last == file <==> seen.contains(now[a].pattern@));
        if a != i {
            if a < i {
                assert(now[a].pattern@ != now[i].pattern@);
            } else {
                assert(now[i].pattern@ != now[a].pattern@);
            }
        }
    }
    assert forall|p: Seq<u8>| #[trigger] coverage_of(later, p) == coverage_of(before, p)
        + if more.contains(p) {
        1nat
    } else {
        0
    } by {
        assert(coverage_of(now, p) == coverage_of(before, p) + if seen.contains(p) {
            1nat
        } else {
            0
        });
        lemma_listed(later, p);
        lemma_listed(now, p);
        lemma_coverage(now, i);
        lemma_coverage(later, i);
        if p != pat {
            if exists|a: int| 0 <= a < now.len() && (#[trigger] now[a]).pattern@ == p {
                let a = choose|a: int| 0 <= a < now.len() && (#[trigger] now[a]).pattern@ == p;
                lemma_coverage(now, a);
                lemma_coverage(later, a);
            } else {
                assert forall|a: int| 0 <= a < later.len() implies (#[trigger] later[a]).pattern@
                    != p by {
                    assert(now[a].pattern@ != p);
                }
                lemma_no_coverage(now, p);
                lemma_no_coverage(later, p);
            }
        }
    }
}

/// Finding a block for the first time.
proof fn lemma_found_first(
    before: Seq<Sighting>,
    now: Seq<Sighting>,
    index: vstd::map::Map<u64, Vec<usize>>,
    file: usize,
    seen: Set<Seq<u8>>,
    s: Sighting,
    bucket: Vec<usize>,
)
    requires
        is_progress(before, now, index, file, seen),
        now.len() < usize::MAX,
        forall|i: int| 0 <= i < now.len() ==> (#[trigger] now[i]).pattern@ != s.pattern@,
        s.files == 1,
        s.last == file,
        file >= 1,
        bucket@ == (if index.contains_key(block_hash(s.pattern@)) {
            index[block_hash(s.pattern@)]@
        } else {
            Seq::empty()
        }).push(now.len() as usize),
    ensures
        is_progress(
            before,
            now.push(s),
            index.insert(block_hash(s.pattern@), bucket),
            file,
            seen.insert(s.pattern@),
        ),
{
    let later = now.push(s);
    let n = now.len() as int;
    let pat = s.pattern@;
    let h = block_hash(pat);
    let more = seen.insert(pat);
    let wider = index.insert(h, bucket);
    assert(bucket@[bucket@.len() - 1] == n);
    assert forall|a: int, b: int| 0 <= a < b < later.len() implies (#[trigger] later[a]).pattern@
        != (#[trigger] later[b]).pattern@ by {
        assert(later[a] == now[a]);
        if b < n {
            assert(later[b] == now[b]);
            assert(now[a].pattern@ != now[b].pattern@);
        }
    }
    assert forall|a: int| 0 <= a < later.len() implies {
        let g = block_hash((#[trigger] later[a]).pattern@);
        wider.contains_key(g) && wider[g]@.contains(a as usize)
    } by {
        if a < n {
            let g = block_hash(now[a].pattern@);
            assert(index.contains_key(g) && index[g]@.contains(a as usize));
            if g == h {
                let old = index[g]@;
                let j = choose|j: int| 0 <= j < old.len() && old[j] == a as usize;
                assert(bucket@[j] == a as usize);
            }
        } else {
            assert(bucket@[bucket@.len() - 1] == a as usize);
        }
    }
    assert forall|g: u64, j: int| #![trigger wider[g]@[j]]
        wider.contains_key(g) && 0 <= j < wider[g]@.len() implies wider[g]@[j] < later.len() by {
        if g == h {
            if j < bucket@.len() - 1 {
                assert(index[g]@[j] < now.len());
            }
        } else {
            assert(index[g]@[j] < now.len());
        }
    }
    lemma_no_coverage(now, pat);
    assert forall|a: int| 0 <= a < later.len() implies (#[trigger] later[a]).last <= file
        && later[a].files <= later[a].last && (later[a].last == file <==> more.contains(
        later[a].pattern@,
    )) by {
        if a < n {
            assert(later[a] == now[a]);
            assert(now[a].last == file <==> seen.contains(now[a].pattern@));
        }
    }
    assert(coverage_of(now, pat) == coverage_of(before, pat) + if seen.contains(pat) {
        1nat
    } else {
        0
    });
    assert forall|p: Seq<u8>| #[trigger] coverage_of(later, p) == coverage_of(before, p)
        + if more.contains(p) {
        1nat
    } else {
        0
    } by {
        assert(later.drop_last() =~= now);
        assert(coverage_of(now, p) == coverage_of(before, p) + if seen.contains(p) {
            1nat
        } else {
            0
        });
    }
}

impl ConsensusBuilder {
    /// Notes a block of the current file.
    fn note(&mut self, pat: &[u8], Ghost(before): Ghost<Seq<Sighting>>, Ghost(seen): Ghost<
        Set<Seq<u8>>,
    >)
        requires
            old(self).files_seen >= 1,
            is_progress(
                before,
                old(self).found@,
                old(self).index@,
                old(self).files_seen,
                seen,
            ),
        ensures
            final(self).files_seen == old(self).files_seen,
            is_progress(
                before,
                final(self).found@,
                final(self).index@,
                final(self).files_seen,
                seen.insert(pat@),
            ),
    {
        let file: usize = self.files_seen;
        match self.place(pat) {
            Some(i) => {
                assert(self.found@[i as int].last == file <==> seen.contains(
                    self.found@[i as int].pattern@,
                ));
                if self.found[i].last != file {
                    let mut s: Sighting = Sighting { pattern: Vec::new(), files: 0, last: 0 };
                    let ghost now = self.found@;
                    core::mem::swap(&mut self.found[i], &mut s);
                    let next: Sighting = Sighting {
                        pattern: s.pattern,
                        files: s.files + 1,
                        last: file,
                    };
                    proof {
                        lemma_found_again(before, now, self.index@, file, seen, i as int, next);
                        assert(self.found@.update(i as int, next) =~= now.update(i as int, next));
                    }
                    self.found[i] = next;
                } else {
                    assert(seen.insert(pat@) =~= seen);
                }
            },
            None => {
                let ghost now = self.found@;
                let ghost index = self.index@;
                let h: u64 = hash_block(pat);
                let at: usize = self.found.len();
                let mut bucket: Vec<usize> = match self.index.remove(&h) {
                    Some(bucket) => bucket,
                    None => Vec::new(),
                };
                bucket.push(at);
                let s: Sighting = Sighting { pattern: copy_of(pat), files: 1, last: file };
                let ghost new = s;
                self.found.push(s);
                assert(self.found.len() == now.len() + 1);
                proof {
                    lemma_found_first(before, now, index, file, seen, new, bucket);
                    assert(self.index@.insert(h, bucket) =~= index.insert(h, bucket));
                }
                self.index.insert(h, bucket);
            },
        }
    }
}

impl ConsensusBuilder {
    /// Notes the blocks of `len` bytes of the current file.
    fn take_samples(&mut self, data: &[u8], len: usize, Ghost(before): Ghost<
        Seq<Sighting>,
    >, Ghost(base): Ghost<Set<Seq<u8>>>) -> (seen: Ghost<Set<Seq<u8>>>)
        requires
            8 <= len <= 64,
            len % 2 == 0,
            old(self).files_seen >= 1,
            is_progress(
                before,
                old(self).found@,
                old(self).index@,
                old(self).files_seen,
                base,
            ),
        ensures
            final(self).files_seen == old(self).files_seen,
            is_progress(
                before,
                final(self).found@,
                final(self).index@,
                final(self).files_seen,
                seen@,
            ),
            forall|pat: Seq<u8>| #[trigger]
                seen@.contains(pat) <==> base.contains(pat) || is_sample_of(
                    data@,
                    pat,
                    len as int,
                ),
    {
        let stride: usize = len / 2;
        let ghost mut seen = base;
        let ghost mut k: int = 0;
        let mut at: usize = 0;
        while at <= data.len() && data.len() - at >= len
            invariant
                8 <= len <= 64,
                stride == len / 2,
                len == 2 * stride,
                at <= data@.len(),
                0 <= k,
                at == k * stride,
                self.files_seen == old(self).files_seen,
                self.files_seen >= 1,
                is_progress(before, self.found@, self.index@, self.files_seen, seen),
                forall|pat: Seq<u8>| #[trigger]
                    seen.contains(pat) <==> base.contains(pat) || exists|j: int|
                        j < k && #[trigger] sample_at(data@, pat, len as int, j),
            decreases data@.len() - at,
        {
            let ghost pat = data@.subrange(at as int, at + len);
            proof {
                assert((k + 1) * stride == k * stride + stride) by (nonlinear_arith);
            }
            self.note(&data[at..at + len], Ghost(before), Ghost(seen));
            proof {
                let more = seen.insert(pat);
                assert forall|p: Seq<u8>| #[trigger] more.contains(p) <==> base.contains(p)
                    || exists|j: int| j < k + 1 && #[trigger] sample_at(
                    data@,
                    p,
                    len as int,
                    j,
                ) by {
                    if p == pat {
                        assert(sample_at(data@, p, len as int, k));
                    }
                    if seen.contains(p) && !base.contains(p) {
                        let j = choose|j: int| j < k && #[trigger] sample_at(
                            data@,
                            p,
                            len as int,
                            j,
                        );
                        assert(sample_at(data@, p, len as int, j));
                    }
                    if exists|j: int| j < k + 1 && #[trigger] sample_at(data@, p, len as int, j) {
                        let j = choose|j: int| j < k + 1 && #[trigger] sample_at(
                            data@,
                            p,
                            len as int,
                            j,
                        );
                        if j == k {
                            assert(p == pat);
                        }
                    }
                }
                seen = more;
                k = k + 1;
            }
            at = at + stride;
        }
        proof {
            assert forall|p: Seq<u8>| #[trigger] seen.contains(p) <==> base.contains(p)
                || is_sample_of(data@, p, len as int) by {
                if is_sample_of(data@, p, len as int) {
                    let j = choose|j: int| #[trigger] sample_at(data@, p, len as int, j);
                    assert(j < k) by (nonlinear_arith)
                        requires
                            j * stride + 2 * stride <= data@.len(),
                            k * stride + 2 * stride > data@.len(),
                            stride > 0,
                    ;
                }
            }
        }
        Ghost(seen)
    }

    /// Feeds the bytes of one file. Every block that is taken from it is covered
    /// by one file more, however often it occurs. A file without bytes is no
    /// file.
    pub fn feed(&mut self, data: &[u8])
        requires
            old(self).is_sound(),
            old(self).files() < usize::MAX,
        ensures
            final(self).is_sound(),
            data@.len() == 0 ==> *final(self) == *old(self),
            data@.len() > 0 ==> {
                &&& final(self).files() == old(self).files() + 1
                &&& forall|pat: Seq<u8>| #[trigger]
                    final(self).coverage(pat) == old(self).coverage(pat) + if is_sample(
                        data@,
                        pat,
                    ) {
                        1nat
                    } else {
                        0
                    }
            },
    {
        if data.len() == 0 {
            return;
        }
        let ghost before = self.found@;
        let ghost none = Set::<Seq<u8>>::empty();
        self.files_seen = self.files_seen + 1;
        let a: Ghost<Set<Seq<u8>>> = self.take_samples(data, 8, Ghost(before), Ghost(none));
        let b: Ghost<Set<Seq<u8>>> = self.take_samples(data, 16, Ghost(before), Ghost(a@));
        let c: Ghost<Set<Seq<u8>>> = self.take_samples(data, 32, Ghost(before), Ghost(b@));
        let d: Ghost<Set<Seq<u8>>> = self.take_samples(data, 64, Ghost(before), Ghost(c@));
        proof {
            assert forall|pat: Seq<u8>| #[trigger] self.coverage(pat) == old(self).coverage(pat)
                + if is_sample(data@, pat) {
                1nat
            } else {
                0
            } by {
                assert(a@.contains(pat) <==> is_sample_of(data@, pat, 8));
                assert(b@.contains(pat) <==> a@.contains(pat) || is_sample_of(data@, pat, 16));
                assert(c@.contains(pat) <==> b@.contains(pat) || is_sample_of(data@, pat, 32));
                assert(d@.contains(pat) <==> c@.contains(pat) || is_sample_of(data@, pat, 64));
                assert(d@.contains(pat) <==> is_sample(data@, pat));
                assert(coverage_of(self.found@, pat) == coverage_of(before, pat)
                    + if d@.contains(pat) {
                    1nat
                } else {
                    0
                });
            }
            assert forall|pat: Seq<u8>| #[trigger] coverage_of(self.found@, pat) > 0 implies is_block_len(
                pat.len(),
            ) by {
                assert(self.coverage(pat) == old(self).coverage(pat) + if is_sample(data@, pat) {
                    1nat
                } else {
                    0
                });
            }
        }
    }
}

/// The key of block number `i`: one byte for the first 255, two bytes behind
/// them.
pub open spec fn key_of(i: nat) -> Seq<u8> {
    if i < 255 {
        seq![i as u8]
    } else {
        seq![0xFFu8, ((i - 255) % 256) as u8]
    }
}

/// Returns the key of block number `i`.
pub fn encode_hash(i: usize) -> (key: Vec<u8>)
    ensures
        key@ == key_of(i as nat),
{
    let mut key: Vec<u8> = Vec::new();
    if i < 255 {
        key.push(i as u8);
    } else {
        key.push(0xFF);
        key.push(((i - 255) % 256) as u8);
    }
    assert(key@ =~= key_of(i as nat));
    key
}

/// The table of these blocks under their numbers.
pub open spec fn table_of(blocks: Seq<Seq<u8>>) -> vstd::map::Map<Seq<u8>, Seq<u8>>
    decreases blocks.len(),
{
    if blocks.len() == 0 {
        vstd::map::Map::empty()
    } else {
        table_of(blocks.drop_last()).insert(key_of((blocks.len() - 1) as nat), blocks.last())
    }
}

/// How many files must hold a block, of so many files.
pub open spec fn needed_coverage(files: nat) -> nat {
    if files / 10 > MIN_COVERAGE {
        files / 10
    } else {
        MIN_COVERAGE as nat
    }
}

/// One candidate ranks before the other: more files hold it, or as many files
/// and it is not shorter. A candidate is a block and its number of files.
pub open spec fn ranks_before(a: (Seq<u8>, nat), b: (Seq<u8>, nat)) -> bool {
    a.1 > b.1 || (a.1 == b.1 && a.0.len() >= b.0.len())
}

/// What the candidates are.
pub open spec fn candidates_of(c: Seq<(Vec<u8>, usize)>) -> Seq<(Seq<u8>, nat)> {
    c.map_values(|x: (Vec<u8>, usize)| (x.0@, x.1 as nat))
}

/// The order ranks the candidates.
pub open spec fn is_ranking(c: Seq<(Seq<u8>, nat)>, order: Seq<usize>) -> bool {
    &&& is_permutation(order, c.len())
    &&& forall|i: int, j: int|
        0 <= i <= j < order.len() ==> ranks_before(
            c[#[trigger] order[i] as int],
            c[#[trigger] order[j] as int],
        )
}

/// The first blocks of a ranking, as many as a table holds.
pub open spec fn top_blocks(c: Seq<(Seq<u8>, nat)>, order: Seq<usize>) -> Seq<Seq<u8>> {
    Seq::new(
        if order.len() < N_PATTERNS {
            order.len()
        } else {
            N_PATTERNS as nat
        },
        |i: int| c[order[i] as int].0,
    )
}

/// Returns the table of the candidates that rank first.
pub fn rank_candidates(candidates: &Vec<(Vec<u8>, usize)>) -> (table: Consensus)
    ensures
        exists|order: Seq<usize>| #[trigger]
            is_ranking(candidates_of(candidates@), order) && table@ == table_of(
                top_blocks(candidates_of(candidates@), order),
            ),
{
    let ghost c = candidates_of(candidates@);
    let n: usize = candidates.len();
    let mut by_files: Vec<usize> = Vec::new();
    let mut by_len: Vec<usize> = Vec::new();
    let mut i: usize = 0;
    while i < n
        invariant
            n == candidates@.len(),
            i <= n,
            by_files@.len() == i,
            by_len@.len() == i,
            forall|k: int|
                0 <= k < i ==> #[trigger] by_files@[k] == usize::MAX - candidates@[k].1,
            forall|k: int|
                0 <= k < i ==> #[trigger] by_len@[k] == usize::MAX - candidates@[k].0@.len(),
        decreases n - i,
    {
        by_files.push(usize::MAX - candidates[i].1);
        by_len.push(usize::MAX - candidates[i].0.len());
        i = i + 1;
    }
    let all: Vec<usize> = indices_below(n);
    let order: Vec<usize> = sort_by_pair(all.as_slice(), &by_files, &by_len);
    proof {
        lemma_permutation(all@, order@, n as nat);
        assert forall|i: int, j: int| 0 <= i <= j < order@.len() implies ranks_before(
            c[#[trigger] order@[i] as int],
            c[#[trigger] order@[j] as int],
        ) by {
            assert(key_le(by_files@, by_len@, order@[i], order@[j]));
            let (x, y) = (order@[i] as int, order@[j] as int);
            assert(by_files@[x] == usize::MAX - candidates@[x].1);
            assert(by_files@[y] == usize::MAX - candidates@[y].1);
            assert(by_len@[x] == usize::MAX - candidates@[x].0@.len());
            assert(by_len@[y] == usize::MAX - candidates@[y].0@.len());
        }
        assert(is_ranking(c, order@));
    }
    let ghost goal = top_blocks(c, order@);
    let count: usize = if n < N_PATTERNS {
        n
    } else {
        N_PATTERNS
    };
    let mut table: Consensus = Consensus::new();
    let mut k: usize = 0;
    while k < count
        invariant
            k <= count,
            count <= n,
            count == goal.len(),
            n == candidates@.len(),
            c == candidates_of(candidates@),
            goal == top_blocks(c, order@),
            is_permutation(order@, n as nat),
            table@ == table_of(goal.take(k as int)),
        decreases count - k,
    {
        assert(goal.take(k + 1).drop_last() =~= goal.take(k as int));
        assert(order@[k as int] < n);
        table.insert(encode_hash(k), copy_of(candidates[order[k]].0.as_slice()));
        k = k + 1;
    }
    assert(goal.take(k as int) =~= goal);
    table
}

/// The candidates with a `true` among the verdicts.
pub open spec fn kept(c: Seq<(Seq<u8>, nat)>, verdicts: Seq<bool>) -> Seq<(Seq<u8>, nat)>
    decreases c.len(),
{
    if c.len() == 0 {
        Seq::empty()
    } else if verdicts[c.len() - 1] {
        kept(c.drop_last(), verdicts).push(c.last())
    } else {
        kept(c.drop_last(), verdicts)
    }
}

/// Returns the candidates with a `true` among the verdicts.
pub fn keep(candidates: &Vec<(Vec<u8>, usize)>, verdicts: &Vec<bool>) -> (out: Vec<(Vec<u8>, usize)>)
    requires
        verdicts@.len() == candidates@.len(),
    ensures
        candidates_of(out@) == kept(candidates_of(candidates@), verdicts@),
{
    let ghost c = candidates_of(candidates@);
    let mut out: Vec<(Vec<u8>, usize)> = Vec::new();
    assert(candidates_of(out@) =~= kept(c.take(0), verdicts@));
    let mut i: usize = 0;
    while i < candidates.len()
        invariant
            i <= candidates@.len(),
            verdicts@.len() == candidates@.len(),
            c == candidates_of(candidates@),
            candidates_of(out@) == kept(c.take(i as int), verdicts@),
        decreases candidates.len() - i,
    {
        assert(c.take(i + 1).drop_last() =~= c.take(i as int));
        if verdicts[i] {
            let one: (Vec<u8>, usize) = (copy_of(candidates[i].0.as_slice()), candidates[i].1);
            let ghost before = out@;
            out.push(one);
            assert(candidates_of(out@) =~= candidates_of(before).push(c[i as int]));
        }
        i = i + 1;
    }
    assert(c.take(i as int) =~= c);
    out
}

/// Which of the candidates are rich enough.
pub open spec fn verdicts_on(c: Seq<(Seq<u8>, nat)>, answers: Answers) -> Seq<bool> {
    Seq::new(c.len(), |i: int| answers.is_rich(c[i].0))
}

impl ConsensusBuilder {
    /// These are the blocks that enough files hold, each once and with the number
    /// of its files.
    pub open spec fn are_frequent(&self, c: Seq<(Seq<u8>, nat)>) -> bool {
        &&& forall|i: int|
            0 <= i < c.len() ==> (#[trigger] c[i]).1 == self.coverage(c[i].0) && c[i].1
                >= needed_coverage(self.files())
        &&& forall|i: int, j: int| 0 <= i < j < c.len() ==> (#[trigger] c[i]).0 != (#[trigger] c[j]).0
        &&& forall|pat: Seq<u8>| #[trigger]
            self.coverage(pat) >= needed_coverage(self.files()) ==> c.contains(
                (pat, self.coverage(pat)),
            )
    }

    /// Returns the blocks that enough files hold, with the number of their files.
    pub fn frequent(&self) -> (out: Vec<(Vec<u8>, usize)>)
        requires
            self.is_sound(),
        ensures
            self.are_frequent(candidates_of(out@)),
    {
        let tenth: usize = self.files_seen / 10;
        let needed: usize = if tenth > MIN_COVERAGE {
            tenth
        } else {
            MIN_COVERAGE
        };
        let mut out: Vec<(Vec<u8>, usize)> = Vec::new();
        let ghost mut from: Seq<int> = Seq::empty();
        let mut i: usize = 0;
        while i < self.found.len()
            invariant
                i <= self.found@.len(),
                self.is_sound(),
                needed == needed_coverage(self.files()),
                from.len() == out@.len(),
                forall|k: int|
                    0 <= k < from.len() ==> 0 <= #[trigger] from[k] < i && out@[k].0@
                        == self.found@[from[k]].pattern@ && out@[k].1
                        == self.found@[from[k]].files && out@[k].1 >= needed,
                forall|j: int, k: int|
                    0 <= j < k < from.len() ==> (#[trigger] from[j]) < (#[trigger] from[k]),
                forall|a: int|
                    0 <= a < i && (#[trigger] self.found@[a]).files >= needed ==> from.contains(a),
            decreases self.found.len() - i,
        {
            let s: &Sighting = &self.found[i];
            if s.files >= needed {
                out.push((copy_of(s.pattern.as_slice()), s.files));
                proof {
                    let old_from = from;
                    from = from.push(i as int);
                    assert(from[old_from.len() as int] == i);
                    assert forall|a: int| old_from.contains(a) implies from.contains(a) by {
                        let k = choose|k: int| 0 <= k < old_from.len() && old_from[k] == a;
                        assert(from[k] == a);
                    }
                }
            }
            i = i + 1;
        }
        proof {
            let c = candidates_of(out@);
            assert forall|k: int| 0 <= k < c.len() implies (#[trigger] c[k]).1 == self.coverage(
                c[k].0,
            ) && c[k].1 >= needed_coverage(self.files()) by {
                assert(0 <= from[k] < self.found@.len());
                lemma_coverage(self.found@, from[k]);
            }
            assert forall|j: int, k: int| 0 <= j < k < c.len() implies (#[trigger] c[j]).0 != (
            #[trigger] c[k]).0 by {
                assert(from[j] < from[k]);
                assert(self.found@[from[j]].pattern@ != self.found@[from[k]].pattern@);
            }
            assert forall|pat: Seq<u8>| #[trigger]
                self.coverage(pat) >= needed_coverage(self.files()) implies c.contains(
                (pat, self.coverage(pat)),
            ) by {
                let a = lemma_covered(self.found@, pat);
                lemma_coverage(self.found@, a);
                assert(from.contains(a));
                let k = choose|k: int| 0 <= k < from.len() && from[k] == a;
                assert(c[k] == (pat, self.coverage(pat)));
            }
        }
        out
    }

    /// Returns the table of the blocks that are worth sharing: of those that
    /// enough files hold and that `judge` finds rich enough, the ones that rank
    /// first.
    pub fn build<J: Judge>(self, judge: &J) -> (table: Consensus)
        requires
            self.is_sound(),
        ensures
            exists|c: Seq<(Seq<u8>, nat)>, order: Seq<usize>|
                self.are_frequent(c) && #[trigger] is_ranking(
                    kept(c, verdicts_on(c, judge.answers())),
                    order,
                ) && table@ == table_of(
                    top_blocks(kept(c, verdicts_on(c, judge.answers())), order),
                ),
            table@.len() <= N_PATTERNS,
            self.files() < MIN_COVERAGE ==> table@ == vstd::map::Map::<Seq<u8>, Seq<u8>>::empty(),
    {
        let frequent: Vec<(Vec<u8>, usize)> = self.frequent();
        let mut verdicts: Vec<bool> = Vec::new();
        let mut i: usize = 0;
        while i < frequent.len()
            invariant
                i <= frequent@.len(),
                verdicts@ == verdicts_on(candidates_of(frequent@), judge.answers()).take(i as int),
            decreases frequent.len() - i,
        {
            let block: &[u8] = frequent[i].0.as_slice();
            verdicts.push(judge.worth_sharing(&byte_counts(block), block.len()));
            assert(verdicts@ =~= verdicts_on(candidates_of(frequent@), judge.answers()).take(
                i + 1,
            ));
            i = i + 1;
        }
        let table: Consensus = rank_candidates(&keep(&frequent, &verdicts));
        proof {
            let c = candidates_of(frequent@);
            assert(verdicts@ =~= verdicts_on(c, judge.answers()));
            let k = kept(c, verdicts@);
            let order = choose|order: Seq<usize>| #[trigger]
                is_ranking(k, order) && table@ == table_of(top_blocks(k, order));
            assert(is_ranking(kept(c, verdicts@), order));
            table_holds_its_blocks(top_blocks(k, order));
            if self.files() < MIN_COVERAGE {
                if c.len() > 0 {
                    assert(c[0].1 >= 2);
                    coverage_is_at_most_the_files(&self, c[0].0);
                }
                assert(top_blocks(k, order).len() == 0);
            }
        }
        table
    }
}

/// A block that is covered is listed.
proof fn lemma_covered(found: Seq<Sighting>, pat: Seq<u8>) -> (a: int)
    requires
        coverage_of(found, pat) > 0,
    ensures
        0 <= a < found.len(),
        found[a].pattern@ == pat,
    decreases found.len(),
{
    if found.last().pattern@ == pat {
        found.len() - 1
    } else {
        lemma_covered(found.drop_last(), pat)
    }
}

/// No block is covered by more files than were fed.
pub proof fn coverage_is_at_most_the_files(b: &ConsensusBuilder, pat: Seq<u8>)
    requires
        b.is_sound(),
    ensures
        b.coverage(pat) <= b.files(),
{
    if b.coverage(pat) > 0 {
        let a = lemma_covered(b.found@, pat);
        lemma_coverage(b.found@, a);
    }
}

/// Different numbers have different keys, up to 511 of them.
pub proof fn keys_are_distinct(i: nat, j: nat)
    requires
        i < j < 511,
    ensures
        key_of(i) != key_of(j),
{
    let a = key_of(i);
    let b = key_of(j);
    if i < 255 && j < 255 {
        assert(a[0] != b[0]);
    } else if i < 255 {
        assert(a.len() != b.len());
    } else {
        assert(a[1] != b[1]);
    }
}

/// A table holds its blocks under their numbers, and nothing else.
pub proof fn table_holds_its_blocks(blocks: Seq<Seq<u8>>)
    requires
        blocks.len() <= 511,
    ensures
        table_of(blocks).dom().finite(),
        table_of(blocks).len() == blocks.len(),
        forall|i: int|
            0 <= i < blocks.len() ==> #[trigger] table_of(blocks).contains_key(key_of(i as nat))
                && table_of(blocks)[key_of(i as nat)] == blocks[i],
        forall|k: Seq<u8>| #[trigger]
            table_of(blocks).contains_key(k) ==> exists|i: int|
                0 <= i < blocks.len() && k == #[trigger] key_of(i as nat),
    decreases blocks.len(),
{
    if blocks.len() > 0 {
        let front = blocks.drop_last();
        let n = front.len();
        table_holds_its_blocks(front);
        let t = table_of(front);
        let all = table_of(blocks);
        if t.contains_key(key_of(n)) {
            let i = choose|i: int| 0 <= i < front.len() && key_of(n) == #[trigger] key_of(i as nat);
            keys_are_distinct(i as nat, n);
        }
        assert(all.dom() =~= t.dom().insert(key_of(n)));
        assert forall|i: int| 0 <= i < blocks.len() implies #[trigger] all.contains_key(
            key_of(i as nat),
        ) && all[key_of(i as nat)] == blocks[i] by {
            if i < n {
                assert(t.contains_key(key_of(i as nat)));
                keys_are_distinct(i as nat, n);
                assert(front[i] == blocks[i]);
            }
        }
        assert forall|k: Seq<u8>| #[trigger] all.contains_key(k) implies exists|i: int|
            0 <= i < blocks.len() && k == #[trigger] key_of(i as nat) by {
            if k == key_of(n) {
                assert(k == key_of((blocks.len() - 1) as nat));
            } else {
                assert(t.contains_key(k));
                let i = choose|i: int| 0 <= i < front.len() && k == #[trigger] key_of(i as nat);
                assert(k == key_of(i as nat));
            }
        }
    }
}

/// What is shared: under the keys of the first numbers different blocks, each of
/// a set length, rich, and held by enough files, those that more files hold
/// first, and the longer first of those that as many hold. If there is room for
/// more, every such block is there.
pub proof fn shared_blocks_are_the_best(
    b: &ConsensusBuilder,
    c: Seq<(Seq<u8>, nat)>,
    order: Seq<usize>,
    answers: Answers,
)
    requires
        b.is_sound(),
        b.are_frequent(c),
        is_ranking(kept(c, verdicts_on(c, answers)), order),
    ensures
        ({
            let blocks = top_blocks(kept(c, verdicts_on(c, answers)), order);
            &&& blocks.len() <= N_PATTERNS
            &&& blocks.no_duplicates()
            &&& forall|i: int|
                0 <= i < blocks.len() ==> is_block_len((#[trigger] blocks[i]).len())
                    && answers.is_rich(blocks[i]) && b.coverage(blocks[i]) >= needed_coverage(
                    b.files(),
                )
            &&& forall|i: int, j: int|
                0 <= i <= j < blocks.len() ==> ranks_before(
                    (#[trigger] blocks[i], b.coverage(blocks[i])),
                    (#[trigger] blocks[j], b.coverage(blocks[j])),
                )
            &&& blocks.len() < N_PATTERNS ==> forall|pat: Seq<u8>| #[trigger]
                b.coverage(pat) >= needed_coverage(b.files()) && answers.is_rich(pat)
                    ==> blocks.contains(pat)
        }),
{
    let verdicts = verdicts_on(c, answers);
    let k = kept(c, verdicts);
    let blocks = top_blocks(k, order);
    lemma_kept_all(c, verdicts);
    assert forall|i: int| 0 <= i < blocks.len() implies is_block_len((#[trigger] blocks[i]).len())
        && answers.is_rich(blocks[i]) && b.coverage(blocks[i]) >= needed_coverage(b.files())
        && k[order[i] as int].1 == b.coverage(blocks[i]) by {
        assert(0 <= order[i] < k.len());
        let at = lemma_kept(c, verdicts, order[i] as int);
        assert(c[at].1 == b.coverage(c[at].0));
        assert(coverage_of(b.found@, blocks[i]) > 0);
    }
    assert forall|i: int, j: int| 0 <= i < j < blocks.len() implies blocks[i] != blocks[j] by {
        assert(order[i] != order[j]);
        assert(0 <= order[i] < k.len() && 0 <= order[j] < k.len());
        assert(k[order[i] as int].0 != k[order[j] as int].0);
    }
    assert forall|i: int, j: int| 0 <= i <= j < blocks.len() implies ranks_before(
        (#[trigger] blocks[i], b.coverage(blocks[i])),
        (#[trigger] blocks[j], b.coverage(blocks[j])),
    ) by {
        assert(ranks_before(k[order[i] as int], k[order[j] as int]));
    }
    if blocks.len() < N_PATTERNS {
        assert forall|pat: Seq<u8>| #[trigger]
            b.coverage(pat) >= needed_coverage(b.files()) && answers.is_rich(
                pat,
            ) implies blocks.contains(pat) by {
            assert(c.contains((pat, b.coverage(pat))));
            let at = choose|at: int| 0 <= at < c.len() && c[at] == (pat, b.coverage(pat));
            assert(verdicts[at]);
            assert(k.contains(c[at]));
            let j = choose|j: int| 0 <= j < k.len() && k[j] == c[at];
            assert(order.contains(j as usize));
            let i = choose|i: int| 0 <= i < order.len() && order[i] == j as usize;
            assert(blocks[i] == pat);
        }
    }
}

/// What is kept is different if the candidates are, and every candidate with a
/// `true` is kept.
proof fn lemma_kept_all(c: Seq<(Seq<u8>, nat)>, verdicts: Seq<bool>)
    requires
        forall|i: int, j: int| 0 <= i < j < c.len() ==> (#[trigger] c[i]).0 != (#[trigger] c[j]).0,
    ensures
        forall|i: int, j: int|
            0 <= i < kept(c, verdicts).len() && 0 <= j < kept(c, verdicts).len() && i != j ==> (
            #[trigger] kept(c, verdicts)[i]).0 != (#[trigger] kept(c, verdicts)[j]).0,
        forall|at: int|
            0 <= at < c.len() && verdicts[at] ==> kept(c, verdicts).contains(#[trigger] c[at]),
    decreases c.len(),
{
    if c.len() > 0 {
        let front = c.drop_last();
        assert forall|i: int, j: int| 0 <= i < j < front.len() implies (#[trigger] front[i]).0 != (
        #[trigger] front[j]).0 by {
            assert(c[i].0 != c[j].0);
        }
        lemma_kept_all(front, verdicts);
        let before = kept(front, verdicts);
        let all = kept(c, verdicts);
        let last = c.len() - 1;
        assert forall|j: int| 0 <= j < before.len() implies (#[trigger] before[j]).0
            != c[last].0 by {
            let at = lemma_kept(front, verdicts, j);
            assert(c[at].0 != c[last].0);
        }
        assert forall|at: int| 0 <= at < c.len() && verdicts[at] implies all.contains(
            #[trigger] c[at],
        ) by {
            if at < last {
                assert(before.contains(front[at]));
                let j = choose|j: int| 0 <= j < before.len() && before[j] == front[at];
                assert(all[j] == c[at]);
            } else {
                assert(all[all.len() - 1] == c[at]);
            }
        }
        assert forall|i: int, j: int|
            0 <= i < all.len() && 0 <= j < all.len() && i != j implies (#[trigger] all[i]).0 != (
        #[trigger] all[j]).0 by {
            if i < before.len() && j < before.len() {
                assert(before[i].0 != before[j].0);
            } else if i < before.len() {
                assert(before[i].0 != c[last].0);
            } else {
                assert(before[j].0 != c[last].0);
            }
        }
    }
}

/// What is kept was a candidate.
proof fn lemma_kept(c: Seq<(Seq<u8>, nat)>, verdicts: Seq<bool>, j: int) -> (at: int)
    requires
        0 <= j < kept(c, verdicts).len(),
    ensures
        0 <= at < c.len(),
        c[at] == kept(c, verdicts)[j],
        verdicts[at],
    decreases c.len(),
{
    let front = kept(c.drop_last(), verdicts);
    if verdicts[c.len() - 1] && j == front.len() {
        c.len() - 1
    } else {
        lemma_kept(c.drop_last(), verdicts, j)
    }
}

/// The bytes that a file saves if each block of the first `n` replaces one
/// literal in it.
pub open spec fn saved_per_file(e: Seq<(Vec<u8>, Vec<u8>)>, n: nat) -> nat
    decreases n,
{
    if n == 0 {
        0
    } else {
        let cost = 2 + e[n - 1].0@.len();
        saved_per_file(e, (n - 1) as nat) + if e[n - 1].1@.len() > cost {
            (e[n - 1].1@.len() - cost) as nat
        } else {
            0
        }
    }
}

/// The bytes that the first `n` blocks take up in an archive.
pub open spec fn table_size(e: Seq<(Vec<u8>, Vec<u8>)>, n: nat) -> nat
    decreases n,
{
    if n == 0 {
        8
    } else {
        table_size(e, (n - 1) as nat) + 5 + e[n - 1].0@.len() + e[n - 1].1@.len()
    }
}

/// What a table gains over so many files if each block occurs once in each: what
/// the files save less what the table takes up. Sizes that a `usize` cannot say
/// count as `usize::MAX`.
pub open spec fn net_gain(e: Seq<(Vec<u8>, Vec<u8>)>, files: nat) -> int {
    capped(saved_per_file(e, e.len())) * files - capped(table_size(e, e.len()))
}

/// Returns an upper bound of what a table gains over so many files.
pub fn estimate_ref_net_gain(consensus: &Consensus, files_seen: usize) -> (gain: isize)
    ensures
        gain == clamped(net_gain(consensus.listing(), files_seen as nat)),
{
    let ghost e = consensus.listing();
    let n: usize = consensus.len();
    let mut saved: usize = 0;
    let mut size: usize = 8;
    let mut k: usize = 0;
    while k < n
        invariant
            n == e.len(),
            e == consensus.listing(),
            k <= n,
            saved == capped(saved_per_file(e, k as nat)),
            size == capped(table_size(e, k as nat)),
        decreases n - k,
    {
        let (key, block) = consensus.entry(k);
        let cost: usize = key.len().saturating_add(2);
        if block.len() > cost {
            saved = saved.saturating_add(block.len() - cost);
        }
        size = size.saturating_add(5).saturating_add(key.len()).saturating_add(block.len());
        k = k + 1;
    }
    proof {
        assert(saved * files_seen <= 0xFFFF_FFFF_FFFF_FFFF * 0xFFFF_FFFF_FFFF_FFFF)
            by (nonlinear_arith)
            requires
                0 <= saved <= 0xFFFF_FFFF_FFFF_FFFF,
                0 <= files_seen <= 0xFFFF_FFFF_FFFF_FFFF,
        ;
        assert(0 <= saved * files_seen) by (nonlinear_arith)
            requires
                0 <= saved,
                0 <= files_seen,
        ;
    }
    let gross: u128 = saved as u128 * files_seen as u128;
    if gross >= size as u128 {
        let net: u128 = gross - size as u128;
        if net > isize::MAX as u128 {
            isize::MAX
        } else {
            net as isize
        }
    } else {
        let loss: u128 = size as u128 - gross;
        if loss > isize::MAX as u128 {
            isize::MIN
        } else {
            -(loss as isize)
        }
    }
}

/// Returns the table if it gains enough over so many files, and an empty table
/// if not.
pub fn worthwhile(consensus: Consensus, files_seen: usize) -> (table: Consensus)
    ensures
        table@ == (if net_gain(consensus.listing(), files_seen as nat) >= GAIN_THRESHOLD {
            consensus@
        } else {
            vstd::map::Map::empty()
        }),
        net_gain(consensus.listing(), files_seen as nat) >= 1024 ==> table@ == consensus@,
        net_gain(consensus.listing(), files_seen as nat) < 1024 ==> table@
            == vstd::map::Map::<Seq<u8>, Seq<u8>>::empty(),
{
    if estimate_ref_net_gain(&consensus, files_seen) >= GAIN_THRESHOLD {
        consensus
    } else {
        Consensus::new()
    }
}

/// A file of `size` bytes takes part in the search for shared blocks.
pub open spec fn is_fed(already_compressed: bool, size: nat, max_memory: nat) -> bool {
    !already_compressed && MIN_FEED_SIZE < size <= max_memory
}

/// Returns whether a file of `size` bytes takes part in the search for shared
/// blocks. Formats that are compressed already share nothing, small files are
/// covered by the window of zlib, and files above `max_memory` are not loaded.
pub fn takes_part(already_compressed: bool, size: u64, max_memory: usize) -> (r: bool)
    ensures
        r == is_fed(already_compressed, size as nat, max_memory as nat),
{
    !already_compressed && size > MIN_FEED_SIZE as u64 && size <= max_memory as u64
}

} // verus!
