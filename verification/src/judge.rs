//! Questions of statistics that the library leaves to its caller.
//!
//! Entropies and mean similarities are real numbers. The library counts what
//! they are computed from, asks, and acts on the answer. An answer depends on
//! what is asked alone, so each has a name; nothing else is stated of it.

use vstd::prelude::*;

verus! {

/// What a judge answers, question by question.
pub struct Answers {
    /// What `delta_saving` answers on a block and its differences.
    pub saving: spec_fn(Seq<u8>, Seq<u8>) -> isize,
    /// What `near_random` answers on byte counts and their sum.
    pub random: spec_fn(Seq<usize>, nat) -> bool,
    /// What `lines_alike` answers on the overlaps of adjacent lines.
    pub alike: spec_fn(Seq<(nat, nat)>) -> bool,
    /// What `worth_sharing` answers on byte counts and their sum.
    pub rich: spec_fn(Seq<usize>, nat) -> bool,
}

/// The pairs as numbers without bound.
pub open spec fn pairs_of(v: Seq<(usize, usize)>) -> Seq<(nat, nat)> {
    Seq::new(v.len(), |i: int| (v[i].0 as nat, v[i].1 as nat))
}

/// Answers the library's statistical questions. An answer depends on what is
/// asked alone.
pub trait Judge {
    /// Names the answers. Only proofs speak of it, and it is never called.
    spec fn answers(&self) -> Answers;

    /// How many bytes an entropy coder is expected to save on `delta` against
    /// `data`: the difference of their byte entropies, over the length of the
    /// data.
    fn delta_saving(&self, data: &[u8], delta: &[u8]) -> (r: isize)
        ensures
            r == (self.answers().saving)(data@, delta@),
    ;

    /// Whether bytes that occur as often as `counts` says, `total` in all, are
    /// close to random: their entropy is above 7.5 bits.
    fn near_random(&self, counts: &Vec<usize>, total: usize) -> (r: bool)
        ensures
            r == (self.answers().random)(counts@, total as nat),
    ;

    /// Whether adjacent lines are alike: the mean of the ratios of common to
    /// distinct substrings of four bytes is above 0.6.
    fn lines_alike(&self, overlaps: &Vec<(usize, usize)>) -> (r: bool)
        ensures
            r == (self.answers().alike)(pairs_of(overlaps@)),
    ;

    /// Whether bytes that occur as often as `counts` says, `total` in all, are
    /// worth a place in a dictionary: their entropy is at least 2.5 bits.
    fn worth_sharing(&self, counts: &Vec<usize>, total: usize) -> (r: bool)
        ensures
            r == (self.answers().rich)(counts@, total as nat),
    ;
}

/// Gives the same answers whatever is asked, for callers that do without
/// statistics.
pub struct Constant {
    pub saving: isize,
    pub random: bool,
    pub alike: bool,
    pub rich: bool,
}

impl Judge for Constant {
    open spec fn answers(&self) -> Answers {
        Answers {
            saving: |data: Seq<u8>, delta: Seq<u8>| self.saving,
            random: |counts: Seq<usize>, total: nat| self.random,
            alike: |overlaps: Seq<(nat, nat)>| self.alike,
            rich: |counts: Seq<usize>, total: nat| self.rich,
        }
    }

    fn delta_saving(&self, _data: &[u8], _delta: &[u8]) -> (r: isize) {
        self.saving
    }

    fn near_random(&self, _counts: &Vec<usize>, _total: usize) -> (r: bool) {
        self.random
    }

    fn lines_alike(&self, _overlaps: &Vec<(usize, usize)>) -> (r: bool) {
        self.alike
    }

    fn worth_sharing(&self, _counts: &Vec<usize>, _total: usize) -> (r: bool) {
        self.rich
    }
}

impl Answers {
    /// The bytes of the data are close to random. Without bytes they are not.
    pub open spec fn is_random(self, data: Seq<u8>) -> bool {
        data.len() > 0 && (self.random)(tally(data), data.len())
    }

    /// A block is worth sharing.
    pub open spec fn is_rich(self, block: Seq<u8>) -> bool {
        (self.rich)(tally(block), block.len())
    }
}

/// How often byte `b` occurs among the first `n` bytes.
pub open spec fn byte_count(data: Seq<u8>, b: int, n: nat) -> nat
    decreases n,
{
    if n == 0 {
        0
    } else {
        byte_count(data, b, (n - 1) as nat) + if data[n - 1] == b {
            1nat
        } else {
            0
        }
    }
}

/// How often each of the 256 bytes occurs.
pub open spec fn tally(data: Seq<u8>) -> Seq<usize> {
    Seq::new(256, |b: int| byte_count(data, b, data.len()) as usize)
}

/// Returns how often each byte occurs.
pub fn byte_counts(data: &[u8]) -> (counts: Vec<usize>)
    ensures
        counts@ == tally(data@),
        forall|b: int|
            0 <= b < 256 ==> #[trigger] counts@[b] == byte_count(data@, b, data@.len()),
{
    let mut counts: Vec<usize> = vec![0usize;256];
    let mut i: usize = 0;
    while i < data.len()
        invariant
            i <= data@.len(),
            counts@.len() == 256,
            forall|b: int|
                0 <= b < 256 ==> #[trigger] counts@[b] == byte_count(data@, b, i as nat)
                    && counts@[b] <= i,
        decreases data.len() - i,
    {
        let b: usize = data[i] as usize;
        assert(counts@[b as int] <= i);
        counts[b] = counts[b] + 1;
        i = i + 1;
    }
    assert(counts@ =~= tally(data@));
    counts
}

} // verus!
