//! The consensus table: blocks of bytes shared between programs, each under a
//! short key.

use vstd::prelude::*;
use crate::bytes::{
    copy_of, is_before, lemma_lex_total, lemma_lex_transitive, lex_less, same,
};

verus! {

/// A table from keys to blocks, kept in the lexicographic order of its keys.
#[derive(Debug)]
pub struct Consensus {
    entries: Vec<(Vec<u8>, Vec<u8>)>,
}

/// Keys come in strictly increasing order.
pub open spec fn keys_ascend(e: Seq<(Vec<u8>, Vec<u8>)>) -> bool {
    forall|i: int, j: int| 0 <= i < j < e.len() ==> lex_less(#[trigger] e[i].0@, #[trigger] e[j].0@)
}

/// The table that a list of entries describes.
pub open spec fn entries_map(e: Seq<(Vec<u8>, Vec<u8>)>) -> Map<Seq<u8>, Seq<u8>>
    decreases e.len(),
{
    if e.len() == 0 {
        Map::empty()
    } else {
        entries_map(e.drop_last()).insert(e.last().0@, e.last().1@)
    }
}

/// With ascending keys, the table holds exactly the listed entries.
pub proof fn lemma_entries_map(e: Seq<(Vec<u8>, Vec<u8>)>)
    requires
        keys_ascend(e),
    ensures
        forall|i: int|
            0 <= i < e.len() ==> #[trigger] entries_map(e).contains_key(e[i].0@) && entries_map(
                e,
            )[e[i].0@] == e[i].1@,
        forall|k: Seq<u8>| #[trigger]
            entries_map(e).contains_key(k) ==> exists|i: int| 0 <= i < e.len() && e[i].0@ == k,
        entries_map(e).dom().finite(),
        entries_map(e).len() == e.len(),
    decreases e.len(),
{
    if e.len() > 0 {
        let d = e.drop_last();
        assert forall|i: int, j: int| 0 <= i < j < d.len() implies lex_less(
            #[trigger] d[i].0@,
            #[trigger] d[j].0@,
        ) by {
            assert(d[i] == e[i] && d[j] == e[j]);
        }
        lemma_entries_map(d);
        let last = e.last();
        assert forall|i: int| 0 <= i < e.len() implies #[trigger] entries_map(e).contains_key(
            e[i].0@,
        ) && entries_map(e)[e[i].0@] == e[i].1@ by {
            if i < d.len() {
                assert(d[i] == e[i]);
                assert(lex_less(e[i].0@, e[e.len() - 1].0@));
                lemma_lex_total(e[i].0@, last.0@);
                assert(entries_map(d).contains_key(d[i].0@));
            }
        }
        assert forall|k: Seq<u8>| #[trigger] entries_map(e).contains_key(k) implies exists|i: int|
            0 <= i < e.len() && e[i].0@ == k by {
            if k == last.0@ {
                assert(e[e.len() - 1].0@ == k);
            } else {
                assert(entries_map(d).contains_key(k));
                let i = choose|i: int| 0 <= i < d.len() && d[i].0@ == k;
                assert(e[i].0@ == k);
            }
        }
        if entries_map(d).contains_key(last.0@) {
            let i = choose|i: int| 0 <= i < d.len() && d[i].0@ == last.0@;
            assert(e[i].0@ == last.0@);
            assert(lex_less(e[i].0@, e[e.len() - 1].0@));
            lemma_lex_total(last.0@, last.0@);
            assert(false);
        }
    } else {
        assert(entries_map(e) =~= Map::empty());
    }
}

/// A key of a listing is none that stands behind its last one.
proof fn lemma_last_is_largest(e: Seq<(Vec<u8>, Vec<u8>)>, k: Seq<u8>)
    requires
        keys_ascend(e),
        e.len() > 0,
        entries_map(e).contains_key(k),
    ensures
        k == e.last().0@ || lex_less(k, e.last().0@),
{
    lemma_entries_map(e);
    let i = choose|i: int| 0 <= i < e.len() && e[i].0@ == k;
    if i < e.len() - 1 {
        assert(lex_less(e[i].0@, e[e.len() - 1].0@));
    }
}

/// The table without its last entry.
proof fn lemma_without_last(e: Seq<(Vec<u8>, Vec<u8>)>)
    requires
        keys_ascend(e),
        e.len() > 0,
    ensures
        keys_ascend(e.drop_last()),
        entries_map(e.drop_last()) == entries_map(e).remove(e.last().0@),
{
    let d = e.drop_last();
    assert forall|i: int, j: int| 0 <= i < j < d.len() implies lex_less(
        #[trigger] d[i].0@,
        #[trigger] d[j].0@,
    ) by {
        assert(d[i] == e[i] && d[j] == e[j]);
    }
    lemma_entries_map(d);
    let key = e.last().0@;
    if entries_map(d).contains_key(key) {
        let i = choose|i: int| 0 <= i < d.len() && d[i].0@ == key;
        assert(lex_less(e[i].0@, e[e.len() - 1].0@));
        lemma_lex_total(key, key);
    }
    assert(entries_map(d) =~= entries_map(e).remove(key));
}

/// A table is listed in one way alone.
pub proof fn listings_agree(a: Seq<(Vec<u8>, Vec<u8>)>, b: Seq<(Vec<u8>, Vec<u8>)>)
    requires
        keys_ascend(a),
        keys_ascend(b),
        entries_map(a) == entries_map(b),
    ensures
        a.len() == b.len(),
        forall|i: int|
            0 <= i < a.len() ==> (#[trigger] a[i]).0@ == b[i].0@ && a[i].1@ == b[i].1@,
    decreases a.len(),
{
    lemma_entries_map(a);
    lemma_entries_map(b);
    if a.len() > 0 {
        let (k, l) = (a.last().0@, b.last().0@);
        assert(entries_map(a).contains_key(a[a.len() - 1].0@));
        assert(entries_map(b).contains_key(b[b.len() - 1].0@));
        lemma_last_is_largest(a, l);
        lemma_last_is_largest(b, k);
        lemma_lex_total(k, l);
        lemma_without_last(a);
        lemma_without_last(b);
        listings_agree(a.drop_last(), b.drop_last());
        assert forall|i: int| 0 <= i < a.len() implies (#[trigger] a[i]).0@ == b[i].0@ && a[i].1@
            == b[i].1@ by {
            if i < a.len() - 1 {
                assert(a.drop_last()[i].0@ == b.drop_last()[i].0@);
            }
        }
    }
}

impl View for Consensus {
    type V = Map<Seq<u8>, Seq<u8>>;

    closed spec fn view(&self) -> Map<Seq<u8>, Seq<u8>> {
        entries_map(self.entries@)
    }
}

impl Consensus {
    #[verifier::type_invariant]
    closed spec fn inv(self) -> bool {
        keys_ascend(self.entries@)
    }

    /// The entries, in the order of their keys.
    pub closed spec fn listing(&self) -> Seq<(Vec<u8>, Vec<u8>)> {
        self.entries@
    }

    /// Returns an empty table.
    pub fn new() -> (c: Consensus)
        ensures
            c@ == Map::<Seq<u8>, Seq<u8>>::empty(),
    {
        Consensus { entries: Vec::new() }
    }

    /// Returns how many blocks the table holds.
    pub fn len(&self) -> (n: usize)
        ensures
            n == self@.len(),
            n == self.listing().len(),
            self@.dom().finite(),
            keys_ascend(self.listing()),
            entries_map(self.listing()) == self@,
    {
        proof {
            use_type_invariant(self);
            lemma_entries_map(self.entries@);
        }
        self.entries.len()
    }

    /// Returns whether the table holds no block.
    pub fn is_empty(&self) -> (r: bool)
        ensures
            r == (self@ == Map::<Seq<u8>, Seq<u8>>::empty()),
    {
        proof {
            use_type_invariant(self);
            lemma_entries_map(self.entries@);
            if self.entries@.len() == 0 {
                assert(self@ =~= Map::<Seq<u8>, Seq<u8>>::empty());
            } else {
                assert(self@.contains_key(self.entries@[0].0@));
            }
        }
        self.entries.len() == 0
    }

    /// Returns the key and block at place `i` in the order of the keys.
    pub fn entry(&self, i: usize) -> (e: (&Vec<u8>, &Vec<u8>))
        requires
            i < self.listing().len(),
        ensures
            *e.0 == self.listing()[i as int].0,
            *e.1 == self.listing()[i as int].1,
            self@.contains_key(e.0@),
            self@[e.0@] == e.1@,
    {
        proof {
            use_type_invariant(self);
            lemma_entries_map(self.entries@);
            assert(self@.contains_key(self.entries@[i as int].0@));
        }
        (&self.entries[i].0, &self.entries[i].1)
    }

    /// Returns the first place whose key is not before `key`.
    fn place(&self, key: &[u8]) -> (p: usize)
        ensures
            p <= self.entries@.len(),
            forall|i: int| 0 <= i < p ==> lex_less(#[trigger] self.entries@[i].0@, key@),
            forall|i: int|
                p <= i < self.entries@.len() ==> !lex_less(#[trigger] self.entries@[i].0@, key@),
    {
        proof {
            use_type_invariant(self);
        }
        let mut lo: usize = 0;
        let mut hi: usize = self.entries.len();
        while lo < hi
            invariant
                lo <= hi <= self.entries@.len(),
                keys_ascend(self.entries@),
                forall|i: int| 0 <= i < lo ==> lex_less(#[trigger] self.entries@[i].0@, key@),
                forall|i: int|
                    hi <= i < self.entries@.len() ==> !lex_less(
                        #[trigger] self.entries@[i].0@,
                        key@,
                    ),
            decreases hi - lo,
        {
            let mid: usize = lo + (hi - lo) / 2;
            if is_before(self.entries[mid].0.as_slice(), key) {
                assert forall|i: int| 0 <= i < mid + 1 implies lex_less(
                    #[trigger] self.entries@[i].0@,
                    key@,
                ) by {
                    if i < mid {
                        assert(lex_less(self.entries@[i].0@, self.entries@[mid as int].0@));
                        lemma_lex_transitive(
                            self.entries@[i].0@,
                            self.entries@[mid as int].0@,
                            key@,
                        );
                    }
                }
                lo = mid + 1;
            } else {
                assert forall|i: int| mid <= i < self.entries@.len() implies !lex_less(
                    #[trigger] self.entries@[i].0@,
                    key@,
                ) by {
                    if i > mid && lex_less(self.entries@[i].0@, key@) {
                        assert(lex_less(self.entries@[mid as int].0@, self.entries@[i].0@));
                        lemma_lex_transitive(
                            self.entries@[mid as int].0@,
                            self.entries@[i].0@,
                            key@,
                        );
                    }
                }
                hi = mid;
            }
        }
        lo
    }

    /// Returns the block under `key`.
    pub fn get(&self, key: &[u8]) -> (r: Option<&Vec<u8>>)
        ensures
            match r {
                Some(block) => self@.contains_key(key@) && self@[key@] == block@,
                None => !self@.contains_key(key@),
            },
    {
        let p: usize = self.place(key);
        proof {
            use_type_invariant(self);
            lemma_entries_map(self.entries@);
        }
        if p < self.entries.len() && same(self.entries[p].0.as_slice(), key) {
            assert(self@.contains_key(self.entries@[p as int].0@));
            return Some(&self.entries[p].1);
        }
        proof {
            if self@.contains_key(key@) {
                let i = choose|i: int|
                    0 <= i < self.entries@.len() && self.entries@[i].0@ == key@;
                lemma_lex_total(key@, key@);
                assert(i >= p);
                if i > p {
                    assert(lex_less(self.entries@[p as int].0@, self.entries@[i].0@));
                }
            }
        }
        None
    }

    /// Puts `block` under `key`, in place of any block that was there.
    pub fn insert(&mut self, key: Vec<u8>, block: Vec<u8>)
        ensures
            final(self)@ == old(self)@.insert(key@, block@),
    {
        let p: usize = self.place(key.as_slice());
        proof {
            use_type_invariant(&*self);
            lemma_entries_map(self.entries@);
        }
        let ghost e = self.entries@;
        let mut taken: Consensus = Consensus::new();
        core::mem::swap(self, &mut taken);
        let mut entries: Vec<(Vec<u8>, Vec<u8>)> = taken.entries;
        if p < entries.len() && same(entries[p].0.as_slice(), key.as_slice()) {
            proof {
                lemma_replace(e, p as int, key, block);
            }
            entries[p] = (key, block);
        } else {
            proof {
                if p < e.len() {
                    lemma_lex_total(e[p as int].0@, key@);
                }
                lemma_insert(e, p as int, key, block);
            }
            entries.insert(p, (key, block));
        }
        *self = Consensus { entries };
    }
}

/// Replacing the entry of a key replaces its block.
proof fn lemma_replace(e: Seq<(Vec<u8>, Vec<u8>)>, p: int, key: Vec<u8>, block: Vec<u8>)
    requires
        keys_ascend(e),
        0 <= p < e.len(),
        e[p].0@ == key@,
    ensures
        keys_ascend(e.update(p, (key, block))),
        entries_map(e.update(p, (key, block))) == entries_map(e).insert(key@, block@),
{
    let f = e.update(p, (key, block));
    assert forall|i: int, j: int| 0 <= i < j < f.len() implies lex_less(
        #[trigger] f[i].0@,
        #[trigger] f[j].0@,
    ) by {
        assert(f[i].0@ == e[i].0@ && f[j].0@ == e[j].0@);
    }
    lemma_entries_map(e);
    lemma_entries_map(f);
    assert forall|k: Seq<u8>| #[trigger]
        entries_map(f).contains_key(k) <==> entries_map(e).insert(key@, block@).contains_key(k) by {
        if entries_map(f).contains_key(k) {
            let i = choose|i: int| 0 <= i < f.len() && f[i].0@ == k;
            assert(entries_map(e).contains_key(e[i].0@));
        }
        if entries_map(e).contains_key(k) {
            let i = choose|i: int| 0 <= i < e.len() && e[i].0@ == k;
            assert(entries_map(f).contains_key(f[i].0@));
        }
        assert(entries_map(f).contains_key(f[p].0@));
    }
    assert forall|k: Seq<u8>| #[trigger] entries_map(f).contains_key(k) implies entries_map(f)[k]
        == entries_map(e).insert(key@, block@)[k] by {
        let i = choose|i: int| 0 <= i < f.len() && f[i].0@ == k;
        assert(entries_map(f).contains_key(f[i].0@));
        assert(entries_map(e).contains_key(e[i].0@));
        if i != p && k == key@ {
            if i < p {
                assert(lex_less(e[i].0@, e[p].0@));
            } else {
                assert(lex_less(e[p].0@, e[i].0@));
            }
            lemma_lex_total(k, k);
        }
    }
    assert(entries_map(f) =~= entries_map(e).insert(key@, block@));
}

/// Adding an entry at the place of its key adds its block.
proof fn lemma_insert(e: Seq<(Vec<u8>, Vec<u8>)>, p: int, key: Vec<u8>, block: Vec<u8>)
    requires
        keys_ascend(e),
        0 <= p <= e.len(),
        forall|i: int| 0 <= i < p ==> lex_less(#[trigger] e[i].0@, key@),
        p < e.len() ==> lex_less(key@, e[p].0@),
    ensures
        keys_ascend(e.insert(p, (key, block))),
        entries_map(e.insert(p, (key, block))) == entries_map(e).insert(key@, block@),
{
    let f = e.insert(p, (key, block));
    assert forall|i: int| 0 <= i < e.len() implies #[trigger] e[i] == f[if i < p {
        i
    } else {
        i + 1
    }] by {}
    assert forall|i: int| p <= i < e.len() implies lex_less(key@, #[trigger] e[i].0@) by {
        if i > p {
            assert(lex_less(e[p].0@, e[i].0@));
            lemma_lex_transitive(key@, e[p].0@, e[i].0@);
        }
    }
    assert forall|i: int, j: int| 0 <= i < j < f.len() implies lex_less(
        #[trigger] f[i].0@,
        #[trigger] f[j].0@,
    ) by {
        let a = if i < p { i } else { i - 1 };
        let b = if j < p { j } else { j - 1 };
        if i != p {
            assert(f[i] == e[a]);
        }
        if j != p {
            assert(f[j] == e[b]);
        }
    }
    lemma_entries_map(e);
    lemma_entries_map(f);
    assert forall|k: Seq<u8>| #[trigger]
        entries_map(f).contains_key(k) <==> entries_map(e).insert(key@, block@).contains_key(k) by {
        if entries_map(f).contains_key(k) {
            let i = choose|i: int| 0 <= i < f.len() && f[i].0@ == k;
            if i != p {
                let a = if i < p { i } else { i - 1 };
                assert(f[i] == e[a]);
                assert(entries_map(e).contains_key(e[a].0@));
            }
        }
        if entries_map(e).contains_key(k) {
            let i = choose|i: int| 0 <= i < e.len() && e[i].0@ == k;
            let a = if i < p { i } else { i + 1 };
            assert(f[a] == e[i]);
            assert(entries_map(f).contains_key(f[a].0@));
        }
        assert(entries_map(f).contains_key(f[p].0@));
    }
    assert forall|k: Seq<u8>| #[trigger] entries_map(f).contains_key(k) implies entries_map(f)[k]
        == entries_map(e).insert(key@, block@)[k] by {
        let i = choose|i: int| 0 <= i < f.len() && f[i].0@ == k;
        assert(entries_map(f).contains_key(f[i].0@));
        if i != p {
            let a = if i < p { i } else { i - 1 };
            assert(f[i] == e[a]);
            assert(entries_map(e).contains_key(e[a].0@));
            lemma_lex_total(k, key@);
        }
    }
    assert(entries_map(f) =~= entries_map(e).insert(key@, block@));
}

impl Clone for Consensus {
    fn clone(&self) -> (c: Consensus)
        ensures
            c@ == self@,
    {
        proof {
            use_type_invariant(self);
        }
        let mut c: Consensus = Consensus::new();
        let mut i: usize = 0;
        while i < self.entries.len()
            invariant
                i <= self.entries@.len(),
                c@ == entries_map(self.entries@.take(i as int)),
            decreases self.entries.len() - i,
        {
            let key: Vec<u8> = copy_of(self.entries[i].0.as_slice());
            let block: Vec<u8> = copy_of(self.entries[i].1.as_slice());
            c.insert(key, block);
            assert(self.entries@.take(i + 1).drop_last() =~= self.entries@.take(i as int));
            i = i + 1;
        }
        assert(self.entries@.take(i as int) =~= self.entries@);
        c
    }
}

} // verus!
