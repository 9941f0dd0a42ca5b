//! The ids of a table in ascending order.

use std::collections::HashMap;
use vstd::prelude::*;

verus! {

broadcast use vstd::std_specs::hash::group_hash_axioms;

/// The ids of a set in strictly ascending order.
pub open spec fn is_listing(ids: Seq<u32>, set: Set<u32>) -> bool {
    &&& forall|i: int, j: int| 0 <= i < j < ids.len() ==> ids[i] < ids[j]
    &&& forall|id: u32| #[trigger] ids.contains(id) <==> set.contains(id)
}

/// A set has only one listing.
pub proof fn lemma_listing_unique(a: Seq<u32>, b: Seq<u32>, set: Set<u32>)
    requires
        is_listing(a, set),
        is_listing(b, set),
    ensures
        a == b,
    decreases a.len() + b.len(),
{
    if a.len() == 0 {
        if b.len() > 0 {
            assert(b.contains(b[0]));
            assert(a.contains(b[0]));
        }
        assert(a =~= b);
    } else if b.len() == 0 {
        assert(a.contains(a[0]));
        assert(b.contains(a[0]));
    } else {
        let x = a.last();
        let y = b.last();
        assert(a.contains(x));
        assert(b.contains(y));
        assert(b.contains(x) && a.contains(y));
        let i = choose|i: int| 0 <= i < b.len() && b[i] == x;
        let j = choose|j: int| 0 <= j < a.len() && a[j] == y;
        if i < b.len() - 1 && j < a.len() - 1 {
            assert(b[i] < b[b.len() - 1]);
            assert(a[j] < a[a.len() - 1]);
        }
        assert(x == y);
        lemma_listing_shorter(a, set);
        lemma_listing_shorter(b, set);
        lemma_listing_unique(a.drop_last(), b.drop_last(), set.remove(x));
        assert(a =~= a.drop_last().push(x));
        assert(b =~= b.drop_last().push(x));
    }
}

/// Without its last id, a listing lists the set without that id.
pub proof fn lemma_listing_shorter(a: Seq<u32>, set: Set<u32>)
    requires
        is_listing(a, set),
        a.len() > 0,
    ensures
        is_listing(a.drop_last(), set.remove(a.last())),
{
    let d = a.drop_last();
    assert forall|id: u32| #[trigger] d.contains(id) <==> set.remove(a.last()).contains(id) by {
        if d.contains(id) {
            let i = choose|i: int| 0 <= i < d.len() && d[i] == id;
            assert(a[i] == id);
            assert(a.contains(id));
        }
        if set.remove(a.last()).contains(id) {
            assert(a.contains(id));
            let i = choose|i: int| 0 <= i < a.len() && a[i] == id;
            assert(d[i] == id);
        }
    }
}

/// The ids of a set in ascending order.
pub open spec fn listing(set: Set<u32>) -> Seq<u32> {
    choose|ids: Seq<u32>| is_listing(ids, set)
}

/// Returns the ids of a table in ascending order.
pub fn sorted_ids<V>(table: &HashMap<u32, V>) -> (ids: Vec<u32>)
    ensures
        is_listing(ids@, table@.dom()),
        ids@ == listing(table@.dom()),
{
    let mut ids: Vec<u32> = Vec::new();
    for id in it: table.keys()
        invariant
            forall|i: int, j: int| 0 <= i < j < ids@.len() ==> ids@[i] < ids@[j],
            forall|x: u32| #[trigger] ids@.contains(x) <==> it.seq().unref().take(it.index()).contains(x),
            it.seq().unref().to_set() == table@.dom(),
            it.index() == it.seq().len() ==> (forall|x: u32| #[trigger]
                ids@.contains(x) <==> table@.dom().contains(x)),
    {
        let ghost seen = it.seq().unref();
        let ghost k = it.index();
        proof {
            assert(seen[k] == *id);
            assert(seen.take(k + 1) =~= seen.take(k).push(*id));
        }
        let ghost before = ids@;
        put_in_order(&mut ids, *id);
        assert forall|x: u32| #[trigger] ids@.contains(x) <==> seen.take(k + 1).contains(x) by {
            assert(ids@.contains(x) <==> before.contains(x) || x == *id);
            if seen.take(k).contains(x) {
                let i = choose|i: int| 0 <= i < k && seen.take(k)[i] == x;
                assert(seen.take(k + 1)[i] == x);
            }
            if x == *id {
                assert(seen.take(k + 1)[k] == x);
            }
        }
        assert(k + 1 == seen.len() ==> seen.take(k + 1) =~= seen);
        assert forall|x: u32| k + 1 == seen.len() implies (#[trigger] ids@.contains(x)
            <==> table@.dom().contains(x)) by {
            assert(seen.contains(x) <==> seen.to_set().contains(x));
        }
    }
    proof {
        let same = listing(table@.dom());
        lemma_listing_unique(ids@, same, table@.dom());
    }
    ids
}

/// Adds `id` to an ascending list.
fn put_in_order(ids: &mut Vec<u32>, id: u32)
    requires
        forall|i: int, j: int| 0 <= i < j < old(ids)@.len() ==> old(ids)@[i] < old(ids)@[j],
    ensures
        forall|i: int, j: int| 0 <= i < j < final(ids)@.len() ==> final(ids)@[i] < final(ids)@[j],
        forall|x: u32| #[trigger]
            final(ids)@.contains(x) <==> old(ids)@.contains(x) || x == id,
{
    let ghost before = ids@;
    let mut lo: usize = 0;
    let mut hi: usize = ids.len();
    while lo < hi
        invariant
            ids@ == before,
            lo <= hi <= ids@.len(),
            forall|i: int, j: int| 0 <= i < j < ids@.len() ==> ids@[i] < ids@[j],
            forall|i: int| 0 <= i < lo ==> ids@[i] < id,
            forall|i: int| hi <= i < ids@.len() ==> ids@[i] >= id,
        decreases hi - lo,
    {
        let mid: usize = lo + (hi - lo) / 2;
        if ids[mid] < id {
            lo = mid + 1;
        } else {
            hi = mid;
        }
    }
    if lo < ids.len() && ids[lo] == id {
        assert(ids@[lo as int] == id);
        return;
    }
    ids.insert(lo, id);
    assert forall|x: u32| #[trigger] ids@.contains(x) <==> before.contains(x) || x == id by {
        if before.contains(x) {
            let i = choose|i: int| 0 <= i < before.len() && before[i] == x;
            assert(ids@[if i < lo { i } else { i + 1 }] == x);
        }
        if x == id {
            assert(ids@[lo as int] == x);
        }
        if ids@.contains(x) && x != id {
            let i = choose|i: int| 0 <= i < ids@.len() && ids@[i] == x;
            assert(before[if i < lo { i } else { i - 1 }] == x);
        }
    }
}

} // verus!
