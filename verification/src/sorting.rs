//! Sorting indices by a pair of keys.

use vstd::prelude::*;
use vstd::seq_lib::{group_to_multiset_ensures, lemma_multiset_commutative};
use vstd::slice::slice_to_vec;

verus! {

/// Index `x` may stand before index `y`: its first key is smaller, or the first
/// keys are equal and its second key is not larger.
pub open spec fn key_le(a: Seq<usize>, b: Seq<usize>, x: usize, y: usize) -> bool {
    a[x as int] < a[y as int] || (a[x as int] == a[y as int] && b[x as int] <= b[y as int])
}

/// Every index may stand before the later ones.
pub open spec fn in_order(s: Seq<usize>, a: Seq<usize>, b: Seq<usize>) -> bool {
    forall|i: int, j: int|
        0 <= i <= j < s.len() ==> key_le(a, b, #[trigger] s[i], #[trigger] s[j])
}

/// Every index has both keys.
pub open spec fn have_keys(s: Seq<usize>, a: Seq<usize>, b: Seq<usize>) -> bool {
    forall|i: int| 0 <= i < s.len() ==> #[trigger] s[i] < a.len() && s[i] < b.len()
}

fn precedes(a: &Vec<usize>, b: &Vec<usize>, x: usize, y: usize) -> (r: bool)
    requires
        x < a@.len() && x < b@.len(),
        y < a@.len() && y < b@.len(),
    ensures
        r == key_le(a@, b@, x, y),
{
    a[x] < a[y] || (a[x] == a[y] && b[x] <= b[y])
}

/// Merges two sorted lists.
fn merge(l: &Vec<usize>, r: &Vec<usize>, a: &Vec<usize>, b: &Vec<usize>) -> (out: Vec<usize>)
    requires
        have_keys(l@, a@, b@),
        have_keys(r@, a@, b@),
        in_order(l@, a@, b@),
        in_order(r@, a@, b@),
    ensures
        in_order(out@, a@, b@),
        out@.to_multiset() == l@.to_multiset().add(r@.to_multiset()),
        have_keys(out@, a@, b@),
{
    let mut out: Vec<usize> = Vec::new();
    let mut i: usize = 0;
    let mut j: usize = 0;
    proof {
        broadcast use group_to_multiset_ensures;

        assert(l@.take(0) =~= Seq::empty());
        assert(r@.take(0) =~= Seq::empty());
        assert(out@.to_multiset() =~= l@.take(0).to_multiset().add(r@.take(0).to_multiset()));
    }
    while i < l.len() || j < r.len()
        invariant
            i <= l@.len(),
            j <= r@.len(),
            have_keys(l@, a@, b@),
            have_keys(r@, a@, b@),
            in_order(l@, a@, b@),
            in_order(r@, a@, b@),
            in_order(out@, a@, b@),
            have_keys(out@, a@, b@),
            out@.to_multiset() == l@.take(i as int).to_multiset().add(
                r@.take(j as int).to_multiset(),
            ),
            forall|k: int|
                0 <= k < out@.len() && i < l@.len() ==> key_le(
                    a@,
                    b@,
                    #[trigger] out@[k],
                    l@[i as int],
                ),
            forall|k: int|
                0 <= k < out@.len() && j < r@.len() ==> key_le(
                    a@,
                    b@,
                    #[trigger] out@[k],
                    r@[j as int],
                ),
        decreases l.len() - i + r.len() - j,
    {
        let left: bool = if i >= l.len() {
            false
        } else if j >= r.len() {
            true
        } else {
            precedes(a, b, l[i], r[j])
        };
        proof {
            broadcast use group_to_multiset_ensures;

            if left {
                assert(l@.take(i + 1) =~= l@.take(i as int).push(l@[i as int]));
                assert(out@.push(l@[i as int]).to_multiset() =~= l@.take(
                    i + 1,
                ).to_multiset().add(r@.take(j as int).to_multiset()));
            } else {
                assert(r@.take(j + 1) =~= r@.take(j as int).push(r@[j as int]));
                assert(out@.push(r@[j as int]).to_multiset() =~= l@.take(
                    i as int,
                ).to_multiset().add(r@.take(j + 1).to_multiset()));
            }
        }
        if left {
            out.push(l[i]);
            i = i + 1;
        } else {
            out.push(r[j]);
            j = j + 1;
        }
    }
    proof {
        assert(l@.take(i as int) =~= l@);
        assert(r@.take(j as int) =~= r@);
    }
    out
}

/// Returns the indices sorted by their keys.
pub fn sort_by_pair(s: &[usize], a: &Vec<usize>, b: &Vec<usize>) -> (out: Vec<usize>)
    requires
        have_keys(s@, a@, b@),
    ensures
        in_order(out@, a@, b@),
        out@.to_multiset() == s@.to_multiset(),
        have_keys(out@, a@, b@),
    decreases s@.len(),
{
    if s.len() <= 1 {
        return slice_to_vec(s);
    }
    let mid: usize = s.len() / 2;
    let left: Vec<usize> = sort_by_pair(&s[0..mid], a, b);
    let right: Vec<usize> = sort_by_pair(&s[mid..s.len()], a, b);
    proof {
        let x = s@.subrange(0, mid as int);
        let y = s@.subrange(mid as int, s@.len() as int);
        assert(s@ =~= x + y);
        lemma_multiset_commutative(x, y);
    }
    merge(&left, &right, a, b)
}

/// The indices below `n`, each once.
pub open spec fn is_permutation(s: Seq<usize>, n: nat) -> bool {
    &&& s.len() == n
    &&& s.no_duplicates()
    &&& forall|i: int| 0 <= i < n ==> #[trigger] s[i] < n
    &&& forall|x: usize| x < n ==> #[trigger] s.contains(x)
}

/// Sorting keeps a permutation one.
pub proof fn lemma_permutation(s: Seq<usize>, t: Seq<usize>, n: nat)
    requires
        is_permutation(s, n),
        s.to_multiset() == t.to_multiset(),
    ensures
        is_permutation(t, n),
{
    broadcast use group_to_multiset_ensures;
    broadcast use vstd::multiset::group_multiset_axioms;

    s.lemma_multiset_has_no_duplicates();
    t.lemma_multiset_has_no_duplicates_conv();
    assert(t.to_multiset().len() == n);
    assert forall|i: int| 0 <= i < n implies #[trigger] t[i] < n by {
        assert(t.contains(t[i]));
        assert(s.to_multiset().count(t[i]) > 0);
        assert(s.contains(t[i]));
    }
    assert forall|x: usize| x < n implies #[trigger] t.contains(x) by {
        assert(s.contains(x));
        assert(t.to_multiset().count(x) > 0);
    }
}

/// Returns the indices below `n` in ascending order.
pub fn indices_below(n: usize) -> (s: Vec<usize>)
    ensures
        is_permutation(s@, n as nat),
        forall|i: int| 0 <= i < n ==> s@[i] == i,
{
    let mut s: Vec<usize> = Vec::new();
    let mut i: usize = 0;
    while i < n
        invariant
            i <= n,
            s@.len() == i,
            forall|k: int| 0 <= k < i ==> s@[k] == k,
        decreases n - i,
    {
        s.push(i);
        i = i + 1;
    }
    proof {
        assert forall|x: usize| x < n implies #[trigger] s@.contains(x) by {
            assert(s@[x as int] == x);
        }
    }
    s
}

} // verus!
