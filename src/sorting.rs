//! What it means for a sequence of integers to be sorted, and facts about
//! permutations that the sorts share.

use vstd::prelude::*;
use vstd::seq_lib::to_multiset_update;

verus! {

/// Every element is at most each element after it.
pub open spec fn sorted(s: Seq<i32>) -> bool {
    forall|i: int, j: int| 0 <= i < j < s.len() ==> s[i] <= s[j]
}

/// `a` and `b` hold the same elements, each as many times.
pub open spec fn permutation(a: Seq<i32>, b: Seq<i32>) -> bool {
    a.to_multiset() == b.to_multiset()
}

/// The elements from `lo` up to, not including, `hi` are in ascending order.
pub open spec fn sorted_range(s: Seq<i32>, lo: int, hi: int) -> bool {
    forall|i: int, j: int| lo <= i < j < hi ==> s[i] <= s[j]
}

/// `a` and `b` have the same length and agree outside `lo..hi`, and hold the
/// same elements inside it.
pub open spec fn permuted_within(a: Seq<i32>, b: Seq<i32>, lo: int, hi: int) -> bool {
    &&& a.len() == b.len()
    &&& forall|k: int| 0 <= k < a.len() && !(lo <= k < hi) ==> a[k] == b[k]
    &&& permutation(a.subrange(lo, hi), b.subrange(lo, hi))
}

/// Permuting a range of a sequence permutes the whole sequence.
pub proof fn lemma_permuted_within(a: Seq<i32>, b: Seq<i32>, lo: int, hi: int)
    requires
        0 <= lo <= hi <= a.len(),
        permuted_within(a, b, lo, hi),
    ensures
        permutation(a, b),
{
    broadcast use vstd::seq_lib::lemma_multiset_commutative;

    assert(a =~= a.subrange(0, lo) + a.subrange(lo, hi) + a.subrange(hi, a.len() as int));
    assert(b =~= b.subrange(0, lo) + b.subrange(lo, hi) + b.subrange(hi, b.len() as int));
    assert(a.subrange(0, lo) =~= b.subrange(0, lo));
    assert(a.subrange(hi, a.len() as int) =~= b.subrange(hi, b.len() as int));
}

/// Exchanging two elements keeps the multiset of a sequence.
pub proof fn lemma_swap_permutation(s: Seq<i32>, i: int, j: int)
    requires
        0 <= i < s.len(),
        0 <= j < s.len(),
    ensures
        permutation(s.update(i, s[j]).update(j, s[i]), s),
{
    broadcast use vstd::multiset::group_multiset_properties, vstd::multiset::group_multiset_axioms,
        vstd::seq_lib::to_multiset_contains;

    let t = s.update(i, s[j]);
    to_multiset_update(s, i, s[j]);
    to_multiset_update(t, j, s[i]);
    if i == j {
        assert(t.update(j, s[i]) =~= s);
    } else {
        assert(t[j] == s[j]);
        assert(s.contains(s[i]));
        assert(t.contains(s[j]));
        assert(s.to_multiset().count(s[i]) > 0);
        assert(t.to_multiset().count(s[j]) > 0);
        assert(t.update(j, s[i]).to_multiset() =~= s.to_multiset());
    }
}

} // verus!
