//! Top-down merge sort over an inclusive index range of a vector.

use vstd::prelude::*;
use crate::sorting::{lemma_permuted_within, permutation, permuted_within, sorted, sorted_range};

verus! {

/// Merges the sorted runs `a[p..=q]` and `a[q+1..=r]` into one sorted run
/// `a[p..=r]`; on equal elements the one of the first run comes first.
fn merge(a: &mut Vec<i32>, p: usize, q: usize, r: usize)
    requires
        p <= q < r < old(a)@.len(),
        sorted_range(old(a)@, p as int, q + 1),
        sorted_range(old(a)@, q + 1, r + 1),
    ensures
        permuted_within(final(a)@, old(a)@, p as int, r + 1),
        sorted_range(final(a)@, p as int, r + 1),
{
    broadcast use vstd::seq_lib::lemma_multiset_commutative, vstd::seq_lib::group_to_multiset_ensures,
        vstd::multiset::group_multiset_axioms;

    let ghost s0 = a@;
    let alen = a.len();
    let n1 = q - p + 1;
    let n2 = r - q;
    let mut left: Vec<i32> = Vec::new();
    let mut x = p;
    while x <= q
        invariant
            p <= x <= q + 1,
            q < r < a@.len(),
            a@ == s0,
            left@ =~= s0.subrange(p as int, x as int),
        decreases q + 1 - x,
    {
        left.push(a[x]);
        x += 1;
    }
    let mut right: Vec<i32> = Vec::new();
    let mut x = q + 1;
    while x <= r
        invariant
            q + 1 <= x <= r + 1,
            r < a@.len(),
            alen == a@.len(),
            a@ == s0,
            right@ =~= s0.subrange(q + 1, x as int),
        decreases r + 1 - x,
    {
        right.push(a[x]);
        x += 1;
    }
    let mut i: usize = 0;
    let mut j: usize = 0;
    let mut k = p;
    while k <= r
        invariant
            p <= k <= r + 1,
            k == p + i + j,
            i <= n1,
            j <= n2,
            n1 == q - p + 1,
            n2 == r - q,
            r < a@.len(),
            alen == a@.len(),
            a@.len() == s0.len(),
            left@ == s0.subrange(p as int, q + 1),
            right@ == s0.subrange(q + 1, r + 1),
            sorted_range(s0, p as int, q + 1),
            sorted_range(s0, q + 1, r + 1),
            forall|t: int| 0 <= t < a@.len() && !(p <= t < k) ==> a@[t] == s0[t],
            sorted_range(a@, p as int, k as int),
            forall|t: int| p <= t < k && i < n1 ==> a@[t] <= left@[i as int],
            forall|t: int| p <= t < k && j < n2 ==> a@[t] <= right@[j as int],
            a@.subrange(p as int, k as int).to_multiset() == left@.subrange(0, i as int).to_multiset().add(
                right@.subrange(0, j as int).to_multiset(),
            ),
        decreases r + 1 - k,
    {
        let ghost before = a@;
        if j >= n2 || (i < n1 && left[i] <= right[j]) {
            a[k] = left[i];
            proof {
                assert(a@.subrange(p as int, k + 1) =~= before.subrange(p as int, k as int).push(left@[i as int]));
                assert(left@.subrange(0, i + 1) =~= left@.subrange(0, i as int).push(left@[i as int]));
                before.subrange(p as int, k as int).to_multiset_ensures();
                left@.subrange(0, i as int).to_multiset_ensures();
                assert(before.subrange(p as int, k as int).push(left@[i as int]).to_multiset()
                    =~= before.subrange(p as int, k as int).to_multiset().insert(left@[i as int]));
                assert(left@.subrange(0, i as int).push(left@[i as int]).to_multiset()
                    =~= left@.subrange(0, i as int).to_multiset().insert(left@[i as int]));
                assert(left@.subrange(0, i as int).to_multiset().insert(left@[i as int]).add(
                    right@.subrange(0, j as int).to_multiset(),
                ) =~= left@.subrange(0, i as int).to_multiset().add(
                    right@.subrange(0, j as int).to_multiset(),
                ).insert(left@[i as int]));
            }
            i += 1;
        } else {
            a[k] = right[j];
            proof {
                assert(a@.subrange(p as int, k + 1) =~= before.subrange(p as int, k as int).push(right@[j as int]));
                assert(right@.subrange(0, j + 1) =~= right@.subrange(0, j as int).push(right@[j as int]));
                before.subrange(p as int, k as int).to_multiset_ensures();
                right@.subrange(0, j as int).to_multiset_ensures();
                assert(before.subrange(p as int, k as int).push(right@[j as int]).to_multiset()
                    =~= before.subrange(p as int, k as int).to_multiset().insert(right@[j as int]));
                assert(right@.subrange(0, j as int).push(right@[j as int]).to_multiset()
                    =~= right@.subrange(0, j as int).to_multiset().insert(right@[j as int]));
                assert(left@.subrange(0, i as int).to_multiset().add(
                    right@.subrange(0, j as int).to_multiset().insert(right@[j as int]),
                ) =~= left@.subrange(0, i as int).to_multiset().add(
                    right@.subrange(0, j as int).to_multiset(),
                ).insert(right@[j as int]));
            }
            j += 1;
        }
        k += 1;
    }
    proof {
        assert(left@.subrange(0, i as int) =~= left@);
        assert(right@.subrange(0, j as int) =~= right@);
        assert(s0.subrange(p as int, r + 1) =~= left@ + right@);
    }
}

/// Sorts `a[p..=r]` in place, in ascending order, and leaves the rest of `a`
/// as it is.
pub fn merge_sort(a: &mut Vec<i32>, p: usize, r: usize)
    requires
        p <= r < old(a)@.len(),
    ensures
        permuted_within(final(a)@, old(a)@, p as int, r + 1),
        sorted_range(final(a)@, p as int, r + 1),
        permutation(final(a)@, old(a)@),
    decreases r - p,
{
    broadcast use vstd::seq_lib::lemma_multiset_commutative;

    let ghost s0 = a@;
    if p < r {
        let q = p + (r - p) / 2;
        merge_sort(a, p, q);
        let ghost s1 = a@;
        merge_sort(a, q + 1, r);
        let ghost s2 = a@;
        proof {
            assert(s2.subrange(p as int, q + 1) =~= s1.subrange(p as int, q + 1));
            assert(s1.subrange(q + 1, r + 1) =~= s0.subrange(q + 1, r + 1));
            assert(s2.subrange(p as int, r + 1) =~= s2.subrange(p as int, q + 1) + s2.subrange(q + 1, r + 1));
            assert(s0.subrange(p as int, r + 1) =~= s0.subrange(p as int, q + 1) + s0.subrange(q + 1, r + 1));
            assert(s1.subrange(p as int, r + 1) =~= s1.subrange(p as int, q + 1) + s1.subrange(q + 1, r + 1));
        }
        merge(a, p, q, r);
    }
    proof {
        lemma_permuted_within(a@, s0, p as int, r + 1);
    }
}

} // verus!
