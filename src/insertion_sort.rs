//! Insertion sort: each element in turn moves left past the larger elements
//! of the sorted prefix.

use vstd::prelude::*;
use crate::sorting::{lemma_swap_permutation, permutation, sorted};

verus! {

/// Sorts `arr` in place, in ascending order.
pub fn insertion_sort(arr: &mut Vec<i32>)
    ensures
        sorted(final(arr)@),
        permutation(final(arr)@, old(arr)@),
{
    let n = arr.len();
    let mut i: usize = 1;
    while i < n
        invariant
            n == arr.len(),
            1 <= i,
            i <= n || n == 0,
            forall|a: int, b: int| 0 <= a < b < i && b < n ==> arr@[a] <= arr@[b],
            permutation(arr@, old(arr)@),
        decreases n - i,
    {
        let key = arr[i];
        let mut h: usize = i;
        assert(arr@.update(h as int, key) =~= arr@);
        while h > 0 && arr[h - 1] > key
            invariant
                n == arr.len(),
                h <= i < n,
                permutation(arr@.update(h as int, key), old(arr)@),
                forall|a: int, b: int| 0 <= a < b <= i && a != h && b != h ==> arr@[a] <= arr@[b],
                forall|b: int| h < b <= i ==> arr@[b] > key,
            decreases h,
        {
            proof {
                let filled = arr@.update(h as int, key);
                lemma_swap_permutation(filled, h - 1, h as int);
                assert(filled.update(h - 1, filled[h as int]).update(h as int, filled[h - 1])
                    =~= arr@.update(h as int, arr@[h - 1]).update(h - 1, key));
            }
            arr[h] = arr[h - 1];
            h -= 1;
        }
        arr[h] = key;
        i += 1;
    }
}

} // verus!
