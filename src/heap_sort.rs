//! Heapsort: build a max-heap over the whole slice, then move its root to the
//! end of the shrinking heap region, one element at a time.

use vstd::prelude::*;
use crate::sorting::{lemma_swap_permutation, permutation, sorted};

verus! {

/// Node `p` of the heap held by the first `size` elements is at least each of
/// its children.
pub open spec fn heap_at(s: Seq<i32>, size: int, p: int) -> bool {
    &&& 2 * p + 1 < size ==> s[p] >= s[2 * p + 1]
    &&& 2 * p + 2 < size ==> s[p] >= s[2 * p + 2]
}

/// The first `size` elements form a max-heap.
pub open spec fn is_max_heap(s: Seq<i32>, size: int) -> bool {
    forall|p: int| 0 <= p < size ==> #[trigger] heap_at(s, size, p)
}

/// The root of a max-heap is its largest element.
pub proof fn lemma_root_is_max(s: Seq<i32>, size: int, k: int)
    requires
        is_max_heap(s, size),
        0 <= k < size,
    ensures
        s[k] <= s[0],
    decreases k,
{
    if k > 0 {
        let p = (k - 1) / 2;
        lemma_root_is_max(s, size, p);
        assert(heap_at(s, size, p));
    }
}

fn exchange(arr: &mut [i32], i: usize, j: usize)
    requires
        i < old(arr)@.len(),
        j < old(arr)@.len(),
    ensures
        final(arr)@ == old(arr)@.update(i as int, old(arr)@[j as int]).update(
            j as int,
            old(arr)@[i as int],
        ),
        permutation(final(arr)@, old(arr)@),
{
    proof {
        lemma_swap_permutation(arr@, i as int, j as int);
    }
    let t = arr[i];
    arr[i] = arr[j];
    arr[j] = t;
}

/// Sifts the element at node `i` down the heap held by the first `heap_size`
/// elements, so that the subtree of every node from `i` on is a heap again.
fn max_heapify(arr: &mut [i32], heap_size: usize, i: usize)
    requires
        i < heap_size <= old(arr)@.len(),
        forall|p: int| i < p < heap_size ==> #[trigger] heap_at(old(arr)@, heap_size as int, p),
    ensures
        final(arr)@.len() == old(arr)@.len(),
        permutation(final(arr)@, old(arr)@),
        forall|p: int| i <= p < heap_size ==> #[trigger] heap_at(final(arr)@, heap_size as int, p),
        forall|k: int|
            0 <= k < old(arr)@.len() && k != i && (k < 2 * i + 1 || k >= heap_size) ==> final(arr)@[k]
                == old(arr)@[k],
        final(arr)@[i as int] == old(arr)@[i as int] || (2 * i + 1 < heap_size && final(arr)@[i as int]
            == old(arr)@[2 * i + 1]) || (2 * i + 2 < heap_size && final(arr)@[i as int] == old(
            arr,
        )@[2 * i + 2]),
    decreases heap_size - i,
{
    let ghost s0 = arr@;
    let mut largest = i;
    if i < heap_size / 2 {
        let left = 2 * i + 1;
        if arr[left] > arr[largest] {
            largest = left;
        }
        let right = left + 1;
        if right < heap_size && arr[right] > arr[largest] {
            largest = right;
        }
    }
    if largest != i {
        exchange(arr, i, largest);
        let ghost s1 = arr@;
        assert forall|p: int| largest < p < heap_size implies #[trigger] heap_at(s1, heap_size as int, p) by {
            assert(heap_at(s0, heap_size as int, p));
        }
        max_heapify(arr, heap_size, largest);
        proof {
            let s2 = arr@;
            assert(heap_at(s0, heap_size as int, largest as int));
            assert forall|p: int| i <= p < heap_size implies #[trigger] heap_at(s2, heap_size as int, p) by {
                if p == i {
                } else if p < largest {
                    assert(heap_at(s0, heap_size as int, p));
                }
            }
        }
    } else {
        assert forall|p: int| i <= p < heap_size implies #[trigger] heap_at(s0, heap_size as int, p) by {
        }
    }
}

/// Turns the whole slice into a max-heap.
fn build_max_heap(arr: &mut [i32])
    ensures
        final(arr)@.len() == old(arr)@.len(),
        permutation(final(arr)@, old(arr)@),
        is_max_heap(final(arr)@, final(arr)@.len() as int),
{
    let n = arr.len();
    let mut i = n / 2;
    while i > 0
        invariant
            n == arr@.len(),
            i <= n / 2,
            permutation(arr@, old(arr)@),
            forall|p: int| i <= p < n ==> #[trigger] heap_at(arr@, n as int, p),
        decreases i,
    {
        i -= 1;
        max_heapify(arr, n, i);
    }
}

/// Sorts the slice in place, in ascending order.
pub fn heapsort(arr: &mut [i32])
    ensures
        sorted(final(arr)@),
        permutation(final(arr)@, old(arr)@),
{
    let len = arr.len();
    if len <= 1 {
        return;
    }
    build_max_heap(arr);
    let mut i = len - 1;
    while i >= 1
        invariant
            len == arr@.len(),
            i < len,
            permutation(arr@, old(arr)@),
            is_max_heap(arr@, i + 1),
            i + 1 < len ==> arr@[0] <= arr@[i + 1],
            forall|a: int, b: int| i < a < b < len ==> arr@[a] <= arr@[b],
        decreases i,
    {
        let ghost s0 = arr@;
        proof {
            lemma_root_is_max(s0, i + 1, i as int);
            if i >= 1 {
                lemma_root_is_max(s0, i + 1, 1);
            }
            if i >= 2 {
                lemma_root_is_max(s0, i + 1, 2);
            }
        }
        exchange(arr, 0, i);
        let ghost s1 = arr@;
        assert forall|p: int| 0 < p < i implies #[trigger] heap_at(s1, i as int, p) by {
            assert(heap_at(s0, i + 1, p));
        }
        max_heapify(arr, i, 0);
        proof {
            let s2 = arr@;
            assert forall|a: int, b: int| i - 1 < a < b < len implies s2[a] <= s2[b] by {
                if a == i && b > i {
                    assert(s2[a] == s0[0]);
                }
            }
        }
        i -= 1;
    }
    proof {
        assert forall|a: int, b: int| 0 <= a < b < len implies arr@[a] <= arr@[b] by {
            if a == 0 {
                assert(arr@[0] <= arr@[1]);
            }
        }
    }
}

} // verus!
