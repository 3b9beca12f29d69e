//! Counting sort for integers in a known range `0..=k`: count each value, turn
//! the counts into end positions, and place the elements from the back so that
//! equal elements keep their order.

use vstd::prelude::*;
use vstd::multiset::Multiset;
use crate::sorting::{permutation, sorted};

verus! {

/// How many elements of `m` are at most `v` (counting only values from `0`).
pub open spec fn count_le(m: Multiset<i32>, v: int) -> nat
    decreases v + 1,
{
    if v < 0 {
        0
    } else {
        count_le(m, v - 1) + m.count(v as i32)
    }
}

/// The values `0..=v` in ascending order, each as many times as `m` holds it.
pub open spec fn runs(m: Multiset<i32>, v: int) -> Seq<i32>
    decreases v + 1,
{
    if v < 0 {
        Seq::empty()
    } else {
        runs(m, v - 1) + Seq::new(m.count(v as i32), |t: int| v as i32)
    }
}

proof fn lemma_count_le_monotone(m: Multiset<i32>, u: int, v: int)
    requires
        u <= v,
    ensures
        count_le(m, u) <= count_le(m, v),
    decreases v - u,
{
    if u < v {
        lemma_count_le_monotone(m, u, v - 1);
    }
}

/// Element `t` of `runs(m, v)` is the value whose block holds position `t`.
proof fn lemma_runs_shape(m: Multiset<i32>, v: int)
    requires
        v <= i32::MAX,
    ensures
        runs(m, v).len() == count_le(m, v),
        forall|t: int|
            0 <= t < runs(m, v).len() ==> 0 <= #[trigger] runs(m, v)[t] <= v && count_le(
                m,
                runs(m, v)[t] - 1,
            ) <= t < count_le(m, runs(m, v)[t] as int),
    decreases v + 1,
{
    if v >= 0 {
        lemma_runs_shape(m, v - 1);
        let r = runs(m, v);
        let prev = runs(m, v - 1);
        assert forall|t: int| 0 <= t < r.len() implies 0 <= #[trigger] r[t] <= v && count_le(m, r[t] - 1)
            <= t < count_le(m, r[t] as int) by {
            if t < prev.len() {
                assert(r[t] == prev[t]);
            } else {
                assert(r[t] == v as i32);
            }
        }
    }
}

proof fn lemma_repeat_count(n: nat, v: i32, x: i32)
    ensures
        Seq::new(n, |t: int| v).to_multiset().count(x) == (if x == v {
            n
        } else {
            0
        }),
    decreases n,
{
    broadcast use vstd::seq_lib::group_to_multiset_ensures, vstd::multiset::group_multiset_axioms;

    if n > 0 {
        lemma_repeat_count((n - 1) as nat, v, x);
        assert(Seq::new(n, |t: int| v) =~= Seq::new((n - 1) as nat, |t: int| v).push(v));
        Seq::new((n - 1) as nat, |t: int| v).to_multiset_ensures();
    } else {
        assert(Seq::new(n, |t: int| v) =~= Seq::<i32>::empty());
    }
}

proof fn lemma_runs_count(m: Multiset<i32>, v: int, x: i32)
    requires
        v <= i32::MAX,
    ensures
        runs(m, v).to_multiset().count(x) == (if 0 <= x <= v {
            m.count(x)
        } else {
            0
        }),
    decreases v + 1,
{
    broadcast use vstd::seq_lib::lemma_multiset_commutative, vstd::multiset::group_multiset_axioms,
        vstd::multiset::group_multiset_properties, vstd::seq_lib::group_to_multiset_ensures;

    if v >= 0 {
        lemma_runs_count(m, v - 1, x);
        lemma_repeat_count(m.count(v as i32), v as i32, x);
    } else {
        runs(m, v).to_multiset_ensures();
        assert(runs(m, v).to_multiset().len() == 0);
    }
}

/// Sorts `a`, whose elements all lie in `0..=k`, into a new vector.
pub fn counting_sort(a: &[i32], k: i32) -> (b: Vec<i32>)
    requires
        k >= 0,
        forall|i: int| 0 <= i < a@.len() ==> 0 <= #[trigger] a@[i] <= k,
    ensures
        sorted(b@),
        permutation(b@, a@),
{
    broadcast use vstd::seq_lib::group_to_multiset_ensures, vstd::multiset::group_multiset_axioms;

    let ghost m = a@.to_multiset();
    let len = a.len();
    let mut b: Vec<i32> = vec![0i32; len];
    let mut c: Vec<usize> = vec![0usize; (k as usize) + 1];
    let mut i: usize = 0;
    while i < len
        invariant
            i <= len,
            len == a@.len(),
            c@.len() == k + 1,
            k >= 0,
            forall|j: int| 0 <= j < a@.len() ==> 0 <= #[trigger] a@[j] <= k,
            forall|v: int| 0 <= v <= k ==> #[trigger] c@[v] == a@.subrange(0, i as int).to_multiset().count(v as i32),
            forall|v: int| 0 <= v <= k ==> #[trigger] c@[v] <= i,
        decreases len - i,
    {
        let value = a[i];
        let idx = value as usize;
        proof {
            assert(a@.subrange(0, i + 1) =~= a@.subrange(0, i as int).push(value));
            a@.subrange(0, i as int).to_multiset_ensures();
        }
        c[idx] = c[idx] + 1;
        i += 1;
    }
    proof {
        assert(a@.subrange(0, len as int) =~= a@);
        lemma_runs_shape(m, k as int);
        assert forall|x: i32| runs(m, k as int).to_multiset().count(x) == m.count(x) by {
            lemma_runs_count(m, k as int, x);
            if !(0 <= x <= k) && m.count(x) > 0 {
                assert(a@.contains(x));
            }
        }
        assert(runs(m, k as int).to_multiset() =~= m);
        runs(m, k as int).to_multiset_ensures();
        a@.to_multiset_ensures();
        assert(count_le(m, -1) == 0);
        assert(count_le(m, 0) == m.count(0));
    }
    let ghost total = runs(m, k as int);
    let mut v: usize = 1;
    while v <= k as usize
        invariant
            1 <= v <= k + 1,
            c@.len() == k + 1,
            total.len() == len,
            total.len() == count_le(m, k as int),
            forall|u: int| 0 <= u < v ==> #[trigger] c@[u] == count_le(m, u),
            forall|u: int| v <= u <= k ==> #[trigger] c@[u] == m.count(u as i32),
        decreases k + 1 - v,
    {
        proof {
            lemma_count_le_monotone(m, v as int, k as int);
        }
        c[v] = c[v] + c[v - 1];
        v += 1;
    }
    let mut idx: usize = len;
    while idx > 0
        invariant
            idx <= len,
            len == a@.len(),
            b@.len() == len,
            c@.len() == k + 1,
            k >= 0,
            m == a@.to_multiset(),
            total == runs(m, k as int),
            total.len() == len,
            total.len() == count_le(m, k as int),
            forall|j: int| 0 <= j < a@.len() ==> 0 <= #[trigger] a@[j] <= k,
            forall|t: int|
                0 <= t < total.len() ==> 0 <= #[trigger] total[t] <= k && count_le(m, total[t] - 1) <= t
                    < count_le(m, total[t] as int),
            forall|u: int|
                0 <= u <= k ==> #[trigger] c@[u] == count_le(m, u - 1) + a@.subrange(
                    0,
                    idx as int,
                ).to_multiset().count(u as i32),
            forall|t: int| 0 <= t < len && t >= c@[total[t] as int] ==> b@[t] == total[t],
        decreases idx,
    {
        let value = a[idx - 1];
        let ghost x = value as int;
        proof {
            let pre = a@.subrange(0, idx - 1);
            assert(a@.subrange(0, idx as int) =~= pre.push(value));
            pre.to_multiset_ensures();
            assert(count_le(m, x) == count_le(m, x - 1) + m.count(value));
            assert(a@ =~= a@.subrange(0, idx as int) + a@.subrange(idx as int, len as int));
            vstd::seq_lib::lemma_multiset_commutative(a@.subrange(0, idx as int), a@.subrange(idx as int, len as int));
            lemma_count_le_monotone(m, x, k as int);
        }
        let pos = value as usize;
        let output_index = c[pos] - 1;
        proof {
            let t0 = output_index as int;
            let u = total[t0];
            if u < x {
                lemma_count_le_monotone(m, u as int, x - 1);
            } else if u > x {
                lemma_count_le_monotone(m, x, u - 1);
            }
        }
        b[output_index] = value;
        c[pos] = c[pos] - 1;
        idx -= 1;
    }
    proof {
        assert forall|t: int| 0 <= t < len implies b@[t] == total[t] by {
            assert(c@[total[t] as int] == count_le(m, total[t] - 1) + a@.subrange(0, 0).to_multiset().count(total[t]));
        }
        assert(b@ =~= total);
        assert forall|t1: int, t2: int| 0 <= t1 < t2 < b@.len() implies b@[t1] <= b@[t2] by {
            if b@[t1] > b@[t2] {
                lemma_count_le_monotone(m, b@[t2] as int, b@[t1] - 1);
            }
        }
    }
    b
}

} // verus!
