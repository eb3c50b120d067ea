//! Selection of the k-th smallest element of a range by recursive Lomuto
//! partitioning.

use vstd::prelude::*;
use crate::partition::lomuto_partition;
use crate::partition::permutes_within;
use crate::partition::lemma_permutes_within_trans;
use crate::partition::lemma_permutes_within_widen;

verus! {

/// The order `x <= y` on `i64` values.
pub open spec fn i64_le() -> spec_fn(i64, i64) -> bool {
    |x: i64, y: i64| x <= y
}

/// The value at position `j` of `s` rearranged into ascending order.
pub open spec fn kth_smallest(s: Seq<i64>, j: int) -> i64 {
    s.sort_by(i64_le())[j]
}

proof fn lemma_i64_le_total()
    ensures
        vstd::relations::total_ordering(i64_le()),
{
    assert(vstd::relations::reflexive(i64_le()));
    assert(vstd::relations::antisymmetric(i64_le()));
    assert(vstd::relations::transitive(i64_le()));
    assert(vstd::relations::strongly_connected(i64_le()));
}

/// A value with no strictly smaller element on its right and no strictly
/// larger one on its left keeps its position when the sequence is sorted:
/// it is the order statistic of its own index.
pub proof fn lemma_pivoted_is_kth(s: Seq<i64>, m: int)
    requires
        0 <= m < s.len(),
        forall|q: int| 0 <= q < m ==> s[q] <= s[m],
        forall|q: int| m < q < s.len() ==> s[q] >= s[m],
    ensures
        kth_smallest(s, m) == s[m],
{
    broadcast use vstd::seq_lib::group_to_multiset_ensures;
    broadcast use vstd::multiset::group_multiset_axioms;

    let le = i64_le();
    lemma_i64_le_total();
    let lt = s.subrange(0, m);
    let rt = s.subrange(m + 1, s.len() as int);
    lt.lemma_sort_by_ensures(le);
    rt.lemma_sort_by_ensures(le);
    let lts = lt.sort_by(le);
    let rts = rt.sort_by(le);
    lts.to_multiset_ensures();
    lt.to_multiset_ensures();
    rts.to_multiset_ensures();
    rt.to_multiset_ensures();
    assert(lts.len() == lt.len());
    assert(rts.len() == rt.len());
    let u = lts + seq![s[m]] + rts;
    assert forall|a: int| 0 <= a < lts.len() implies lts[a] <= s[m] by {
        assert(lt.to_multiset().contains(lts[a]));
        assert(lt.contains(lts[a]));
        let w = choose|w: int| 0 <= w < lt.len() && lt[w] == lts[a];
        assert(s[w] <= s[m]);
    }
    assert forall|a: int| 0 <= a < rts.len() implies rts[a] >= s[m] by {
        assert(rt.to_multiset().contains(rts[a]));
        assert(rt.contains(rts[a]));
        let w = choose|w: int| 0 <= w < rt.len() && rt[w] == rts[a];
        assert(s[m + 1 + w] >= s[m]);
    }
    assert(vstd::relations::sorted_by(u, le)) by {
        assert forall|a: int, b: int| 0 <= a < b < u.len() implies le(u[a], u[b]) by {
            if b < lts.len() {
                assert(le(lts[a], lts[b]));
            } else if a > lts.len() {
                assert(le(rts[a - lts.len() - 1], rts[b - lts.len() - 1]));
            } else {
                assert(u[a] <= s[m] <= u[b]);
            }
        }
    }
    assert(s =~= lt + seq![s[m]] + rt);
    vstd::seq_lib::lemma_multiset_commutative(lt + seq![s[m]], rt);
    vstd::seq_lib::lemma_multiset_commutative(lt, seq![s[m]]);
    vstd::seq_lib::lemma_multiset_commutative(lts + seq![s[m]], rts);
    vstd::seq_lib::lemma_multiset_commutative(lts, seq![s[m]]);
    assert(u.to_multiset() =~= s.to_multiset());
    s.lemma_sort_by_ensures(le);
    vstd::seq_lib::lemma_sorted_unique(u, s.sort_by(le), le);
    assert(s.sort_by(le)[m] == u[m]);
    assert(u[m] == s[m]);
}

/// Sequences holding the same multiset of values sort to the same sequence,
/// so they share every order statistic.
pub proof fn lemma_same_multiset_same_kth(s1: Seq<i64>, s2: Seq<i64>, j: int)
    requires
        s1.to_multiset() == s2.to_multiset(),
    ensures
        kth_smallest(s1, j) == kth_smallest(s2, j),
{
    let le = i64_le();
    lemma_i64_le_total();
    s1.lemma_sort_by_ensures(le);
    s2.lemma_sort_by_ensures(le);
    vstd::seq_lib::lemma_sorted_unique(s1.sort_by(le), s2.sort_by(le), le);
}

/// Returns the value that would stand at sorted position `k` of
/// `nums[lo..=hi]`, rearranging only that range. Afterwards the value sits at
/// position `k` itself, with no larger value below it and no smaller value
/// above it inside the range.
pub fn quickselect(nums: &mut Vec<i64>, lo: usize, hi: usize, k: usize) -> (v: i64)
    requires
        lo <= k <= hi < old(nums).len(),
    ensures
        permutes_within(final(nums)@, old(nums)@, lo as int, hi as int),
        final(nums)@[k as int] == v,
        forall|q: int| lo <= q < k ==> final(nums)@[q] <= v,
        forall|q: int| k < q <= hi ==> final(nums)@[q] >= v,
        v == kth_smallest(old(nums)@.subrange(lo as int, hi as int + 1), k - lo),
    decreases hi - lo,
{
    if lo == hi {
        let v = nums[lo];
        proof {
            let s = nums@.subrange(lo as int, hi as int + 1);
            lemma_pivoted_is_kth(s, 0);
            nums@.subrange(lo as int, hi as int + 1).to_multiset_ensures();
        }
        v
    } else {
        let pivot_index = lo + (hi - lo) / 2;
        let pivot = nums[pivot_index];
        let ghost s0 = nums@;
        let p = lomuto_partition(nums, lo, hi, pivot_index);
        let ghost s1 = nums@;
        if k == p {
            proof {
                lemma_final_state_kth(s1, s0, lo as int, hi as int, k as int);
            }
            pivot
        } else if k < p {
            let v = quickselect(nums, lo, p - 1, k);
            proof {
                lemma_permutes_within_widen(
                    nums@,
                    s1,
                    lo as int,
                    p - 1,
                    lo as int,
                    hi as int,
                );
                lemma_permutes_within_trans(nums@, s1, s0, lo as int, hi as int);
                lemma_value_stays_below(nums@, s1, lo as int, p - 1, k as int, pivot);
                lemma_final_state_kth(nums@, s0, lo as int, hi as int, k as int);
            }
            v
        } else {
            let v = quickselect(nums, p + 1, hi, k);
            proof {
                lemma_permutes_within_widen(
                    nums@,
                    s1,
                    p + 1,
                    hi as int,
                    lo as int,
                    hi as int,
                );
                lemma_permutes_within_trans(nums@, s1, s0, lo as int, hi as int);
                lemma_value_stays_above(nums@, s1, p + 1, hi as int, k as int, pivot);
                lemma_final_state_kth(nums@, s0, lo as int, hi as int, k as int);
            }
            v
        }
    }
}

/// A value drawn from a rearrangement of a range of values all `< bound`
/// is itself `< bound`.
proof fn lemma_value_stays_below(post: Seq<i64>, pre: Seq<i64>, lo: int, hi: int, k: int, bound: i64)
    requires
        permutes_within(post, pre, lo, hi),
        0 <= lo <= k <= hi < pre.len(),
        forall|q: int| lo <= q <= hi ==> pre[q] < bound,
    ensures
        post[k] < bound,
{
    broadcast use vstd::seq_lib::group_to_multiset_ensures;

    let a = post.subrange(lo, hi + 1);
    let b = pre.subrange(lo, hi + 1);
    assert(a.to_multiset().contains(a[k - lo]));
    assert(b.to_multiset().contains(a[k - lo]));
    assert(b.contains(a[k - lo]));
    let w = choose|w: int| 0 <= w < b.len() && b[w] == a[k - lo];
    assert(pre[lo + w] < bound);
}

/// A value drawn from a rearrangement of a range of values all `>= bound`
/// is itself `>= bound`.
proof fn lemma_value_stays_above(post: Seq<i64>, pre: Seq<i64>, lo: int, hi: int, k: int, bound: i64)
    requires
        permutes_within(post, pre, lo, hi),
        0 <= lo <= k <= hi < pre.len(),
        forall|q: int| lo <= q <= hi ==> pre[q] >= bound,
    ensures
        post[k] >= bound,
{
    broadcast use vstd::seq_lib::group_to_multiset_ensures;

    let a = post.subrange(lo, hi + 1);
    let b = pre.subrange(lo, hi + 1);
    assert(a.to_multiset().contains(a[k - lo]));
    assert(b.to_multiset().contains(a[k - lo]));
    assert(b.contains(a[k - lo]));
    let w = choose|w: int| 0 <= w < b.len() && b[w] == a[k - lo];
    assert(pre[lo + w] >= bound);
}

/// When a rearrangement of `pre[lo..=hi]` holds, at position `k`, a value no
/// smaller than everything on its left and no larger than everything on its
/// right, that value is the order statistic `k - lo` of the range as it stood before the call.
proof fn lemma_final_state_kth(post: Seq<i64>, pre: Seq<i64>, lo: int, hi: int, k: int)
    requires
        permutes_within(post, pre, lo, hi),
        0 <= lo <= k <= hi < pre.len(),
        forall|q: int| lo <= q < k ==> post[q] <= post[k],
        forall|q: int| k < q <= hi ==> post[q] >= post[k],
    ensures
        post[k] == kth_smallest(pre.subrange(lo, hi + 1), k - lo),
{
    let a = post.subrange(lo, hi + 1);
    let b = pre.subrange(lo, hi + 1);
    assert forall|q: int| 0 <= q < k - lo implies #[trigger] a[q] <= a[k - lo] by {
        assert(a[q] == post[lo + q]);
    }
    assert forall|q: int| k - lo < q < a.len() implies #[trigger] a[q] >= a[k - lo] by {
        assert(a[q] == post[lo + q]);
    }
    lemma_pivoted_is_kth(a, k - lo);
    lemma_same_multiset_same_kth(a, b, k - lo);
}

} // verus!
