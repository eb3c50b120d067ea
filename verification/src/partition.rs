//! In-place partitioning of a range of a vector around a pivot value, in the
//! Hoare and the Lomuto scheme.

use vstd::prelude::*;

verus! {

/// `s1` is `s2` with the elements inside positions `[lo, hi]` rearranged:
/// same length, same values outside `[lo, hi]`, and the same multiset of
/// values inside it.
pub open spec fn permutes_within(s1: Seq<i64>, s2: Seq<i64>, lo: int, hi: int) -> bool {
    &&& s1.len() == s2.len()
    &&& s1.subrange(lo, hi + 1).to_multiset() == s2.subrange(lo, hi + 1).to_multiset()
    &&& forall|q: int| 0 <= q < s1.len() && !(lo <= q <= hi) ==> s1[q] == s2[q]
}

/// Exchanges the elements at positions `i` and `j`.
pub(crate) fn swap_at(nums: &mut Vec<i64>, i: usize, j: usize)
    requires
        i < old(nums).len(),
        j < old(nums).len(),
    ensures
        final(nums)@ == old(nums)@.update(i as int, old(nums)@[j as int]).update(
            j as int,
            old(nums)@[i as int],
        ),
{
    let a = nums[i];
    let b = nums[j];
    nums[i] = b;
    nums[j] = a;
}

/// Writing the value at `j` over position `i` and the value at `i` over
/// position `j` keeps the multiset of the sequence's elements.
proof fn lemma_swap_multiset(s: Seq<i64>, i: int, j: int)
    requires
        0 <= i < s.len(),
        0 <= j < s.len(),
    ensures
        s.update(i, s[j]).update(j, s[i]).to_multiset() == s.to_multiset(),
{
    broadcast use vstd::seq_lib::group_to_multiset_ensures;
    broadcast use vstd::multiset::group_multiset_axioms;

    if i == j {
        assert(s.update(i, s[j]).update(j, s[i]) =~= s);
    } else {
        let t1 = s.update(i, s[j]);
        let t2 = t1.update(j, s[i]);
        assert(t1.to_multiset() == s.to_multiset().insert(s[j]).remove(s[i]));
        assert(t1[j] == s[j]);
        assert(t2.to_multiset() == t1.to_multiset().insert(s[i]).remove(s[j]));
        assert(s.to_multiset().contains(s[i]));
        assert(s.to_multiset().contains(s[j]));
        assert(t2.to_multiset() =~= s.to_multiset());
    }
}

/// A swap of two positions inside `[lo, hi]` only rearranges that range.
pub(crate) proof fn lemma_swap_permutes(s: Seq<i64>, i: int, j: int, lo: int, hi: int)
    requires
        0 <= lo <= i <= hi < s.len(),
        lo <= j <= hi,
    ensures
        permutes_within(s.update(i, s[j]).update(j, s[i]), s, lo, hi),
{
    let t = s.update(i, s[j]).update(j, s[i]);
    let a = s.subrange(lo, hi + 1);
    let b = t.subrange(lo, hi + 1);
    assert(b =~= a.update(i - lo, a[j - lo]).update(j - lo, a[i - lo]));
    lemma_swap_multiset(a, i - lo, j - lo);
}

/// Rearranging within a range twice over is rearranging within it once.
pub(crate) proof fn lemma_permutes_within_trans(
    s1: Seq<i64>,
    s2: Seq<i64>,
    s3: Seq<i64>,
    lo: int,
    hi: int,
)
    requires
        permutes_within(s1, s2, lo, hi),
        permutes_within(s2, s3, lo, hi),
    ensures
        permutes_within(s1, s3, lo, hi),
{
}

/// Rearranging within `[lo1, hi1]` is also rearranging within any enclosing
/// range `[lo, hi]`.
pub(crate) proof fn lemma_permutes_within_widen(
    s1: Seq<i64>,
    s2: Seq<i64>,
    lo1: int,
    hi1: int,
    lo: int,
    hi: int,
)
    requires
        permutes_within(s1, s2, lo1, hi1),
        0 <= lo <= lo1 <= hi1 <= hi < s1.len(),
    ensures
        permutes_within(s1, s2, lo, hi),
{
    let a1 = s1.subrange(lo, lo1);
    let b1 = s1.subrange(lo1, hi1 + 1);
    let c1 = s1.subrange(hi1 + 1, hi + 1);
    let a2 = s2.subrange(lo, lo1);
    let b2 = s2.subrange(lo1, hi1 + 1);
    let c2 = s2.subrange(hi1 + 1, hi + 1);
    assert(s1.subrange(lo, hi + 1) =~= a1 + b1 + c1);
    assert(s2.subrange(lo, hi + 1) =~= a2 + b2 + c2);
    assert(a1 =~= a2);
    assert(c1 =~= c2);
    vstd::seq_lib::lemma_multiset_commutative(a1 + b1, c1);
    vstd::seq_lib::lemma_multiset_commutative(a1, b1);
    vstd::seq_lib::lemma_multiset_commutative(a2 + b2, c2);
    vstd::seq_lib::lemma_multiset_commutative(a2, b2);
}

/// Hoare partitioning of `nums[lo..=hi]` around the value at `pivot_index`:
/// the returned index is a split boundary — strictly smaller values sit below
/// it and values at least as large sit from it through `hi` — and the range
/// is only rearranged, the rest of the vector kept.
pub fn hoare_partition(nums: &mut Vec<i64>, lo: usize, hi: usize, pivot_index: usize) -> (idx:
    usize)
    requires
        lo <= pivot_index <= hi < old(nums).len(),
    ensures
        lo <= idx <= hi,
        forall|q: int| lo <= q < idx ==> final(nums)@[q] < old(nums)@[pivot_index as int],
        forall|q: int| idx <= q <= hi ==> final(nums)@[q] >= old(nums)@[pivot_index as int],
        permutes_within(final(nums)@, old(nums)@, lo as int, hi as int),
{
    let pivot = nums[pivot_index];
    let n = hi;
    let mut l = lo;
    let mut h = hi;
    while h <= n && l < h
        invariant
            lo <= l <= hi < nums.len(),
            h <= hi,
            nums.len() == old(nums).len(),
            pivot == old(nums)@[pivot_index as int],
            forall|q: int| lo <= q < l ==> nums@[q] < pivot,
            forall|q: int| h < q <= hi ==> nums@[q] >= pivot,
            l <= h ==> exists|w: int| l <= w <= hi && nums@[w] >= pivot,
            l >= h ==> forall|q: int| l <= q <= hi ==> nums@[q] >= pivot,
            permutes_within(nums@, old(nums)@, lo as int, hi as int),
        decreases 2 * (if l < h {
            h - l
        } else {
            0int
        }) + (if nums@[l as int] >= pivot {
            1int
        } else {
            0int
        }),
    {
        while nums[l] < pivot
            invariant
                lo <= l <= hi < nums.len(),
                forall|q: int| lo <= q < l ==> nums@[q] < pivot,
                exists|w: int| l <= w <= hi && nums@[w] >= pivot,
            decreases hi - l,
        {
            l += 1;
        }
        while h > 0 && nums[h] >= pivot
            invariant
                h <= hi < nums.len(),
                forall|q: int| h < q <= hi ==> nums@[q] >= pivot,
            decreases h,
        {
            h -= 1;
        }
        if l < h {
            let ghost pre = nums@;
            swap_at(nums, l, h);
            proof {
                lemma_swap_permutes(pre, l as int, h as int, lo as int, hi as int);
                lemma_permutes_within_trans(nums@, pre, old(nums)@, lo as int, hi as int);
                assert(nums@[h as int] >= pivot);
                assert(l <= h <= hi && nums@[h as int] >= pivot);
            }
        } else {
            proof {
                assert(nums@[l as int] >= pivot);
                assert(l <= l <= hi && nums@[l as int] >= pivot);
            }
        }
    }
    l
}

/// Lomuto partitioning of `nums[left..=right]` around the value at
/// `pivot_index`: the pivot value comes to rest at the returned index, with
/// strictly smaller values on its left and values at least as large on its
/// right; the range is only rearranged and the rest of the vector is kept.
pub fn lomuto_partition(nums: &mut Vec<i64>, left: usize, right: usize, pivot_index: usize) -> (idx:
    usize)
    requires
        left <= pivot_index <= right < old(nums).len(),
    ensures
        left <= idx <= right,
        final(nums)@[idx as int] == old(nums)@[pivot_index as int],
        forall|q: int| left <= q < idx ==> final(nums)@[q] < old(nums)@[pivot_index as int],
        forall|q: int| idx < q <= right ==> final(nums)@[q] >= old(nums)@[pivot_index as int],
        permutes_within(final(nums)@, old(nums)@, left as int, right as int),
{
    let pivot = nums[pivot_index];
    let ghost s0 = nums@;
    swap_at(nums, pivot_index, right);
    proof {
        lemma_swap_permutes(s0, pivot_index as int, right as int, left as int, right as int);
    }
    let mut store_index = left;
    let mut i = left;
    while i < right
        invariant
            left <= store_index <= i <= right < nums.len(),
            nums.len() == old(nums).len(),
            pivot == old(nums)@[pivot_index as int],
            nums@[right as int] == pivot,
            forall|q: int| left <= q < store_index ==> nums@[q] < pivot,
            forall|q: int| store_index <= q < i ==> nums@[q] >= pivot,
            permutes_within(nums@, old(nums)@, left as int, right as int),
        decreases right - i,
    {
        if nums[i] < pivot {
            let ghost pre = nums@;
            swap_at(nums, store_index, i);
            proof {
                lemma_swap_permutes(pre, store_index as int, i as int, left as int, right as int);
                lemma_permutes_within_trans(nums@, pre, old(nums)@, left as int, right as int);
            }
            store_index += 1;
        }
        i += 1;
    }
    let ghost pre = nums@;
    swap_at(nums, store_index, right);
    proof {
        lemma_swap_permutes(pre, store_index as int, right as int, left as int, right as int);
        lemma_permutes_within_trans(nums@, pre, old(nums)@, left as int, right as int);
    }
    store_index
}

} // verus!
