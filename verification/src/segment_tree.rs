//! A fixed-size, array-backed binary tree holding `i64` elements in its
//! leaves, with point update and inclusive range-sum queries.

use vstd::prelude::*;

verus! {

/// Largest element count a tree may be built over.
pub const MAX_LEN: usize = 0x1000_0000;

/// Largest magnitude an element may have: keeps every sum the structure ever
/// forms well inside `i64`.
pub const MAX_VAL: i64 = 0x1000_0000;

/// The sum of `vals[l..=r]`, or `0` when the range is empty.
pub open spec fn range_total(vals: Seq<i64>, l: int, r: int) -> int
    decreases r + 1 - l,
{
    if l > r {
        0
    } else {
        vals[l] + range_total(vals, l + 1, r)
    }
}

/// The sum of the leaves below node `i` of a tree of `n` elements whose
/// leaves sit at positions `[n, 2n)`.
pub open spec fn subtree_sum(t: Seq<i64>, n: int, i: int) -> int
    decreases 2 * n - i,
    when i >= 1
{
    if i >= n {
        t[i] as int
    } else {
        subtree_sum(t, n, 2 * i) + subtree_sum(t, n, 2 * i + 1)
    }
}

/// The number of leaves below node `i`.
pub open spec fn subtree_count(n: int, i: int) -> int
    decreases 2 * n - i,
    when i >= 1
{
    if i >= n {
        1
    } else {
        subtree_count(n, 2 * i) + subtree_count(n, 2 * i + 1)
    }
}

/// Every internal node from `lo` up holds the sum of its two children.
pub open spec fn kids_ok(t: Seq<i64>, n: int, lo: int) -> bool {
    forall|m: int| lo <= m < n ==> #[trigger] t[m] == t[2 * m] + t[2 * m + 1]
}

/// Every leaf value lies within `[-MAX_VAL, MAX_VAL]`.
pub open spec fn leaves_bounded(t: Seq<i64>, n: int) -> bool {
    forall|j: int| n <= j < 2 * n ==> -(MAX_VAL as int) <= #[trigger] t[j] <= MAX_VAL as int
}

/// `k` lies on the parent-pointer path from `j` to the root node `1`.
pub open spec fn is_anc(j: int, k: int) -> bool
    decreases j,
{
    if j < 1 {
        false
    } else if j == k {
        true
    } else if j == 1 {
        false
    } else {
        is_anc(j / 2, k)
    }
}

proof fn lemma_anc_le(j: int, k: int)
    requires
        is_anc(j, k),
    ensures
        1 <= k <= j,
    decreases j,
{
    if j >= 1 && j != k && j != 1 {
        lemma_anc_le(j / 2, k);
    }
}

/// Scaled bound on a subtree's leaf count: `count(i) * i <= 2n`, so no
/// node's leaf count passes `2n`.
proof fn lemma_subtree_scaled(n: int, i: int)
    requires
        n >= 1,
        1 <= i < 2 * n,
    ensures
        1 <= subtree_count(n, i),
        subtree_count(n, i) * i <= 2 * n,
        subtree_count(n, i) <= 2 * n,
    decreases 2 * n - i,
{
    if i >= n {
        assert(subtree_count(n, i) == 1);
    } else {
        lemma_subtree_scaled(n, 2 * i);
        lemma_subtree_scaled(n, 2 * i + 1);
        let c1 = subtree_count(n, 2 * i);
        let c2 = subtree_count(n, 2 * i + 1);
        assert((c1 + c2) * i <= 2 * n) by (nonlinear_arith)
            requires
                c1 * (2 * i) <= 2 * n,
                c2 * (2 * i + 1) <= 2 * n,
                c1 >= 1,
                c2 >= 1,
                i >= 1,
        ;
        assert(subtree_count(n, i) == c1 + c2);
        assert(subtree_count(n, i) <= 2 * n) by (nonlinear_arith)
            requires
                subtree_count(n, i) * i <= 2 * n,
                subtree_count(n, i) >= 1,
                i >= 1,
        ;
    }
}

/// A subtree's sum is bounded by its leaf count times the element bound.
proof fn lemma_subtree_abs(t: Seq<i64>, n: int, i: int)
    requires
        n >= 1,
        1 <= i < 2 * n,
        leaves_bounded(t, n),
    ensures
        1 <= subtree_count(n, i),
        -(subtree_count(n, i) * (MAX_VAL as int)) <= subtree_sum(t, n, i) <= subtree_count(n, i)
            * (MAX_VAL as int),
    decreases 2 * n - i,
{
    let b = MAX_VAL as int;
    if i >= n {
    } else {
        lemma_subtree_abs(t, n, 2 * i);
        lemma_subtree_abs(t, n, 2 * i + 1);
        let c1 = subtree_count(n, 2 * i);
        let c2 = subtree_count(n, 2 * i + 1);
        assert((c1 + c2) * b == c1 * b + c2 * b) by (nonlinear_arith);
    }
}

/// A node's sum never passes `2n` times the element bound.
proof fn lemma_node_sum_small(t: Seq<i64>, n: int, i: int)
    requires
        n >= 1,
        1 <= i < 2 * n,
        leaves_bounded(t, n),
    ensures
        -(2 * n * (MAX_VAL as int)) <= subtree_sum(t, n, i) <= 2 * n * (MAX_VAL as int),
{
    let b = MAX_VAL as int;
    lemma_subtree_scaled(n, i);
    lemma_subtree_abs(t, n, i);
    assert(subtree_count(n, i) * b <= 2 * n * b) by (nonlinear_arith)
        requires
            subtree_count(n, i) <= 2 * n,
            b >= 0,
    ;
}

/// When every internal node from `c` upwards holds the sum of its children,
/// node `c` holds the sum of the leaves below it.
proof fn lemma_node_value(t: Seq<i64>, n: int, c: int)
    requires
        1 <= c < 2 * n,
        kids_ok(t, n, c),
    ensures
        t[c] == subtree_sum(t, n, c),
    decreases 2 * n - c,
{
    if c < n {
        lemma_node_value(t, n, 2 * c);
        lemma_node_value(t, n, 2 * c + 1);
    }
}

/// The sum of the subtree sums of the nodes `l..=r`, or `0` when empty.
pub open spec fn seg_sum(t: Seq<i64>, n: int, l: int, r: int) -> int
    decreases r + 1 - l,
{
    if l > r {
        0
    } else {
        subtree_sum(t, n, l) + seg_sum(t, n, l + 1, r)
    }
}

/// The total leaf count of the nodes `l..=r`, or `0` when empty.
pub open spec fn seg_cnt(n: int, l: int, r: int) -> int
    decreases r + 1 - l,
{
    if l > r {
        0
    } else {
        subtree_count(n, l) + seg_cnt(n, l + 1, r)
    }
}

/// Over leaf positions, a segment's sum is the plain sum of the elements and
/// its count the number of positions.
proof fn lemma_seg_leaves(t: Seq<i64>, n: int, l: int, r: int)
    requires
        n >= 1,
        n <= l,
        r < 2 * n,
        t.len() == 2 * n,
    ensures
        seg_sum(t, n, l, r) == range_total(t.subrange(n, 2 * n), l - n, r - n),
        seg_cnt(n, l, r) == if l <= r {
            r - l + 1
        } else {
            0
        },
    decreases r + 1 - l,
{
    let sub = t.subrange(n, 2 * n);
    if l <= r {
        lemma_seg_leaves(t, n, l + 1, r);
        assert(sub[l - n] == t[l]);
        assert(subtree_sum(t, n, l) == t[l]);
        assert(subtree_count(n, l) == 1);
        assert(seg_sum(t, n, l, r) == subtree_sum(t, n, l) + seg_sum(t, n, l + 1, r));
        assert(range_total(sub, l - n, r - n) == sub[l - n] + range_total(sub, l - n + 1, r - n));
        assert(seg_cnt(n, l, r) == subtree_count(n, l) + seg_cnt(n, l + 1, r));
    } else {
        assert(seg_sum(t, n, l, r) == 0);
        assert(range_total(sub, l - n, r - n) == 0);
        assert(seg_cnt(n, l, r) == 0);
    }
}

/// A segment's sum and count can also be peeled at the right end.
proof fn lemma_seg_drop_right(t: Seq<i64>, n: int, l: int, r: int)
    requires
        1 <= l <= r,
    ensures
        seg_sum(t, n, l, r) == seg_sum(t, n, l, r - 1) + subtree_sum(t, n, r),
        seg_cnt(n, l, r) == seg_cnt(n, l, r - 1) + subtree_count(n, r),
    decreases r - l,
{
    if l < r {
        lemma_seg_drop_right(t, n, l + 1, r);
        assert(seg_sum(t, n, l, r) == subtree_sum(t, n, l) + seg_sum(t, n, l + 1, r));
        assert(seg_sum(t, n, l, r - 1) == subtree_sum(t, n, l) + seg_sum(t, n, l + 1, r - 1));
        assert(seg_cnt(n, l, r) == subtree_count(n, l) + seg_cnt(n, l + 1, r));
        assert(seg_cnt(n, l, r - 1) == subtree_count(n, l) + seg_cnt(n, l + 1, r - 1));
    } else {
        assert(seg_sum(t, n, l, r) == subtree_sum(t, n, l) + seg_sum(t, n, l + 1, r));
        assert(seg_sum(t, n, l + 1, r) == 0);
        assert(seg_sum(t, n, l, r - 1) == 0);
        assert(seg_cnt(n, l, r) == subtree_count(n, l) + seg_cnt(n, l + 1, r));
        assert(seg_cnt(n, l + 1, r) == 0);
        assert(seg_cnt(n, l, r - 1) == 0);
    }
}

/// An even-to-odd segment of siblings has the same sum and count as the
/// segment of its parents.
proof fn lemma_seg_level_up(t: Seq<i64>, n: int, l: int, r: int)
    requires
        n >= 1,
        2 <= l <= r < 2 * n,
        l % 2 == 0,
        r % 2 == 1,
    ensures
        seg_sum(t, n, l, r) == seg_sum(t, n, l / 2, r / 2),
        seg_cnt(n, l, r) == seg_cnt(n, l / 2, r / 2),
    decreases r - l,
{
    assert(l / 2 < n);
    assert(2 * (l / 2) == l);
    assert(subtree_sum(t, n, l / 2) == subtree_sum(t, n, l) + subtree_sum(t, n, l + 1));
    assert(subtree_count(n, l / 2) == subtree_count(n, l) + subtree_count(n, l + 1));
    assert(seg_sum(t, n, l, r) == subtree_sum(t, n, l) + seg_sum(t, n, l + 1, r));
    assert(seg_sum(t, n, l + 1, r) == subtree_sum(t, n, l + 1) + seg_sum(t, n, l + 2, r));
    assert(seg_cnt(n, l, r) == subtree_count(n, l) + seg_cnt(n, l + 1, r));
    assert(seg_cnt(n, l + 1, r) == subtree_count(n, l + 1) + seg_cnt(n, l + 2, r));
    assert(seg_sum(t, n, l / 2, r / 2) == subtree_sum(t, n, l / 2) + seg_sum(
        t,
        n,
        l / 2 + 1,
        r / 2,
    ));
    assert(seg_cnt(n, l / 2, r / 2) == subtree_count(n, l / 2) + seg_cnt(n, l / 2 + 1, r / 2));
    if l + 1 == r {
        assert(seg_sum(t, n, l + 2, r) == 0);
        assert(seg_cnt(n, l + 2, r) == 0);
        assert(seg_sum(t, n, l / 2 + 1, r / 2) == 0);
        assert(seg_cnt(n, l / 2 + 1, r / 2) == 0);
    } else {
        lemma_seg_level_up(t, n, l + 2, r);
        assert((l + 2) / 2 == l / 2 + 1);
    }
}

/// A segment's sum stays within its count times the element bound, and its
/// count is never negative.
proof fn lemma_seg_bounds(t: Seq<i64>, n: int, l: int, r: int)
    requires
        n >= 1,
        1 <= l,
        r < 2 * n,
        leaves_bounded(t, n),
    ensures
        0 <= seg_cnt(n, l, r),
        -(seg_cnt(n, l, r) * (MAX_VAL as int)) <= seg_sum(t, n, l, r) <= seg_cnt(n, l, r) * (
        MAX_VAL as int),
    decreases r + 1 - l,
{
    let b = MAX_VAL as int;
    if l <= r {
        lemma_seg_bounds(t, n, l + 1, r);
        lemma_subtree_abs(t, n, l);
        let c = subtree_count(n, l);
        let c2 = seg_cnt(n, l + 1, r);
        assert((c + c2) * b == c * b + c2 * b) by (nonlinear_arith);
    }
}

/// A range sum reads only the elements inside the range: two element
/// sequences that agree on `[l, r]` have the same `range_total` over it.
pub proof fn lemma_range_total_congruence(v1: Seq<i64>, v2: Seq<i64>, l: int, r: int)
    requires
        forall|q: int| l <= q <= r ==> v1[q] == v2[q],
    ensures
        range_total(v1, l, r) == range_total(v2, l, r),
    decreases r + 1 - l,
{
    if l <= r {
        lemma_range_total_congruence(v1, v2, l + 1, r);
    }
}

/// A range total of bounded elements is bounded by the range's length times
/// the element bound.
proof fn lemma_range_total_bound(vals: Seq<i64>, l: int, r: int)
    requires
        l <= r + 1,
        forall|q: int| l <= q <= r ==> -(MAX_VAL as int) <= #[trigger] vals[q] <= MAX_VAL as int,
    ensures
        -((r + 1 - l) * (MAX_VAL as int)) <= range_total(vals, l, r) <= (r + 1 - l) * (
        MAX_VAL as int),
    decreases r + 1 - l,
{
    if l <= r {
        lemma_range_total_bound(vals, l + 1, r);
    }
}

/// Facts for consuming the node `l` at the left end of the loop's segment:
/// how sum and count split, and that both the node's sum and the remaining
/// segment's sum stay within `n` times the element bound.
proof fn lemma_take_left(t: Seq<i64>, n: int, l: int, r: int)
    requires
        n >= 1,
        1 <= l <= r < 2 * n,
        leaves_bounded(t, n),
        seg_cnt(n, l, r) <= n,
    ensures
        seg_sum(t, n, l, r) == subtree_sum(t, n, l) + seg_sum(t, n, l + 1, r),
        seg_cnt(n, l, r) == subtree_count(n, l) + seg_cnt(n, l + 1, r),
        0 <= seg_cnt(n, l + 1, r) <= n,
        -(n * (MAX_VAL as int)) <= subtree_sum(t, n, l) <= n * (MAX_VAL as int),
        -(n * (MAX_VAL as int)) <= seg_sum(t, n, l, r) <= n * (MAX_VAL as int),
        -(n * (MAX_VAL as int)) <= seg_sum(t, n, l + 1, r) <= n * (MAX_VAL as int),
{
    let b = MAX_VAL as int;
    lemma_subtree_abs(t, n, l);
    lemma_seg_bounds(t, n, l, r);
    lemma_seg_bounds(t, n, l + 1, r);
    let c = subtree_count(n, l);
    let cr = seg_cnt(n, l + 1, r);
    assert(c * b <= n * b && cr * b <= n * b && seg_cnt(n, l, r) * b <= n * b) by (nonlinear_arith)
        requires
            c <= n,
            cr <= n,
            seg_cnt(n, l, r) <= n,
            b >= 0,
            c + cr == seg_cnt(n, l, r),
            c >= 1,
            cr >= 0,
    ;
}

/// The mirror of `lemma_take_left` for consuming the node `r` at the right
/// end of the loop's segment.
proof fn lemma_take_right(t: Seq<i64>, n: int, l: int, r: int)
    requires
        n >= 1,
        1 <= l <= r < 2 * n,
        leaves_bounded(t, n),
        seg_cnt(n, l, r) <= n,
    ensures
        seg_sum(t, n, l, r) == seg_sum(t, n, l, r - 1) + subtree_sum(t, n, r),
        seg_cnt(n, l, r) == seg_cnt(n, l, r - 1) + subtree_count(n, r),
        0 <= seg_cnt(n, l, r - 1) <= n,
        -(n * (MAX_VAL as int)) <= subtree_sum(t, n, r) <= n * (MAX_VAL as int),
        -(n * (MAX_VAL as int)) <= seg_sum(t, n, l, r) <= n * (MAX_VAL as int),
        -(n * (MAX_VAL as int)) <= seg_sum(t, n, l, r - 1) <= n * (MAX_VAL as int),
{
    let b = MAX_VAL as int;
    lemma_seg_drop_right(t, n, l, r);
    lemma_subtree_abs(t, n, r);
    lemma_seg_bounds(t, n, l, r);
    lemma_seg_bounds(t, n, l, r - 1);
    let c = subtree_count(n, r);
    let cl = seg_cnt(n, l, r - 1);
    assert(c * b <= n * b && cl * b <= n * b && seg_cnt(n, l, r) * b <= n * b) by (nonlinear_arith)
        requires
            c <= n,
            cl <= n,
            seg_cnt(n, l, r) <= n,
            b >= 0,
            c + cl == seg_cnt(n, l, r),
            c >= 1,
            cl >= 0,
    ;
}

/// A fixed-size array-backed binary tree: the leaves at positions `[n, 2n)`
/// hold the elements, and every internal node at `[1, n)` holds the sum of
/// its two children.
pub struct SegmentTree {
    n: usize,
    tree: Vec<i64>,
}

impl SegmentTree {
    /// The elements currently held, in order.
    pub closed spec fn values(self) -> Seq<i64> {
        self.tree@.subrange(self.n as int, 2 * self.n as int)
    }

    /// The structural invariant: every internal node is the sum of its two
    /// children, and the elements are bounded so that no sum overflows.
    pub closed spec fn wf(self) -> bool {
        &&& self.tree@.len() == 2 * self.n
        &&& self.n <= MAX_LEN
        &&& kids_ok(self.tree@, self.n as int, 1)
        &&& leaves_bounded(self.tree@, self.n as int)
    }

    /// Builds the tree bottom-up over a copy of `nums`.
    pub fn new(nums: &Vec<i64>) -> (st: SegmentTree)
        requires
            nums.len() <= MAX_LEN,
            forall|q: int|
                0 <= q < nums.len() ==> -(MAX_VAL as int) <= #[trigger] nums@[q] <= MAX_VAL as int,
        ensures
            st.wf(),
            st.values() == nums@,
    {
        let n = nums.len();
        let mut tree: Vec<i64> = Vec::new();
        let mut i: usize = 0;
        while i < n
            invariant
                i <= n,
                tree@.len() == i,
            decreases n - i,
        {
            tree.push(0);
            i += 1;
        }
        let mut i: usize = 0;
        while i < n
            invariant
                i <= n <= nums@.len(),
                tree@.len() == n + i,
                forall|j: int| 0 <= j < i ==> tree@[n + j] == nums@[j],
                forall|q: int|
                    0 <= q < nums.len() ==> -(MAX_VAL as int) <= #[trigger] nums@[q]
                        <= MAX_VAL as int,
            decreases n - i,
        {
            tree.push(nums[i]);
            i += 1;
        }
        proof {
            assert forall|j: int|
                n <= j < 2 * n implies -(MAX_VAL as int) <= #[trigger] tree@[j]
                <= MAX_VAL as int by {
                assert(tree@[j] == nums@[j - n]);
            }
        }
        let mut i: usize = n;
        while i > 1
            invariant
                i <= n <= MAX_LEN,
                n == nums@.len(),
                tree@.len() == 2 * n,
                tree@.subrange(n as int, 2 * n as int) =~= nums@,
                leaves_bounded(tree@, n as int),
                kids_ok(tree@, n as int, i as int),
            decreases i,
        {
            i -= 1;
            proof {
                lemma_node_value(tree@, n as int, 2 * i as int);
                lemma_node_value(tree@, n as int, 2 * i as int + 1);
                lemma_node_sum_small(tree@, n as int, 2 * i as int);
                lemma_node_sum_small(tree@, n as int, 2 * i as int + 1);
            }
            let v = tree[2 * i] + tree[2 * i + 1];
            tree[i] = v;
        }
        let st = SegmentTree { n, tree };
        proof {
            assert(st.values() =~= nums@);
        }
        st
    }

    /// Overwrites the element at `index` with `val` and refreshes every
    /// node on the path to the root.
    pub fn update(&mut self, index: usize, val: i64)
        requires
            old(self).wf(),
            index < old(self).values().len(),
            -MAX_VAL <= val <= MAX_VAL,
        ensures
            final(self).wf(),
            final(self).values() == old(self).values().update(index as int, val),
    {
        let n = self.n;
        let mut i = index + n;
        self.tree[i] = val;
        proof {
            let j0 = i as int;
            assert forall|m: int|
                1 <= m < n && !(is_anc(j0, m) && m != j0) implies #[trigger] self.tree@[m]
                == self.tree@[2 * m] + self.tree@[2 * m + 1] by {
                assert(old(self).tree@[m] == old(self).tree@[2 * m] + old(self).tree@[2 * m + 1]);
                if 2 * m == j0 || 2 * m + 1 == j0 {
                    assert(m == j0 / 2);
                    assert(is_anc(j0 / 2, m));
                    assert(is_anc(j0, m) && m != j0);
                    assert(false);
                }
            }
            assert(self.tree@.subrange(n as int, 2 * n as int) =~= old(self).values().update(
                index as int,
                val,
            ));
        }
        while i > 1
            invariant
                self.n == old(self).n,
                n == self.n,
                n <= MAX_LEN,
                self.tree@.len() == 2 * n,
                1 <= i < 2 * n,
                self.tree@.subrange(n as int, 2 * n as int) =~= old(self).values().update(
                    index as int,
                    val,
                ),
                leaves_bounded(self.tree@, n as int),
                forall|m: int|
                    1 <= m < n && !(is_anc(i as int, m) && m != i) ==> #[trigger] self.tree@[m]
                        == self.tree@[2 * m] + self.tree@[2 * m + 1],
            decreases i,
        {
            let p = i / 2;
            proof {
                assert forall|m: int| 2 * p as int <= m < n implies #[trigger] self.tree@[m]
                    == self.tree@[2 * m] + self.tree@[2 * m + 1] by {
                    if is_anc(i as int, m) && m != i {
                        assert(is_anc(i as int / 2, m));
                        lemma_anc_le(i as int / 2, m);
                        assert(false);
                    }
                }
                lemma_node_value(self.tree@, n as int, 2 * p as int);
                lemma_node_value(self.tree@, n as int, 2 * p as int + 1);
                lemma_node_sum_small(self.tree@, n as int, 2 * p as int);
                lemma_node_sum_small(self.tree@, n as int, 2 * p as int + 1);
            }
            let v = self.tree[2 * p] + self.tree[2 * p + 1];
            let ghost pre = self.tree@;
            self.tree[p] = v;
            proof {
                assert forall|m: int|
                    1 <= m < n && !(is_anc(p as int, m) && m != p) implies #[trigger] self.tree@[m]
                    == self.tree@[2 * m] + self.tree@[2 * m + 1] by {
                    if m == p {
                    } else {
                        if is_anc(i as int, m) && m != i {
                            assert(is_anc(p as int, m));
                            assert(false);
                        }
                        if 2 * m == p || 2 * m + 1 == p {
                            assert(m == p as int / 2);
                            if p > 1 {
                                assert(is_anc(p as int / 2, m));
                                assert(is_anc(p as int, m) && m != p);
                                assert(false);
                            } else {
                                assert(m < 1);
                                assert(false);
                            }
                        }
                        assert(pre[m] == pre[2 * m] + pre[2 * m + 1]);
                    }
                }
            }
            i = p;
        }
        proof {
            assert forall|m: int| 1 <= m < n implies #[trigger] self.tree@[m] == self.tree@[2 * m]
                + self.tree@[2 * m + 1] by {
                if is_anc(1, m) && m != 1 {
                    lemma_anc_le(1, m);
                    assert(false);
                }
            }
            assert(final(self).values() =~= old(self).values().update(index as int, val));
        }
    }

    /// The inclusive sum of the elements at positions `[left, right]`.
    pub fn sum_range(&self, left: usize, right: usize) -> (s: i64)
        requires
            self.wf(),
            left <= right < self.values().len(),
        ensures
            s as int == range_total(self.values(), left as int, right as int),
    {
        let n = self.n;
        let ghost t = self.tree@;
        let ghost vals = self.values();
        let ghost b = MAX_VAL as int;
        proof {
            assert forall|m: int| 1 <= m < 2 * n implies #[trigger] t[m] == subtree_sum(
                t,
                n as int,
                m,
            ) by {
                lemma_node_value(t, n as int, m);
            }
            lemma_seg_leaves(t, n as int, left + n as int, right + n as int);
            assert forall|q: int| left <= q <= right implies -(MAX_VAL as int) <= #[trigger] vals[q]
                <= MAX_VAL as int by {
                assert(vals[q] == t[q + n]);
            }
            lemma_range_total_bound(vals, left as int, right as int);
            assert((right + 1 - left) * b <= n as int * b) by (nonlinear_arith)
                requires
                    right + 1 - left <= n as int,
                    b >= 0,
            ;
        }
        let mut l = left + n;
        let mut r = right + n;
        let mut sum: i64 = 0;
        while l <= r
            invariant
                self.wf(),
                n == self.n,
                t == self.tree@,
                vals == self.values(),
                b == MAX_VAL as int,
                left <= right < n <= MAX_LEN,
                forall|m: int| 1 <= m < 2 * n ==> #[trigger] t[m] == subtree_sum(t, n as int, m),
                1 <= l,
                r < 2 * n,
                sum as int == range_total(vals, left as int, right as int) - seg_sum(
                    t,
                    n as int,
                    l as int,
                    r as int,
                ),
                0 <= seg_cnt(n as int, l as int, r as int) <= n,
                -(n as int * b) <= range_total(vals, left as int, right as int) <= n as int * b,
            decreases r,
        {
            if l % 2 == 1 {
                proof {
                    lemma_take_left(t, n as int, l as int, r as int);
                }
                sum = sum + self.tree[l];
                l = l + 1;
            }
            if r % 2 == 0 {
                proof {
                    lemma_take_right(t, n as int, l as int, r as int);
                }
                sum = sum + self.tree[r];
                r = r - 1;
            }
            proof {
                if l <= r {
                    lemma_seg_level_up(t, n as int, l as int, r as int);
                } else {
                    assert(l == r + 1);
                    assert(l as int / 2 == r as int / 2 + 1);
                }
            }
            l = l / 2;
            r = r / 2;
        }
        sum
    }
}

} // verus!
