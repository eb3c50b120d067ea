//! Length of the longest strictly increasing subsequence, computed in
//! `O(n log n)` with a working sequence of smallest tail values.

use vstd::prelude::*;

verus! {

/// `c` lists positions of `s` in strictly increasing order, with the values
/// at those positions strictly increasing too: an increasing subsequence of
/// `s` given by its indices.
pub open spec fn is_chain(s: Seq<i64>, c: Seq<int>) -> bool {
    &&& forall|q: int| 0 <= q < c.len() ==> 0 <= #[trigger] c[q] < s.len()
    &&& forall|q: int| 1 <= q < c.len() ==> c[q - 1] < #[trigger] c[q] && s[c[q - 1]] < s[c[q]]
}

/// An increasing subsequence drawn from the first `k` positions only.
pub open spec fn chain_upto(s: Seq<i64>, c: Seq<int>, k: int) -> bool {
    &&& is_chain(s, c)
    &&& forall|q: int| 0 <= q < c.len() ==> #[trigger] c[q] < k
}

/// Along a chain, both positions and values grow strictly.
proof fn lemma_chain_mono(s: Seq<i64>, c: Seq<int>, a: int, b: int)
    requires
        is_chain(s, c),
        0 <= a <= b < c.len(),
    ensures
        a < b ==> c[a] < c[b] && s[c[a]] < s[c[b]],
    decreases b - a,
{
    if a < b {
        lemma_chain_mono(s, c, a, b - 1);
    }
}

/// Dropping the last position of a chain over the first `k + 1` positions
/// leaves a chain over the first `c.last()` positions.
proof fn lemma_chain_shrink(s: Seq<i64>, c: Seq<int>)
    requires
        is_chain(s, c),
        c.len() >= 1,
    ensures
        chain_upto(s, c.drop_last(), c.last()),
        c.drop_last().len() == c.len() - 1,
        c.drop_last().len() >= 1 ==> s[c.drop_last().last()] < s[c.last()],
{
    let c2 = c.drop_last();
    assert forall|q: int| 0 <= q < c2.len() implies #[trigger] c2[q] < c.last() by {
        assert(c2[q] == c[q]);
        lemma_chain_mono(s, c, q, c.len() - 1);
    }
    assert forall|q: int| 1 <= q < c2.len() implies c2[q - 1] < #[trigger] c2[q] && s[c2[q - 1]]
        < s[c2[q]] by {
        assert(c2[q] == c[q] && c2[q - 1] == c[q - 1]);
    }
}

/// The number of values strictly below `x` in a strictly sorted vector:
/// every earlier position holds a smaller value, every position from the
/// returned one on holds a value at least `x`.
fn lower_bound(sub: &Vec<i64>, x: i64) -> (idx: usize)
    requires
        forall|p: int, q: int| 0 <= p < q < sub.len() ==> sub@[p] < sub@[q],
    ensures
        idx <= sub.len(),
        forall|q: int| 0 <= q < idx ==> sub@[q] < x,
        forall|q: int| idx <= q < sub.len() ==> sub@[q] >= x,
{
    let mut lo: usize = 0;
    let mut hi: usize = sub.len();
    while lo < hi
        invariant
            lo <= hi <= sub.len(),
            forall|p: int, q: int| 0 <= p < q < sub.len() ==> sub@[p] < sub@[q],
            forall|q: int| 0 <= q < lo ==> sub@[q] < x,
            forall|q: int| hi <= q < sub.len() ==> sub@[q] >= x,
        decreases hi - lo,
    {
        let mid = lo + (hi - lo) / 2;
        if sub[mid] < x {
            proof {
                assert forall|q: int| 0 <= q < mid + 1 implies sub@[q] < x by {
                    if q < mid {
                        assert(sub@[q] < sub@[mid as int]);
                    }
                }
            }
            lo = mid + 1;
        } else {
            proof {
                assert forall|q: int| mid <= q < sub.len() implies sub@[q] >= x by {
                    if q > mid {
                        assert(sub@[mid as int] < sub@[q]);
                    }
                }
            }
            hi = mid;
        }
    }
    lo
}

/// The length of the longest strictly increasing subsequence of `nums`:
/// some chain reaches the returned length and no chain passes it.
pub fn lis_len(nums: &Vec<i64>) -> (len: usize)
    ensures
        exists|c: Seq<int>| is_chain(nums@, c) && c.len() == len,
        forall|c: Seq<int>| is_chain(nums@, c) ==> c.len() <= len,
{
    let ghost s = nums@;
    let mut sub: Vec<i64> = Vec::new();
    let ghost mut wit: Seq<Seq<int>> = Seq::empty();
    let mut k: usize = 0;
    proof {
        assert forall|c: Seq<int>| #[trigger] chain_upto(s, c, 0) implies c.len() == 0 by {
            if c.len() >= 1 {
                assert(forall|q: int| 0 <= q < c.len() ==> #[trigger] c[q] < 0);
                assert(forall|q: int| 0 <= q < c.len() ==> 0 <= #[trigger] c[q] < s.len());
                assert(c[0] < 0);
                assert(0 <= c[0]);
                assert(false);
            }
        }
    }
    while k < nums.len()
        invariant
            k <= nums.len(),
            s == nums@,
            sub.len() <= k,
            forall|p: int, q: int| 0 <= p < q < sub.len() ==> sub@[p] < sub@[q],
            wit.len() == sub.len(),
            forall|j: int| 0 <= j < wit.len() ==> chain_upto(s, #[trigger] wit[j], k as int),
            forall|j: int| 0 <= j < wit.len() ==> (#[trigger] wit[j]).len() == j + 1,
            forall|j: int| 0 <= j < wit.len() ==> s[(#[trigger] wit[j]).last()] == sub@[j],
            forall|c: Seq<int>| #[trigger]
                chain_upto(s, c, k as int) ==> c.len() <= sub.len() && (c.len() >= 1 ==> sub@[
                    c.len() - 1] <= s[c.last()]),
        decreases nums.len() - k,
    {
        let x = nums[k];
        let idx = lower_bound(&sub, x);
        let ghost oldsub = sub@;
        let ghost nc: Seq<int> = if idx == 0 {
            seq![k as int]
        } else {
            wit[idx - 1].push(k as int)
        };
        proof {
            if idx > 0 {
                assert(s[wit[idx - 1].last()] == oldsub[idx - 1] && oldsub[idx - 1] < x);
            }
            assert(chain_upto(s, nc, k + 1));
            assert(nc.len() == idx + 1);
            assert(nc.last() == k as int);
        }
        if idx == sub.len() {
            sub.push(x);
            proof {
                wit = wit.push(nc);
            }
        } else {
            let cur = sub[idx];
            if cur > x {
                sub[idx] = x;
                proof {
                    wit = wit.update(idx as int, nc);
                }
            }
        }
        proof {
            assert forall|c: Seq<int>| #[trigger]
                chain_upto(s, c, k + 1) implies c.len() <= sub.len() && (c.len() >= 1 ==> sub@[
                c.len() - 1] <= s[c.last()]) by {
                if c.len() >= 1 && c.last() == k {
                    lemma_chain_shrink(s, c);
                    let c2 = c.drop_last();
                    assert(chain_upto(s, c2, k as int));
                    let m = c2.len();
                    if m >= 1 {
                        assert(oldsub[m - 1] <= s[c2.last()]);
                        assert(s[c2.last()] < s[c.last()]);
                        assert(oldsub[m - 1] < x);
                        if m - 1 >= idx {
                            assert(oldsub[m - 1] >= oldsub[idx as int]);
                            assert(oldsub[idx as int] >= x);
                            assert(false);
                        }
                    }
                    assert(m <= idx);
                    assert(c.len() == m + 1 <= sub.len());
                    if m < idx {
                        assert(sub@[m as int] == oldsub[m as int]);
                        assert(oldsub[m as int] < x) by {
                            if m < idx - 1 {
                                assert(oldsub[m as int] < oldsub[idx - 1]);
                            }
                        }
                    } else {
                        assert(sub@[m as int] <= x);
                    }
                } else if c.len() >= 1 {
                    assert forall|q: int| 0 <= q < c.len() implies #[trigger] c[q] < k by {
                        if q < c.len() - 1 {
                            lemma_chain_mono(s, c, q, c.len() - 1);
                        }
                        assert(c[c.len() - 1] != k);
                    }
                    assert(chain_upto(s, c, k as int));
                    assert(oldsub[c.len() - 1] <= s[c.last()]);
                    if idx < oldsub.len() && c.len() - 1 == idx {
                        assert(sub@[c.len() - 1] <= oldsub[c.len() - 1]);
                    }
                } else {
                    assert(chain_upto(s, c, k as int));
                }
            }
        }
        k += 1;
    }
    let len = sub.len();
    proof {
        if len == 0 {
            let c0 = Seq::<int>::empty();
            assert(is_chain(s, c0) && c0.len() == 0);
        } else {
            assert(chain_upto(s, wit[len - 1], nums@.len() as int));
            assert(is_chain(s, wit[len - 1]) && wit[len - 1].len() == len);
        }
        assert forall|c: Seq<int>| is_chain(s, c) implies c.len() <= len by {
            assert(chain_upto(s, c, nums@.len() as int));
        }
    }
    len
}

} // verus!
