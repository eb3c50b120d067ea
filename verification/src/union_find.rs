//! A disjoint-set structure over the indices `0..n`, with union by rank and
//! path compression.

use vstd::prelude::*;
use vstd::set_lib::set_int_range;
use vstd::set_lib::lemma_int_range;

verus! {

broadcast use vstd::set::group_set_axioms;

/// Tracks a partition of `{0..n-1}` into disjoint groups. `root[i]` is a
/// parent pointer ending, at a fixed point, in the group's representative;
/// `rank[i]` is the height estimate that decides which tree is attached
/// under which during a union.
pub struct UnionFind {
    root: Vec<usize>,
    rank: Vec<usize>,
}

impl UnionFind {
    /// The number of elements the structure was built over.
    pub closed spec fn n(self) -> int {
        self.root@.len() as int
    }

    /// The set of representatives: the indices that are their own parent.
    pub closed spec fn roots(self) -> Set<int> {
        Set::new(|i: int| 0 <= i < self.n() && self.root@[i] == i)
    }

    /// The rank currently recorded for index `i`.
    pub closed spec fn rank_of(self, i: int) -> int {
        self.rank@[i] as int
    }

    /// Parent pointers stay in range and carry strictly growing ranks, so
    /// that following them terminates; every rank leaves room for one more
    /// tie-break increment per vanished group.
    pub closed spec fn wf(self) -> bool {
        &&& self.rank@.len() == self.root@.len()
        &&& forall|i: int| 0 <= i < self.n() ==> 0 <= #[trigger] self.root@[i] < self.n()
        &&& forall|i: int|
            0 <= i < self.n() && self.root@[i] != i ==> self.rank@[i] < self.rank@[
                #[trigger] self.root@[i] as int
            ]
        &&& self.roots().finite()
        &&& forall|i: int|
            0 <= i < self.n() ==> #[trigger] self.rank@[i] + self.roots().len() <= self.n() + 1
    }

    /// The representative of the group holding `i`: the fixed point reached
    /// by following parent pointers.
    pub closed spec fn root_of(self, i: int) -> int
        decreases self.n() + 1 - self.rank_of(i),
        when self.wf() && 0 <= i < self.n()
    {
        if self.root@[i] == i {
            i
        } else {
            self.root_of(self.root@[i] as int)
        }
    }

    /// Whether `a` and `b` currently belong to the same group.
    pub open spec fn same_set(self, a: int, b: int) -> bool {
        self.root_of(a) == self.root_of(b)
    }

    /// The number of disjoint groups.
    pub closed spec fn num_sets(self) -> int {
        self.roots().len() as int
    }
}

/// Following parent pointers from `i` ends at a representative of the
/// structure whose rank is no smaller than the rank of `i`.
proof fn lemma_root_of_props(uf: UnionFind, i: int)
    requires
        uf.wf(),
        0 <= i < uf.n(),
    ensures
        0 <= uf.root_of(i) < uf.n(),
        uf.root@[uf.root_of(i) as int] == uf.root_of(i),
        uf.roots().contains(uf.root_of(i)),
        i != uf.root_of(i) ==> uf.rank@[i] < uf.rank@[uf.root_of(i) as int],
    decreases uf.n() + 1 - uf.rank@[i],
{
    if uf.root@[i] != i {
        lemma_root_of_props(uf, uf.root@[i] as int);
    }
}

/// Rewriting the parent of a non-representative `c` to the representative of
/// its own group changes no group: every index keeps its representative.
proof fn lemma_compress(pre: UnionFind, post: UnionFind, c: int)
    requires
        pre.wf(),
        0 <= c < pre.n(),
        pre.root@[c] != c,
        post.root@ == pre.root@.update(c, pre.root_of(c) as usize),
        post.rank@ == pre.rank@,
    ensures
        post.wf(),
        post.roots() == pre.roots(),
        forall|i: int| 0 <= i < pre.n() ==> #[trigger] post.root_of(i) == pre.root_of(i),
{
    lemma_root_of_props(pre, c);
    let r = pre.root_of(c);
    assert(post.roots() =~= pre.roots());
    assert(post.wf());
    assert forall|i: int| 0 <= i < pre.n() implies #[trigger] post.root_of(i) == pre.root_of(
        i,
    ) by {
        lemma_compress_root_of(pre, post, c, i);
    }
}

proof fn lemma_compress_root_of(pre: UnionFind, post: UnionFind, c: int, i: int)
    requires
        pre.wf(),
        post.wf(),
        0 <= c < pre.n(),
        0 <= i < pre.n(),
        pre.root@[c] != c,
        post.root@ == pre.root@.update(c, pre.root_of(c) as usize),
        post.rank@ == pre.rank@,
    ensures
        post.root_of(i) == pre.root_of(i),
    decreases pre.n() + 1 - pre.rank@[i],
{
    lemma_root_of_props(pre, c);
    let r = pre.root_of(c);
    if i == c {
        assert(post.root@[c] == r as usize);
        assert(post.root_of(r) == r);
    } else {
        if pre.root@[i] != i {
            lemma_compress_root_of(pre, post, c, pre.root@[i] as int);
        }
    }
}

/// Attaching the representative `ry` under the distinct representative `rx`
/// (possibly raising the rank of `rx`, while keeping it above the rank of
/// `ry`) merges exactly the two groups and keeps every other group whole.
proof fn lemma_attach(pre: UnionFind, post: UnionFind, ry: int, rx: int)
    requires
        pre.wf(),
        0 <= ry < pre.n(),
        0 <= rx < pre.n(),
        rx != ry,
        pre.root@[ry] == ry,
        pre.root@[rx] == rx,
        post.root@ == pre.root@.update(ry, rx as usize),
        post.rank@.len() == pre.rank@.len(),
        forall|i: int| 0 <= i < pre.n() && i != rx ==> post.rank@[i] == pre.rank@[i],
        pre.rank@[rx] <= post.rank@[rx],
        pre.rank@[ry] < post.rank@[rx],
        post.rank@[rx] + pre.roots().len() <= pre.n() + 2,
    ensures
        post.wf(),
        post.roots() == pre.roots().remove(ry),
        post.num_sets() == pre.num_sets() - 1,
        forall|i: int|
            0 <= i < pre.n() ==> #[trigger] post.root_of(i) == (if pre.root_of(i) == ry {
                rx
            } else {
                pre.root_of(i)
            }),
{
    assert(post.roots() =~= pre.roots().remove(ry));
    assert(pre.roots().contains(ry));
    assert(post.roots().len() == pre.roots().len() - 1);
    assert(post.wf());
    assert forall|i: int| 0 <= i < pre.n() implies #[trigger] post.root_of(i) == (if pre.root_of(i)
        == ry {
        rx
    } else {
        pre.root_of(i)
    }) by {
        lemma_attach_root_of(pre, post, ry, rx, i);
    }
}

proof fn lemma_attach_root_of(pre: UnionFind, post: UnionFind, ry: int, rx: int, i: int)
    requires
        pre.wf(),
        post.wf(),
        0 <= ry < pre.n(),
        0 <= rx < pre.n(),
        0 <= i < pre.n(),
        rx != ry,
        pre.root@[ry] == ry,
        pre.root@[rx] == rx,
        post.root@ == pre.root@.update(ry, rx as usize),
        forall|j: int| 0 <= j < pre.n() && j != rx ==> post.rank@[j] == pre.rank@[j],
        pre.rank@[rx] <= post.rank@[rx],
    ensures
        post.root_of(i) == (if pre.root_of(i) == ry {
            rx
        } else {
            pre.root_of(i)
        }),
    decreases pre.n() + 1 - pre.rank@[i],
{
    if i == ry {
        assert(post.root@[ry] == rx as usize);
        assert(post.root_of(rx) == rx);
        assert(pre.root_of(ry) == ry);
    } else if pre.root@[i] == i {
        assert(post.root_of(i) == i);
    } else {
        lemma_attach_root_of(pre, post, ry, rx, pre.root@[i] as int);
    }
}

/// Two distinct representatives witness at least two groups.
proof fn lemma_two_roots(uf: UnionFind, a: int, b: int)
    requires
        uf.roots().finite(),
        uf.roots().contains(a),
        uf.roots().contains(b),
        a != b,
    ensures
        uf.roots().len() >= 2,
{
    assert(uf.roots().remove(a).contains(b));
    assert(uf.roots().remove(a).len() == uf.roots().len() - 1);
    assert(uf.roots().remove(a).remove(b).len() == uf.roots().len() - 2);
}

impl UnionFind {
    /// Returns `n` singleton groups over the indices `0..n`.
    pub fn new(n: usize) -> (uf: UnionFind)
        ensures
            uf.wf(),
            uf.n() == n,
            forall|i: int| 0 <= i < n ==> #[trigger] uf.root_of(i) == i,
            uf.num_sets() == n,
            forall|a: int, b: int|
                0 <= a < n && 0 <= b < n ==> (uf.same_set(a, b) <==> a == b),
    {
        let mut root: Vec<usize> = Vec::new();
        let mut rank: Vec<usize> = Vec::new();
        let mut i: usize = 0;
        while i < n
            invariant
                i <= n,
                root@.len() == i,
                rank@.len() == i,
                forall|j: int| 0 <= j < i ==> root@[j] == j,
                forall|j: int| 0 <= j < i ==> rank@[j] == 1,
            decreases n - i,
        {
            root.push(i);
            rank.push(1);
            i += 1;
        }
        let uf = UnionFind { root, rank };
        proof {
            lemma_int_range(0, n as int);
            assert(uf.roots() =~= set_int_range(0, n as int));
            assert(uf.wf());
            assert forall|j: int| 0 <= j < n implies #[trigger] uf.root_of(j) == j by {
                assert(uf.root@[j] == j);
            }
        }
        uf
    }

    /// Returns the representative of the group holding `x` and rewrites the
    /// parent of every index visited on the way directly to it, leaving
    /// every group as it was.
    pub fn find(&mut self, x: usize) -> (r: usize)
        requires
            old(self).wf(),
            x < old(self).n(),
        ensures
            final(self).wf(),
            final(self).n() == old(self).n(),
            r as int == old(self).root_of(x as int),
            forall|i: int|
                0 <= i < old(self).n() ==> #[trigger] final(self).root_of(i) == old(self).root_of(i),
            forall|i: int|
                0 <= i < old(self).n() ==> #[trigger] final(self).rank_of(i) == old(self).rank_of(i),
            final(self).roots() == old(self).roots(),
            final(self).num_sets() == old(self).num_sets(),
    {
        let mut r = x;
        while self.root[r] != r
            invariant
                self.wf(),
                *self == *old(self),
                r < self.n(),
                self.root_of(r as int) == self.root_of(x as int),
            decreases self.n() + 1 - self.rank@[r as int],
        {
            proof {
                lemma_root_of_props(*self, r as int);
            }
            r = self.root[r];
        }
        let mut cur = x;
        while self.root[cur] != cur
            invariant
                self.wf(),
                self.n() == old(self).n(),
                cur < self.n(),
                r < self.n(),
                self.root@[r as int] == r,
                self.root_of(cur as int) == r as int,
                self.rank@ == old(self).rank@,
                self.roots() == old(self).roots(),
                forall|i: int|
                    0 <= i < old(self).n() ==> #[trigger] self.root_of(i) == old(self).root_of(i),
            decreases self.n() + 1 - self.rank@[cur as int],
        {
            let parent = self.root[cur];
            let ghost pre = *self;
            proof {
                lemma_root_of_props(pre, cur as int);
            }
            self.root[cur] = r;
            proof {
                lemma_compress(pre, *self, cur as int);
            }
            cur = parent;
        }
        r
    }

    /// Whether `x` and `y` are in the same group; compresses both lookup
    /// paths on the way.
    pub fn connected(&mut self, x: usize, y: usize) -> (c: bool)
        requires
            old(self).wf(),
            x < old(self).n(),
            y < old(self).n(),
        ensures
            final(self).wf(),
            final(self).n() == old(self).n(),
            c == old(self).same_set(x as int, y as int),
            forall|i: int|
                0 <= i < old(self).n() ==> #[trigger] final(self).root_of(i) == old(self).root_of(i),
            final(self).roots() == old(self).roots(),
            final(self).num_sets() == old(self).num_sets(),
    {
        let rx = self.find(x);
        let ry = self.find(y);
        rx == ry
    }

    /// Merges the groups holding `x` and `y`. Returns `true` and lowers the
    /// number of groups by one when they were distinct; returns `false` and
    /// changes nothing when they were already one group. Afterwards two
    /// indices share a group exactly when they did before or they bridge the
    /// two merged groups — so `x` and `y` stay connected from here on.
    pub fn union_set(&mut self, x: usize, y: usize) -> (merged: bool)
        requires
            old(self).wf(),
            x < old(self).n(),
            y < old(self).n(),
        ensures
            final(self).wf(),
            final(self).n() == old(self).n(),
            merged == !old(self).same_set(x as int, y as int),
            final(self).same_set(x as int, y as int),
            forall|a: int, b: int|
                0 <= a < old(self).n() && 0 <= b < old(self).n() ==> (#[trigger] final(self).same_set(a, b) <==> (old(self).same_set(a, b) || (old(self).same_set(a, x as int)
                    && old(self).same_set(b, y as int)) || (old(self).same_set(a, y as int) && old(self).same_set(b, x as int)))),
            forall|a: int, b: int|
                0 <= a < old(self).n() && 0 <= b < old(self).n() && old(self).same_set(a, b)
                    ==> final(self).same_set(a, b),
            final(self).num_sets() == old(self).num_sets() - (if merged {
                1int
            } else {
                0int
            }),
    {
        let root_x = self.find(x);
        let root_y = self.find(y);
        proof {
            lemma_root_of_props(*old(self), x as int);
            lemma_root_of_props(*old(self), y as int);
        }
        if root_x != root_y {
            let ghost pre = *self;
            let rank_x = self.rank[root_x];
            let rank_y = self.rank[root_y];
            if rank_x > rank_y {
                self.root[root_y] = root_x;
                proof {
                    lemma_attach(pre, *self, root_y as int, root_x as int);
                }
            } else if rank_x < rank_y {
                self.root[root_x] = root_y;
                proof {
                    lemma_attach(pre, *self, root_x as int, root_y as int);
                }
            } else {
                let total = self.root.len();
                proof {
                    lemma_two_roots(pre, root_x as int, root_y as int);
                    assert(pre.rank@[root_x as int] + pre.roots().len() <= pre.n() + 1);
                    assert(rank_x + 1 <= total);
                }
                self.root[root_y] = root_x;
                self.rank[root_x] = rank_x + 1;
                proof {
                    lemma_attach(pre, *self, root_y as int, root_x as int);
                }
            }
            true
        } else {
            false
        }
    }

    /// Counts the groups by finding every element's representative and
    /// counting each representative once.
    pub fn n_sets(&mut self) -> (count: usize)
        requires
            old(self).wf(),
        ensures
            final(self).wf(),
            final(self).n() == old(self).n(),
            count as int == old(self).num_sets(),
            forall|i: int|
                0 <= i < old(self).n() ==> #[trigger] final(self).root_of(i) == old(self).root_of(i),
            final(self).roots() == old(self).roots(),
            final(self).num_sets() == old(self).num_sets(),
    {
        let n = self.root.len();
        let mut found: Vec<bool> = Vec::new();
        let mut i: usize = 0;
        while i < n
            invariant
                i <= n,
                found@.len() == i,
                forall|j: int| 0 <= j < i ==> found@[j] == false,
            decreases n - i,
        {
            found.push(false);
            i += 1;
        }
        let mut count: usize = 0;
        let ghost mut seen: Set<int> = Set::empty();
        let mut k: usize = 0;
        while k < n
            invariant
                k <= n,
                n == old(self).n(),
                old(self).wf(),
                self.wf(),
                self.n() == old(self).n(),
                found@.len() == n,
                seen.finite(),
                count as int == seen.len(),
                count <= k,
                forall|j: int| 0 <= j < n ==> (found@[j] <==> seen.contains(j)),
                forall|j: int| #[trigger]
                    seen.contains(j) ==> 0 <= j < n && old(self).root_of(j) == j,
                forall|i2: int|
                    0 <= i2 < k ==> seen.contains(#[trigger] old(self).root_of(i2)),
                forall|i2: int|
                    0 <= i2 < old(self).n() ==> #[trigger] self.root_of(i2) == old(self).root_of(i2),
                self.roots() == old(self).roots(),
            decreases n - k,
        {
            let r = self.find(k);
            proof {
                lemma_root_of_props(*old(self), k as int);
                lemma_root_of_props(*old(self), old(self).root_of(k as int));
            }
            if !found[r] {
                count += 1;
                found[r] = true;
                proof {
                    seen = seen.insert(r as int);
                }
            }
            k += 1;
        }
        proof {
            assert forall|j: int| old(self).roots().contains(j) implies seen.contains(j) by {
                assert(old(self).root_of(j) == j);
            }
            assert forall|j: int| seen.contains(j) implies old(self).roots().contains(j) by {
                lemma_root_of_props(*old(self), j);
            }
            assert(seen =~= old(self).roots());
        }
        count
    }
}

} // verus!
