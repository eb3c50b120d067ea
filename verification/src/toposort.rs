//! Topological ordering of a directed graph given as an adjacency list from
//! each node to its prerequisites, with cycle detection, by an iterative
//! depth-first traversal over an explicit work stack.

use vstd::prelude::*;

verus! {

/// Traversal state of a node: untouched, on the current search path, or
/// fully processed.
#[derive(Clone, Copy, PartialEq, Eq, Structural)]
pub enum Mark {
    Cleared,
    Temporary,
    Permanent,
}

/// Every listed prerequisite is a node of the graph.
pub open spec fn edges_ok(g: Seq<Vec<usize>>) -> bool {
    forall|a: int, j: int|
        0 <= a < g.len() && 0 <= j < g[a]@.len() ==> (#[trigger] g[a]@[j]) < g.len()
}

/// There is an edge from node `a` to node `b`: `b` is listed among the
/// prerequisites of `a`.
pub open spec fn is_edge(g: Seq<Vec<usize>>, a: int, b: int) -> bool {
    &&& 0 <= a < g.len()
    &&& exists|j: int| 0 <= j < g[a]@.len() && (#[trigger] g[a]@[j]) == b
}

/// `c` walks a closed loop of edges through the graph.
pub open spec fn is_cycle(g: Seq<Vec<usize>>, c: Seq<int>) -> bool {
    &&& c.len() >= 1
    &&& forall|q: int| 0 <= q < c.len() - 1 ==> #[trigger] is_edge(g, c[q], c[q + 1])
    &&& is_edge(g, c[c.len() - 1], c[0])
}

/// Some closed loop of edges exists.
pub open spec fn has_cycle(g: Seq<Vec<usize>>) -> bool {
    exists|c: Seq<int>| is_cycle(g, c)
}

/// Every prerequisite listed for the node at position `a` of `order` stands
/// somewhere after position `a`.
pub open spec fn prereqs_after(g: Seq<Vec<usize>>, order: Seq<usize>, a: int) -> bool {
    forall|j: int|
        0 <= j < g[order[a] as int]@.len() ==> order.subrange(a + 1, order.len() as int).contains(
            #[trigger] g[order[a] as int]@[j],
        )
}

/// Every node of `order` stands before each of its listed prerequisites.
pub open spec fn order_respects(g: Seq<Vec<usize>>, order: Seq<usize>) -> bool {
    forall|a: int| 0 <= a < order.len() ==> #[trigger] prereqs_after(g, order, a)
}

/// The position of node `v` in `order`.
pub open spec fn pos_of(order: Seq<usize>, v: int) -> int {
    choose|a: int| 0 <= a < order.len() && order[a] == v
}

/// The number of untouched nodes.
pub open spec fn cleared_count(marks: Seq<Mark>) -> int
    decreases marks.len(),
{
    if marks.len() == 0 {
        0
    } else {
        cleared_count(marks.drop_last()) + if marks.last() == Mark::Cleared {
            1int
        } else {
            0int
        }
    }
}

proof fn lemma_cleared_bounds(marks: Seq<Mark>)
    ensures
        0 <= cleared_count(marks) <= marks.len(),
    decreases marks.len(),
{
    if marks.len() > 0 {
        lemma_cleared_bounds(marks.drop_last());
    }
}

proof fn lemma_cleared_update(marks: Seq<Mark>, v: int, x: Mark)
    requires
        0 <= v < marks.len(),
    ensures
        cleared_count(marks.update(v, x)) == cleared_count(marks) - (if marks[v] == Mark::Cleared {
            1int
        } else {
            0int
        }) + (if x == Mark::Cleared {
            1int
        } else {
            0int
        }),
    decreases marks.len(),
{
    let upd = marks.update(v, x);
    if v == marks.len() - 1 {
        assert(upd.drop_last() =~= marks.drop_last());
        assert(upd.last() == x);
    } else {
        lemma_cleared_update(marks.drop_last(), v, x);
        assert(upd.drop_last() =~= marks.drop_last().update(v, x));
        assert(upd.last() == marks.last());
    }
}

proof fn lemma_cleared_none(marks: Seq<Mark>)
    requires
        forall|v: int| 0 <= v < marks.len() ==> #[trigger] marks[v] != Mark::Cleared,
    ensures
        cleared_count(marks) == 0,
    decreases marks.len(),
{
    if marks.len() > 0 {
        lemma_cleared_none(marks.drop_last());
    }
}

/// The number of prerequisite edges the stacked frames have not yet walked.
pub open spec fn rem_work(g: Seq<Vec<usize>>, stack: Seq<(usize, usize)>) -> int
    decreases stack.len(),
{
    if stack.len() == 0 {
        0
    } else {
        rem_work(g, stack.drop_last()) + g[stack.last().0 as int]@.len() - stack.last().1
    }
}

proof fn lemma_rem_work_nonneg(g: Seq<Vec<usize>>, stack: Seq<(usize, usize)>)
    requires
        forall|d: int|
            0 <= d < stack.len() ==> (#[trigger] stack[d]).1 <= g[stack[d].0 as int]@.len(),
    ensures
        rem_work(g, stack) >= 0,
    decreases stack.len(),
{
    if stack.len() > 0 {
        lemma_rem_work_nonneg(g, stack.drop_last());
    }
}

/// The frames of the stack: nodes in range with their edge cursors in range,
/// all marked as on the current path; exactly the `Temporary` nodes are
/// stacked, each once; consecutive frames are joined by edges; and every
/// edge a frame has already walked leads to a finished node or to a node
/// higher on the stack.
pub open spec fn stack_inv(
    g: Seq<Vec<usize>>,
    marks: Seq<Mark>,
    stack: Seq<(usize, usize)>,
) -> bool {
    &&& forall|d: int|
        0 <= d < stack.len() ==> (#[trigger] stack[d]).0 < g.len() && stack[d].1 <= g[stack[d].0
            as int]@.len() && marks[stack[d].0 as int] == Mark::Temporary
    &&& forall|v: int|
        0 <= v < g.len() && #[trigger] marks[v] == Mark::Temporary ==> exists|d: int|
            0 <= d < stack.len() && (#[trigger] stack[d]).0 == v
    &&& forall|d1: int, d2: int|
        0 <= d1 < d2 < stack.len() ==> (#[trigger] stack[d1]).0 != (#[trigger] stack[d2]).0
    &&& forall|d: int|
        0 <= d < stack.len() - 1 ==> #[trigger] is_edge(g, stack[d].0 as int, stack[d + 1].0 as int)
    &&& forall|d: int, j: int|
        0 <= d < stack.len() && 0 <= j < (#[trigger] stack[d]).1 ==> marks[#[trigger] g[stack[d].0
            as int]@[j] as int] == Mark::Permanent || (exists|d2: int|
            d < d2 < stack.len() && (#[trigger] stack[d2]).0 == g[stack[d].0 as int]@[j])
}

/// Every prerequisite listed for the node at position `p` of `out` stands
/// somewhere before position `p`.
pub open spec fn prereqs_collected(g: Seq<Vec<usize>>, out: Seq<usize>, p: int) -> bool {
    forall|j: int|
        0 <= j < g[out[p] as int]@.len() ==> out.subrange(0, p).contains(
            #[trigger] g[out[p] as int]@[j],
        )
}

/// The finished nodes collected so far: exactly the `Permanent` nodes, each
/// once, and each listed after all of its prerequisites.
pub open spec fn out_inv(g: Seq<Vec<usize>>, marks: Seq<Mark>, out: Seq<usize>) -> bool {
    &&& forall|p: int|
        0 <= p < out.len() ==> (#[trigger] out[p]) < g.len() && marks[out[p] as int]
            == Mark::Permanent
    &&& forall|v: int|
        0 <= v < g.len() && #[trigger] marks[v] == Mark::Permanent ==> exists|p: int|
            0 <= p < out.len() && (#[trigger] out[p]) == v
    &&& forall|p1: int, p2: int|
        0 <= p1 < p2 < out.len() ==> (#[trigger] out[p1]) != (#[trigger] out[p2])
    &&& forall|p: int| 0 <= p < out.len() ==> #[trigger] prereqs_collected(g, out, p)
}

/// An edge forces its source to stand strictly before its target in an
/// order that respects the graph and names every node once.
proof fn lemma_edge_pos(g: Seq<Vec<usize>>, order: Seq<usize>, u: int, w: int)
    requires
        g.len() <= usize::MAX,
        order.len() == g.len(),
        forall|a: int| 0 <= a < order.len() ==> (#[trigger] order[a]) < g.len(),
        forall|a: int, b: int|
            0 <= a < b < order.len() ==> (#[trigger] order[a]) != (#[trigger] order[b]),
        forall|v: int| 0 <= v < g.len() ==> #[trigger] order.contains(v as usize),
        order_respects(g, order),
        is_edge(g, u, w),
    ensures
        0 <= pos_of(order, u) < pos_of(order, w) < order.len(),
{
    assert(order.contains(u as usize));
    let a0 = choose|i: int| 0 <= i < order.len() && order[i] == u as usize;
    assert(0 <= a0 < order.len() && order[a0] == u);
    let a = pos_of(order, u);
    assert(0 <= a < order.len() && order[a] == u);
    let j = choose|j: int| 0 <= j < g[u]@.len() && (#[trigger] g[u]@[j]) == w;
    assert(prereqs_after(g, order, a));
    let rest = order.subrange(a + 1, order.len() as int);
    assert(rest.contains(g[order[a] as int]@[j]));
    let i0 = choose|i: int| 0 <= i < rest.len() && rest[i] == g[order[a] as int]@[j];
    let b = a + 1 + i0;
    assert(a < b < order.len() && order[b] == w);
    assert(0 <= w < g.len());
    assert(order.contains(w as usize));
    let p0 = choose|i: int| 0 <= i < order.len() && order[i] == w as usize;
    assert(0 <= p0 < order.len() && order[p0] == w);
    let p = pos_of(order, w);
    assert(0 <= p < order.len() && order[p] == w);
    if p != b {
        assert(order[p] != order[b]);
        assert(false);
    }
}

/// Walking `q` edges along a cycle moves at least `q` positions forward.
proof fn lemma_cycle_climb(g: Seq<Vec<usize>>, order: Seq<usize>, c: Seq<int>, q: int)
    requires
        g.len() <= usize::MAX,
        order.len() == g.len(),
        forall|a: int| 0 <= a < order.len() ==> (#[trigger] order[a]) < g.len(),
        forall|a: int, b: int|
            0 <= a < b < order.len() ==> (#[trigger] order[a]) != (#[trigger] order[b]),
        forall|v: int| 0 <= v < g.len() ==> #[trigger] order.contains(v as usize),
        order_respects(g, order),
        is_cycle(g, c),
        0 <= q < c.len(),
    ensures
        pos_of(order, c[0]) + q <= pos_of(order, c[q]),
    decreases q,
{
    if q > 0 {
        lemma_cycle_climb(g, order, c, q - 1);
        assert(is_edge(g, c[q - 1], c[q - 1 + 1]));
        lemma_edge_pos(g, order, c[q - 1], c[q]);
    }
}

/// An order of all the nodes in which every node stands before its
/// prerequisites leaves no room for a cycle.
pub proof fn lemma_respects_no_cycle(g: Seq<Vec<usize>>, order: Seq<usize>)
    requires
        g.len() <= usize::MAX,
        order.len() == g.len(),
        forall|a: int| 0 <= a < order.len() ==> (#[trigger] order[a]) < g.len(),
        forall|a: int, b: int|
            0 <= a < b < order.len() ==> (#[trigger] order[a]) != (#[trigger] order[b]),
        forall|v: int| 0 <= v < g.len() ==> #[trigger] order.contains(v as usize),
        order_respects(g, order),
    ensures
        !has_cycle(g),
{
    if has_cycle(g) {
        let c = choose|c: Seq<int>| is_cycle(g, c);
        lemma_cycle_climb(g, order, c, c.len() - 1);
        assert(is_edge(g, c[c.len() - 1], c[0]));
        lemma_edge_pos(g, order, c[c.len() - 1], c[0]);
        assert(false);
    }
}

proof fn lemma_cleared_at_least_one(marks: Seq<Mark>, v: int)
    requires
        0 <= v < marks.len(),
        marks[v] == Mark::Cleared,
    ensures
        cleared_count(marks) >= 1,
    decreases marks.len(),
{
    if v == marks.len() - 1 {
        lemma_cleared_bounds(marks.drop_last());
    } else {
        lemma_cleared_at_least_one(marks.drop_last(), v);
    }
}

/// A change of marks that neither creates nor destroys a `Permanent` mark
/// leaves the collected output consistent.
proof fn lemma_out_inv_same_perm(g: Seq<Vec<usize>>, m0: Seq<Mark>, m1: Seq<Mark>, out: Seq<usize>)
    requires
        out_inv(g, m0, out),
        m0.len() == g.len(),
        m1.len() == m0.len(),
        forall|v: int|
            0 <= v < m0.len() ==> ((#[trigger] m1[v] == Mark::Permanent) <==> m0[v]
                == Mark::Permanent),
    ensures
        out_inv(g, m1, out),
{
    assert forall|p: int|
        0 <= p < out.len() implies (#[trigger] out[p]) < g.len() && m1[out[p] as int]
        == Mark::Permanent by {
        assert(m0[out[p] as int] == Mark::Permanent);
    }
    assert forall|v: int|
        0 <= v < g.len() && #[trigger] m1[v] == Mark::Permanent implies exists|p: int|
        0 <= p < out.len() && (#[trigger] out[p]) == v by {
        assert(m0[v] == Mark::Permanent);
    }
}

/// Finishing a node whose prerequisites are all finished: marking it
/// `Permanent` and appending it keeps the collected output consistent.
proof fn lemma_out_inv_finish(
    g: Seq<Vec<usize>>,
    m0: Seq<Mark>,
    m1: Seq<Mark>,
    out0: Seq<usize>,
    u: usize,
)
    requires
        edges_ok(g),
        out_inv(g, m0, out0),
        m0.len() == g.len(),
        0 <= (u as int) < g.len(),
        m0[u as int] != Mark::Permanent,
        m1 == m0.update(u as int, Mark::Permanent),
        forall|j: int|
            0 <= j < g[u as int]@.len() ==> m0[#[trigger] g[u as int]@[j] as int]
                == Mark::Permanent,
    ensures
        out_inv(g, m1, out0.push(u)),
{
    let out = out0.push(u);
    assert forall|p: int| 0 <= p < out0.len() implies (#[trigger] out0[p]) != u by {
        assert(m0[out0[p] as int] == Mark::Permanent);
    }
    assert forall|p: int|
        0 <= p < out.len() implies (#[trigger] out[p]) < g.len() && m1[out[p] as int]
        == Mark::Permanent by {
        if p < out.len() - 1 {
            assert(out[p] == out0[p]);
            assert(m0[out0[p] as int] == Mark::Permanent);
        } else {
            assert(out[p] == u);
        }
    }
    assert forall|v: int|
        0 <= v < g.len() && #[trigger] m1[v] == Mark::Permanent implies exists|p: int|
        0 <= p < out.len() && (#[trigger] out[p]) == v by {
        if v == u as int {
            assert(out[out.len() - 1] == v);
        } else {
            assert(m0[v] == Mark::Permanent);
            let p = choose|p: int| 0 <= p < out0.len() && (#[trigger] out0[p]) == v;
            assert(out[p] == v);
        }
    }
    assert forall|p1: int, p2: int|
        0 <= p1 < p2 < out.len() implies (#[trigger] out[p1]) != (#[trigger] out[p2]) by {
        assert(out[p1] == out0[p1]);
        if p2 < out.len() - 1 {
            assert(out[p2] == out0[p2]);
        } else {
            assert(out[p2] == u);
        }
    }
    assert forall|p: int| 0 <= p < out.len() implies #[trigger] prereqs_collected(g, out, p) by {
        if p < out.len() - 1 {
            assert(out[p] == out0[p]);
            assert(prereqs_collected(g, out0, p));
            assert forall|j: int|
                0 <= j < g[out[p] as int]@.len() implies out.subrange(0, p).contains(
                #[trigger] g[out[p] as int]@[j],
            ) by {
                assert(out0.subrange(0, p).contains(g[out0[p] as int]@[j]));
                assert(out.subrange(0, p) =~= out0.subrange(0, p));
            }
        } else {
            assert(out[p] == u);
            assert forall|j: int|
                0 <= j < g[out[p] as int]@.len() implies out.subrange(0, p).contains(
                #[trigger] g[out[p] as int]@[j],
            ) by {
                let w = g[u as int]@[j];
                assert(m0[w as int] == Mark::Permanent);
                let q = choose|q: int| 0 <= q < out0.len() && (#[trigger] out0[q]) == w;
                assert(out.subrange(0, p) =~= out0);
                assert(out.subrange(0, p)[q] == w);
                assert(out.subrange(0, p).contains(w));
            }
        }
    }
}

/// Reversing a consistent completion order of all the nodes yields an order
/// of all the nodes in which every node stands before its prerequisites —
/// and so the graph has no cycle.
proof fn lemma_assemble(g: Seq<Vec<usize>>, out: Seq<usize>, order: Seq<usize>, n: int)
    requires
        0 <= n <= usize::MAX,
        g.len() == n,
        out.len() == n,
        order.len() == n,
        forall|j: int| 0 <= j < n ==> #[trigger] order[j] == out[n - 1 - j],
        forall|p: int| 0 <= p < out.len() ==> (#[trigger] out[p]) < g.len(),
        forall|p1: int, p2: int|
            0 <= p1 < p2 < out.len() ==> (#[trigger] out[p1]) != (#[trigger] out[p2]),
        forall|v: int| 0 <= v < n ==> #[trigger] out.contains(v as usize),
        forall|p: int| 0 <= p < out.len() ==> #[trigger] prereqs_collected(g, out, p),
    ensures
        forall|a: int| 0 <= a < order.len() ==> (#[trigger] order[a]) < g.len(),
        forall|a: int, b: int|
            0 <= a < b < order.len() ==> (#[trigger] order[a]) != (#[trigger] order[b]),
        forall|v: int| 0 <= v < g.len() ==> #[trigger] order.contains(v as usize),
        order_respects(g, order),
        !has_cycle(g),
{
    assert forall|a: int, b: int|
        0 <= a < b < order.len() implies (#[trigger] order[a]) != (#[trigger] order[b]) by {
        assert(order[a] == out[n - 1 - a] && order[b] == out[n - 1 - b]);
    }
    assert forall|v: int| 0 <= v < g.len() implies #[trigger] order.contains(v as usize) by {
        assert(out.contains(v as usize));
        let p = choose|p: int| 0 <= p < out.len() && out[p] == v as usize;
        assert(order[n - 1 - p] == v);
    }
    assert forall|a: int| 0 <= a < order.len() implies (#[trigger] order[a]) < g.len() by {
        assert(order[a] == out[n - 1 - a]);
    }
    assert forall|a: int| 0 <= a < order.len() implies #[trigger] prereqs_after(g, order, a) by {
        let p = n - 1 - a;
        assert(order[a] == out[p]);
        assert(prereqs_collected(g, out, p));
        assert forall|j: int|
            0 <= j < g[order[a] as int]@.len() implies order.subrange(
            a + 1,
            order.len() as int,
        ).contains(#[trigger] g[order[a] as int]@[j]) by {
            let w = g[out[p] as int]@[j];
            assert(out.subrange(0, p).contains(g[out[p] as int]@[j]));
            let q = choose|i: int|
                0 <= i < out.subrange(0, p).len() && out.subrange(0, p)[i] == w;
            assert(out[q] == w && 0 <= q < p);
            let b = n - 1 - q;
            assert(order[b] == out[q]);
            assert(a < b < order.len());
            assert(order.subrange(a + 1, order.len() as int)[b - (a + 1)] == w);
            assert(order.subrange(a + 1, order.len() as int).contains(w));
        }
    }
    assert(order_respects(g, order));
    lemma_respects_no_cycle(g, order);
}

/// Orders the nodes of `graph` so that every node stands before each of its
/// prerequisites, or returns `None` exactly when the graph holds a cycle.
#[verifier::loop_isolation(false)]
pub fn toposort(graph: &Vec<Vec<usize>>) -> (r: Option<Vec<usize>>)
    requires
        edges_ok(graph@),
    ensures
        match r {
            Some(order) => {
                &&& order@.len() == graph@.len()
                &&& forall|a: int| 0 <= a < order@.len() ==> (#[trigger] order@[a]) < graph@.len()
                &&& forall|a: int, b: int|
                    0 <= a < b < order@.len() ==> (#[trigger] order@[a]) != (#[trigger] order@[b])
                &&& forall|v: int|
                    0 <= v < graph@.len() ==> #[trigger] order@.contains(v as usize)
                &&& order_respects(graph@, order@)
                &&& !has_cycle(graph@)
            },
            None => has_cycle(graph@),
        },
{
    let ghost g = graph@;
    let n = graph.len();
    let mut marks: Vec<Mark> = Vec::new();
    let mut i: usize = 0;
    while i < n
        invariant
            i <= n,
            marks@.len() == i,
            forall|v: int| 0 <= v < i ==> #[trigger] marks@[v] == Mark::Cleared,
            cleared_count(marks@) == i,
        decreases n - i,
    {
        let ghost pre = marks@;
        marks.push(Mark::Cleared);
        proof {
            assert(marks@.drop_last() =~= pre);
        }
        i += 1;
    }
    let mut out: Vec<usize> = Vec::new();
    let mut s: usize = 0;
    while s < n
        invariant
            s <= n,
            marks@.len() == n,
            forall|v: int| 0 <= v < n ==> #[trigger] marks@[v] != Mark::Temporary,
            forall|v: int| 0 <= v < s ==> #[trigger] marks@[v] != Mark::Cleared,
            out_inv(g, marks@, out@),
            out@.len() + cleared_count(marks@) == n,
        decreases n - s,
    {
        let start_mark = marks[s];
        if matches!(start_mark, Mark::Cleared) {
            let mut stack: Vec<(usize, usize)> = Vec::new();
            let ghost pre_marks = marks@;
            marks[s] = Mark::Temporary;
            stack.push((s, 0));
            proof {
                lemma_cleared_update(pre_marks, s as int, Mark::Temporary);
                lemma_cleared_at_least_one(pre_marks, s as int);
                lemma_cleared_bounds(marks@);
                assert(stack@[0].0 == s);
                assert forall|v: int|
                    0 <= v < n implies ((#[trigger] marks@[v] == Mark::Permanent) <==> pre_marks[v]
                    == Mark::Permanent) by {}
                lemma_out_inv_same_perm(g, pre_marks, marks@, out@);
                assert forall|v: int|
                    0 <= v < g.len() && #[trigger] marks@[v] == Mark::Temporary implies exists|
                    d: int|
                    0 <= d < stack@.len() && (#[trigger] stack@[d]).0 == v by {
                    assert(v == s as int);
                    assert(stack@[0].0 == v);
                }
                lemma_rem_work_nonneg(g, stack@);
            }
            while stack.len() > 0
                invariant
                    marks@.len() == n,
                    stack_inv(g, marks@, stack@),
                    out_inv(g, marks@, out@),
                    forall|v: int| 0 <= v < s ==> #[trigger] marks@[v] != Mark::Cleared,
                    marks@[s as int] != Mark::Cleared,
                    out@.len() + cleared_count(marks@) + stack@.len() == n,
                    0 <= cleared_count(marks@),
                    0 <= rem_work(g, stack@),
                decreases cleared_count(marks@), rem_work(g, stack@), stack@.len(),
            {
                let top = stack.len() - 1;
                let frame = stack[top];
                let u = frame.0;
                let e = frame.1;
                let ghost st0 = stack@;
                let ghost mk0 = marks@;
                if e < graph[u].len() {
                    stack[top] = (u, e + 1);
                    let ghost st1 = stack@;
                    proof {
                        assert forall|d: int|
                            0 <= d < st1.len() implies (#[trigger] st1[d]).0 == st0[d].0 && (d
                            != top ==> st1[d].1 == st0[d].1) by {}
                        assert(st1.drop_last() =~= st0.drop_last());
                        assert(st1.last() == (u, (e + 1) as usize));
                        assert(rem_work(g, st1) == rem_work(g, st0) - 1);
                    }
                    let v = graph[u][e];
                    let vm = marks[v];
                    match vm {
                        Mark::Cleared => {
                            marks[v] = Mark::Temporary;
                            stack.push((v, 0));
                            let ghost st2 = stack@;
                            proof {
                                lemma_cleared_update(mk0, v as int, Mark::Temporary);
                                lemma_cleared_at_least_one(mk0, v as int);
                                lemma_cleared_bounds(marks@);
                                assert(st2.drop_last() =~= st1);
                                assert(st2.last() == (v, 0usize));
                                assert(g[u as int]@[e as int] == v);
                                assert(is_edge(g, u as int, v as int));
                                assert forall|d: int|
                                    0 <= d < st2.len() implies (#[trigger] st2[d]).0 < g.len()
                                    && st2[d].1 <= g[st2[d].0 as int]@.len() && marks@[st2[d].0
                                    as int] == Mark::Temporary by {
                                    if d < st2.len() - 1 {
                                        assert(st2[d] == st1[d]);
                                        assert(st1[d].0 == st0[d].0);
                                        assert(mk0[st0[d].0 as int] == Mark::Temporary);
                                        assert(st0[d].0 != v);
                                    }
                                }
                                assert forall|w: int|
                                    0 <= w < g.len() && #[trigger] marks@[w] == Mark::Temporary
                                    implies exists|d: int|
                                    0 <= d < st2.len() && (#[trigger] st2[d]).0 == w by {
                                    if w == v as int {
                                        assert(st2[st2.len() - 1].0 == w);
                                    } else {
                                        assert(mk0[w] == Mark::Temporary);
                                        let d = choose|d: int|
                                            0 <= d < st0.len() && (#[trigger] st0[d]).0 == w;
                                        assert(st2[d].0 == w);
                                    }
                                }
                                assert forall|d1: int, d2: int|
                                    0 <= d1 < d2 < st2.len() implies (#[trigger] st2[d1]).0 != (
                                    #[trigger] st2[d2]).0 by {
                                    assert(st2[d1].0 == st0[d1].0);
                                    if d2 == st2.len() - 1 {
                                        assert(mk0[st0[d1].0 as int] == Mark::Temporary);
                                        assert(mk0[v as int] == Mark::Cleared);
                                    } else {
                                        assert(st2[d2].0 == st0[d2].0);
                                    }
                                }
                                assert forall|d: int|
                                    0 <= d < st2.len() - 1 implies #[trigger] is_edge(
                                    g,
                                    st2[d].0 as int,
                                    st2[d + 1].0 as int,
                                ) by {
                                    if d == st2.len() - 2 {
                                        assert(st2[d].0 == u && st2[d + 1].0 == v);
                                    } else {
                                        assert(st2[d].0 == st0[d].0 && st2[d + 1].0 == st0[d
                                            + 1].0);
                                        assert(is_edge(g, st0[d].0 as int, st0[d + 1].0 as int));
                                    }
                                }
                                assert forall|d: int, j: int|
                                    0 <= d < st2.len() && 0 <= j < (#[trigger] st2[d]).1
                                    implies marks@[#[trigger] g[st2[d].0 as int]@[j] as int]
                                    == Mark::Permanent || (exists|d2: int|
                                    d < d2 < st2.len() && (#[trigger] st2[d2]).0 == g[st2[d].0
                                    as int]@[j]) by {
                                    let w = g[st2[d].0 as int]@[j];
                                    if d == st2.len() - 1 {
                                        assert(false);
                                    } else if d == top && j == e {
                                        assert(st2[st2.len() - 1].0 == w);
                                    } else {
                                        assert(st2[d].0 == st0[d].0 && j < st0[d].1);
                                        assert(mk0[g[st0[d].0 as int]@[j] as int]
                                            == Mark::Permanent || (exists|d2: int|
                                            d < d2 < st0.len() && (#[trigger] st0[d2]).0 == g[
                                            st0[d].0 as int]@[j]));
                                        if mk0[w as int] == Mark::Permanent {
                                            assert(w != v);
                                        } else {
                                            let d2 = choose|d2: int|
                                                d < d2 < st0.len() && (#[trigger] st0[d2]).0 == w;
                                            assert(st2[d2].0 == w);
                                        }
                                    }
                                }
                                assert forall|w: int|
                                    0 <= w < n implies ((#[trigger] marks@[w] == Mark::Permanent)
                                    <==> mk0[w] == Mark::Permanent) by {}
                                lemma_out_inv_same_perm(g, mk0, marks@, out@);
                                lemma_rem_work_nonneg(g, st2);
                            }
                        },
                        Mark::Temporary => {
                            proof {
                                assert(mk0[v as int] == Mark::Temporary);
                                let dv = choose|d: int|
                                    0 <= d < st0.len() && (#[trigger] st0[d]).0 == v;
                                let m = st1.len() - dv;
                                let c = Seq::new(m as nat, |q: int| st1[dv + q].0 as int);
                                assert(c.len() >= 1);
                                assert forall|q: int|
                                    0 <= q < c.len() - 1 implies #[trigger] is_edge(
                                    g,
                                    c[q],
                                    c[q + 1],
                                ) by {
                                    assert(c[q] == st1[dv + q].0 as int);
                                    assert(c[q + 1] == st1[dv + q + 1].0 as int);
                                    assert(st1[dv + q].0 == st0[dv + q].0);
                                    assert(st1[dv + q + 1].0 == st0[dv + q + 1].0);
                                    assert(is_edge(g, st0[dv + q].0 as int, st0[dv + q + 1].0
                                        as int));
                                }
                                assert(c[c.len() - 1] == st1[st1.len() - 1].0 as int);
                                assert(st1[st1.len() - 1].0 == u);
                                assert(g[u as int]@[e as int] == v);
                                assert(is_edge(g, u as int, v as int));
                                assert(c[0] == v as int);
                                assert(is_cycle(g, c));
                            }
                            return None;
                        },
                        Mark::Permanent => {
                            proof {
                                assert forall|d: int|
                                    0 <= d < st1.len() implies (#[trigger] st1[d]).0 < g.len()
                                    && st1[d].1 <= g[st1[d].0 as int]@.len() && marks@[st1[d].0
                                    as int] == Mark::Temporary by {
                                    assert(st1[d].0 == st0[d].0);
                                    if d != top {
                                        assert(st1[d].1 == st0[d].1);
                                    }
                                }
                                assert forall|w: int|
                                    0 <= w < g.len() && #[trigger] marks@[w] == Mark::Temporary
                                    implies exists|d: int|
                                    0 <= d < st1.len() && (#[trigger] st1[d]).0 == w by {
                                    let d = choose|d: int|
                                        0 <= d < st0.len() && (#[trigger] st0[d]).0 == w;
                                    assert(st1[d].0 == w);
                                }
                                assert forall|d1: int, d2: int|
                                    0 <= d1 < d2 < st1.len() implies (#[trigger] st1[d1]).0 != (
                                    #[trigger] st1[d2]).0 by {
                                    assert(st1[d1].0 == st0[d1].0 && st1[d2].0 == st0[d2].0);
                                }
                                assert forall|d: int|
                                    0 <= d < st1.len() - 1 implies #[trigger] is_edge(
                                    g,
                                    st1[d].0 as int,
                                    st1[d + 1].0 as int,
                                ) by {
                                    assert(st1[d].0 == st0[d].0 && st1[d + 1].0 == st0[d + 1].0);
                                    assert(is_edge(g, st0[d].0 as int, st0[d + 1].0 as int));
                                }
                                assert forall|d: int, j: int|
                                    0 <= d < st1.len() && 0 <= j < (#[trigger] st1[d]).1
                                    implies marks@[#[trigger] g[st1[d].0 as int]@[j] as int]
                                    == Mark::Permanent || (exists|d2: int|
                                    d < d2 < st1.len() && (#[trigger] st1[d2]).0 == g[st1[d].0
                                    as int]@[j]) by {
                                    let w = g[st1[d].0 as int]@[j];
                                    if d == top && j == e {
                                        assert(w == v);
                                    } else {
                                        assert(st1[d].0 == st0[d].0 && j < st0[d].1);
                                        assert(mk0[g[st0[d].0 as int]@[j] as int]
                                            == Mark::Permanent || (exists|d2: int|
                                            d < d2 < st0.len() && (#[trigger] st0[d2]).0 == g[
                                            st0[d].0 as int]@[j]));
                                        if mk0[w as int] != Mark::Permanent {
                                            let d2 = choose|d2: int|
                                                d < d2 < st0.len() && (#[trigger] st0[d2]).0 == w;
                                            assert(st1[d2].0 == w);
                                        }
                                    }
                                }
                                lemma_rem_work_nonneg(g, st1);
                            }
                        },
                    }
                } else {
                    let ghost out0 = out@;
                    let _ = stack.pop();
                    marks[u] = Mark::Permanent;
                    out.push(u);
                    let ghost st1 = stack@;
                    proof {
                        lemma_cleared_update(mk0, u as int, Mark::Permanent);
                        lemma_cleared_bounds(marks@);
                        assert(st1 =~= st0.drop_last());
                        assert(out@.drop_last() =~= out0);
                        assert(out@.last() == u);
                        assert(st0[st0.len() - 1] == (u, e));
                        assert(rem_work(g, st0) == rem_work(g, st1) + g[u as int]@.len() - e);
                        assert forall|p: int|
                            0 <= p < out0.len() implies (#[trigger] out0[p]) != u by {
                            assert(mk0[out0[p] as int] == Mark::Permanent);
                            assert(mk0[u as int] == Mark::Temporary);
                        }
                        assert forall|d: int|
                            0 <= d < st1.len() implies (#[trigger] st1[d]).0 < g.len() && st1[d].1
                            <= g[st1[d].0 as int]@.len() && marks@[st1[d].0 as int]
                            == Mark::Temporary by {
                            assert(st1[d] == st0[d]);
                            assert(mk0[st0[d].0 as int] == Mark::Temporary);
                            assert(st0[d].0 != st0[st0.len() - 1].0);
                        }
                        assert forall|w: int|
                            0 <= w < g.len() && #[trigger] marks@[w] == Mark::Temporary
                            implies exists|d: int|
                            0 <= d < st1.len() && (#[trigger] st1[d]).0 == w by {
                            assert(mk0[w] == Mark::Temporary);
                            let d = choose|d: int|
                                0 <= d < st0.len() && (#[trigger] st0[d]).0 == w;
                            if d == st0.len() - 1 {
                                assert(w == u as int);
                                assert(false);
                            }
                            assert(st1[d].0 == w);
                        }
                        assert forall|d1: int, d2: int|
                            0 <= d1 < d2 < st1.len() implies (#[trigger] st1[d1]).0 != (
                            #[trigger] st1[d2]).0 by {
                            assert(st1[d1].0 == st0[d1].0 && st1[d2].0 == st0[d2].0);
                        }
                        assert forall|d: int|
                            0 <= d < st1.len() - 1 implies #[trigger] is_edge(
                            g,
                            st1[d].0 as int,
                            st1[d + 1].0 as int,
                        ) by {
                            assert(st1[d].0 == st0[d].0 && st1[d + 1].0 == st0[d + 1].0);
                            assert(is_edge(g, st0[d].0 as int, st0[d + 1].0 as int));
                        }
                        assert forall|d: int, j: int|
                            0 <= d < st1.len() && 0 <= j < (#[trigger] st1[d]).1 implies marks@[
                            #[trigger] g[st1[d].0 as int]@[j] as int] == Mark::Permanent || (exists|
                            d2: int|
                            d < d2 < st1.len() && (#[trigger] st1[d2]).0 == g[st1[d].0
                            as int]@[j]) by {
                            let w = g[st1[d].0 as int]@[j];
                            assert(st1[d] == st0[d] && j < st0[d].1);
                            assert(mk0[g[st0[d].0 as int]@[j] as int] == Mark::Permanent || (exists|
                                d2: int|
                                d < d2 < st0.len() && (#[trigger] st0[d2]).0 == g[st0[d].0
                                as int]@[j]));
                            if mk0[w as int] != Mark::Permanent {
                                let d2 = choose|d2: int|
                                    d < d2 < st0.len() && (#[trigger] st0[d2]).0 == w;
                                if d2 == st0.len() - 1 {
                                    assert(w == u);
                                } else {
                                    assert(st1[d2].0 == w);
                                }
                            }
                        }
                        assert forall|j: int|
                            0 <= j < g[u as int]@.len() implies mk0[#[trigger] g[u as int]@[j]
                            as int] == Mark::Permanent by {
                            assert(j < st0[st0.len() - 1].1);
                            assert(mk0[g[st0[st0.len() - 1].0 as int]@[j] as int]
                                == Mark::Permanent || (exists|d2: int|
                                st0.len() - 1 < d2 < st0.len() && (#[trigger] st0[d2]).0 == g[st0[
                                st0.len() - 1].0 as int]@[j]));
                        }
                        lemma_out_inv_finish(g, mk0, marks@, out0, u);
                        assert(out@ == out0.push(u));
                        lemma_rem_work_nonneg(g, st1);
                    }
                }
            }
            proof {
                assert forall|v: int|
                    0 <= v < n implies #[trigger] marks@[v] != Mark::Temporary by {
                    if marks@[v] == Mark::Temporary {
                        let d = choose|d: int|
                            0 <= d < stack@.len() && (#[trigger] stack@[d]).0 == v;
                        assert(false);
                    }
                }
            }
        }
        s += 1;
    }
    proof {
        lemma_cleared_none(marks@);
    }
    let mut order: Vec<usize> = Vec::new();
    let mut i: usize = 0;
    while i < n
        invariant
            i <= n,
            out@.len() == n,
            order@.len() == i,
            forall|j: int| 0 <= j < i ==> #[trigger] order@[j] == out@[n - 1 - j],
        decreases n - i,
    {
        order.push(out[n - 1 - i]);
        i += 1;
    }
    proof {
        assert forall|v: int| 0 <= v < n implies #[trigger] out@.contains(v as usize) by {
            assert(marks@[v] == Mark::Permanent);
            let p = choose|p: int| 0 <= p < out@.len() && (#[trigger] out@[p]) == v;
        }
        assert(g.len() <= usize::MAX);
        lemma_assemble(g, out@, order@, n as int);
    }
    Some(order)
}

} // verus!
