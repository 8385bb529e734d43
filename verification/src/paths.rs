//! Paths in an adjacency structure, and which vertex reaches which.

use crate::graph::has_edge;
use crate::graph::within;
use vstd::prelude::*;

verus! {

/// `p` is a path: it has a vertex, and from each of its vertices an edge leads to the next.
pub open spec fn is_path(adj: Map<i32, Seq<i32>>, p: Seq<i32>) -> bool {
    p.len() > 0 && forall|i: int| 0 < i < p.len() ==> has_edge(adj, p[i - 1], #[trigger] p[i])
}

/// `p` is a path from `from` to `to`.
pub open spec fn joins(adj: Map<i32, Seq<i32>>, p: Seq<i32>, from: i32, to: i32) -> bool {
    is_path(adj, p) && p[0] == from && p[p.len() - 1] == to
}

/// No vertex of `p` is in `blocked`.
pub open spec fn clear_of(p: Seq<i32>, blocked: Set<i32>) -> bool {
    forall|i: int| 0 <= i < p.len() ==> !blocked.contains(#[trigger] p[i])
}

/// There is a path from `from` to `to`. Every vertex reaches itself.
pub open spec fn reaches(adj: Map<i32, Seq<i32>>, from: i32, to: i32) -> bool {
    exists|p: Seq<i32>| #[trigger] joins(adj, p, from, to)
}

/// There is a path from `from` to `to` that touches no vertex of `blocked`.
pub open spec fn reaches_outside(
    adj: Map<i32, Seq<i32>>,
    blocked: Set<i32>,
    from: i32,
    to: i32,
) -> bool {
    exists|p: Seq<i32>| #[trigger] joins(adj, p, from, to) && clear_of(p, blocked)
}

/// Each of the two reaches the other.
pub open spec fn strongly_connected(adj: Map<i32, Seq<i32>>, a: i32, b: i32) -> bool {
    reaches(adj, a, b) && reaches(adj, b, a)
}

/// Every vertex reaches itself, outside every set that does not hold it.
pub proof fn lemma_reaches_self(adj: Map<i32, Seq<i32>>, blocked: Set<i32>, v: i32)
    ensures
        reaches(adj, v, v),
        !blocked.contains(v) ==> reaches_outside(adj, blocked, v, v),
{
    let p = seq![v];
    assert(joins(adj, p, v, v));
}

/// A path with an edge before it is a path.
pub proof fn lemma_path_after_edge(adj: Map<i32, Seq<i32>>, p: Seq<i32>, from: i32)
    requires
        is_path(adj, p),
        has_edge(adj, from, p[0]),
    ensures
        is_path(adj, seq![from] + p),
        (seq![from] + p)[0] == from,
        (seq![from] + p).last() == p.last(),
{
    let q = seq![from] + p;
    assert forall|i: int| 0 < i < q.len() implies has_edge(adj, q[i - 1], #[trigger] q[i]) by {
        if i > 1 {
            assert(q[i] == p[i - 1]);
            assert(q[i - 1] == p[i - 2]);
            assert(has_edge(adj, p[i - 1 - 1], p[i - 1]));
        }
    }
}

/// Two paths, the second from where the first ends, make one.
pub proof fn lemma_path_join(adj: Map<i32, Seq<i32>>, p: Seq<i32>, q: Seq<i32>)
    requires
        is_path(adj, p),
        is_path(adj, q),
        p.last() == q[0],
    ensures
        is_path(adj, p + q.subrange(1, q.len() as int)),
        (p + q.subrange(1, q.len() as int))[0] == p[0],
        (p + q.subrange(1, q.len() as int)).last() == q.last(),
{
    let tail = q.subrange(1, q.len() as int);
    let r = p + tail;
    assert forall|i: int| 0 < i < r.len() implies has_edge(adj, r[i - 1], #[trigger] r[i]) by {
        if i < p.len() {
            assert(r[i] == p[i]);
            assert(r[i - 1] == p[i - 1]);
        } else {
            let j = i - p.len() + 1;
            assert(r[i] == q[j]);
            assert(has_edge(adj, q[j - 1], q[j]));
            if i == p.len() {
                assert(r[i - 1] == p[p.len() - 1]);
            } else {
                assert(r[i - 1] == q[j - 1]);
            }
        }
    }
}

/// What reaches a vertex reaches what the vertex reaches.
pub proof fn lemma_reaches_trans(adj: Map<i32, Seq<i32>>, a: i32, b: i32, c: i32)
    requires
        reaches(adj, a, b),
        reaches(adj, b, c),
    ensures
        reaches(adj, a, c),
{
    let p = choose|p: Seq<i32>| #[trigger] joins(adj, p, a, b);
    let q = choose|q: Seq<i32>| #[trigger] joins(adj, q, b, c);
    lemma_path_join(adj, p, q);
    assert(joins(adj, p + q.subrange(1, q.len() as int), a, c));
}

/// A vertex reaches its neighbours.
pub proof fn lemma_edge_reaches(adj: Map<i32, Seq<i32>>, a: i32, b: i32)
    requires
        has_edge(adj, a, b),
    ensures
        reaches(adj, a, b),
{
    let p = seq![a, b];
    assert forall|i: int| 0 < i < p.len() implies has_edge(adj, p[i - 1], #[trigger] p[i]) by {}
    assert(joins(adj, p, a, b));
}

/// A path that is clear of a set is clear of what the set includes.
pub proof fn lemma_reaches_outside_less(
    adj: Map<i32, Seq<i32>>,
    blocked: Set<i32>,
    less: Set<i32>,
    from: i32,
    to: i32,
)
    requires
        reaches_outside(adj, blocked, from, to),
        less.subset_of(blocked),
    ensures
        reaches_outside(adj, less, from, to),
        reaches(adj, from, to),
{
    let p = choose|p: Seq<i32>| #[trigger] joins(adj, p, from, to) && clear_of(p, blocked);
    assert(joins(adj, p, from, to) && clear_of(p, less));
}

/// An edge before a path outside a set, from a vertex outside it.
pub proof fn lemma_reaches_outside_after_edge(
    adj: Map<i32, Seq<i32>>,
    blocked: Set<i32>,
    from: i32,
    next: i32,
    to: i32,
)
    requires
        has_edge(adj, from, next),
        !blocked.contains(from),
        reaches_outside(adj, blocked, next, to),
    ensures
        reaches_outside(adj, blocked, from, to),
{
    let p = choose|p: Seq<i32>| #[trigger] joins(adj, p, next, to) && clear_of(p, blocked);
    lemma_path_after_edge(adj, p, from);
    let q = seq![from] + p;
    assert forall|i: int| 0 <= i < q.len() implies !blocked.contains(#[trigger] q[i]) by {
        if i > 0 {
            assert(q[i] == p[i - 1]);
        }
    }
    assert(joins(adj, q, from, to) && clear_of(q, blocked));
}

/// The vertices of a path in a set that edges do not leave, but into `blocked`:
/// a path that starts in the set and is clear of `blocked` stays in the set.
proof fn lemma_path_stays(
    adj: Map<i32, Seq<i32>>,
    blocked: Set<i32>,
    closed: Set<i32>,
    p: Seq<i32>,
    i: int,
)
    requires
        is_path(adj, p),
        clear_of(p, blocked),
        closed.contains(p[0]),
        forall|a: i32, b: i32|
            closed.contains(a) && !blocked.contains(a) && #[trigger] has_edge(adj, a, b)
                ==> closed.contains(b),
        0 <= i < p.len(),
    ensures
        closed.contains(p[i]),
    decreases i,
{
    if i > 0 {
        lemma_path_stays(adj, blocked, closed, p, i - 1);
        assert(has_edge(adj, p[i - 1], p[i]));
        assert(!blocked.contains(p[i - 1]));
    }
}

/// What a vertex of a set reaches outside `blocked` is in the set, if edges
/// from the set's vertices outside `blocked` do not leave the set.
pub proof fn lemma_closed_holds_reach(
    adj: Map<i32, Seq<i32>>,
    blocked: Set<i32>,
    closed: Set<i32>,
    from: i32,
    to: i32,
)
    requires
        closed.contains(from),
        forall|a: i32, b: i32|
            closed.contains(a) && !blocked.contains(a) && #[trigger] has_edge(adj, a, b)
                ==> closed.contains(b),
        reaches_outside(adj, blocked, from, to),
    ensures
        closed.contains(to),
        !blocked.contains(to),
{
    let p = choose|p: Seq<i32>| #[trigger] joins(adj, p, from, to) && clear_of(p, blocked);
    lemma_path_stays(adj, blocked, closed, p, p.len() - 1);
    assert(!blocked.contains(p[p.len() - 1]));
}

/// In a graph over `1..=n`, what a vertex of `1..=n` reaches lies in `1..=n`.
pub proof fn lemma_reaches_within(adj: Map<i32, Seq<i32>>, n: int, from: i32, to: i32)
    requires
        within(adj, n),
        1 <= from <= n,
        reaches(adj, from, to),
    ensures
        1 <= to <= n,
{
    let p = choose|p: Seq<i32>| #[trigger] joins(adj, p, from, to);
    if p.len() > 1 {
        assert(has_edge(adj, p[p.len() - 1 - 1], p[p.len() - 1]));
    }
}

/// Every vertex of a path is reached from its first, and reaches its last.
pub proof fn lemma_path_parts(adj: Map<i32, Seq<i32>>, p: Seq<i32>, i: int)
    requires
        is_path(adj, p),
        0 <= i < p.len(),
    ensures
        reaches(adj, p[0], p[i]),
        reaches(adj, p[i], p[p.len() - 1]),
{
    let head = p.subrange(0, i + 1);
    assert forall|k: int| 0 < k < head.len() implies has_edge(adj, head[k - 1], #[trigger] head[k]) by {
        assert(has_edge(adj, p[k - 1], p[k]));
    }
    assert(joins(adj, head, p[0], p[i]));
    let tail = p.subrange(i, p.len() as int);
    assert forall|k: int| 0 < k < tail.len() implies has_edge(adj, tail[k - 1], #[trigger] tail[k]) by {
        assert(tail[k] == p[i + k]);
        assert(has_edge(adj, p[i + k - 1], p[i + k]));
    }
    assert(joins(adj, tail, p[i], p[p.len() - 1]));
}

/// Where `f` takes every edge of one graph to an edge of another, it takes
/// what reaches what to what reaches what.
pub proof fn lemma_reaches_mapped(
    adj: Map<i32, Seq<i32>>,
    other: Map<i32, Seq<i32>>,
    f: spec_fn(i32) -> i32,
    from: i32,
    to: i32,
)
    requires
        forall|a: i32, b: i32| #[trigger] has_edge(adj, a, b) ==> has_edge(other, f(a), f(b)),
        reaches(adj, from, to),
    ensures
        reaches(other, f(from), f(to)),
{
    let p = choose|p: Seq<i32>| #[trigger] joins(adj, p, from, to);
    let q = Seq::new(p.len(), |i: int| f(p[i]));
    assert forall|i: int| 0 < i < q.len() implies has_edge(other, q[i - 1], #[trigger] q[i]) by {
        assert(has_edge(adj, p[i - 1], p[i]));
    }
    assert(joins(other, q, f(from), f(to)));
}

/// Where every edge of one graph is, turned round, an edge of another, what
/// reaches what in the one is reached by it in the other.
pub proof fn lemma_reaches_turned(
    adj: Map<i32, Seq<i32>>,
    other: Map<i32, Seq<i32>>,
    from: i32,
    to: i32,
)
    requires
        forall|a: i32, b: i32| #[trigger] has_edge(adj, a, b) ==> has_edge(other, b, a),
        reaches(adj, from, to),
    ensures
        reaches(other, to, from),
{
    let p = choose|p: Seq<i32>| #[trigger] joins(adj, p, from, to);
    let q = Seq::new(p.len(), |i: int| p[p.len() - 1 - i]);
    assert forall|i: int| 0 < i < q.len() implies has_edge(other, q[i - 1], #[trigger] q[i]) by {
        let k = p.len() - i;
        assert(has_edge(adj, p[k - 1], p[k]));
    }
    assert(joins(other, q, to, from));
}

} // verus!
