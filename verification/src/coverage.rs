//! What a search reaches: exactly the vertices to which a path leads from its
//! root that touches nothing explored before.

use crate::counting::lemma_bounded_set;
use crate::graph::has_edge;
use crate::graph::neighbors;
use crate::graph::within;
use crate::paths::lemma_closed_holds_reach;
use crate::paths::lemma_reaches_outside_after_edge;
use crate::paths::lemma_reaches_outside_less;
use crate::paths::lemma_reaches_self;
use crate::paths::reaches_outside;
use crate::traversal::Walk;
use crate::traversal::confined;
use crate::traversal::lemma_scan_grows;
use crate::traversal::lemma_visit_grows;
use crate::traversal::scan;
use crate::traversal::visit;
use vstd::prelude::*;

verus! {

/// `x` was explored between `w` and `r`.
pub open spec fn fresh_in(w: Walk, r: Walk, x: i32) -> bool {
    r.explored.contains(x) && !w.explored.contains(x)
}

/// What was explored between `w` and `r` is reached from `root` outside
/// `base`, and every edge from it leads to something explored in `r`.
pub open spec fn covers(adj: Map<i32, Seq<i32>>, base: Set<i32>, root: i32, w: Walk, r: Walk) -> bool {
    &&& forall|x: i32| #[trigger] fresh_in(w, r, x) ==> reaches_outside(adj, base, root, x)
    &&& forall|x: i32, y: i32|
        #![trigger fresh_in(w, r, x), has_edge(adj, x, y)]
        fresh_in(w, r, x) && has_edge(adj, x, y) ==> r.explored.contains(y)
}

/// A search explores only what its root reaches outside what was explored
/// before, and it leaves no edge from there unfollowed.
pub proof fn lemma_visit_covers(
    adj: Map<i32, Seq<i32>>,
    first_pass: bool,
    v: i32,
    w: Walk,
    depth: nat,
    bound: int,
)
    requires
        within(adj, bound),
        bound <= i32::MAX,
        1 <= v <= bound,
        !w.explored.contains(v),
        confined(w.explored, bound),
        0 <= w.load(first_pass) <= w.explored.len(),
        depth + w.explored.len() >= i32::MAX,
    ensures
        covers(adj, w.explored, v, w, visit(adj, first_pass, v, w, depth)),
    decreases depth, 0nat,
{
    lemma_bounded_set(w.explored, bound);
    let inner = w.enter(v);
    lemma_bounded_set(inner.explored, bound);
    let below = (depth - 1) as nat;
    lemma_scan_grows(adj, first_pass, v, 0, inner, below, bound);
    lemma_scan_covers(adj, first_pass, v, 0, inner, below, bound, w.explored);
    let done = scan(adj, first_pass, v, 0, inner, below);
    let r = done.leave(first_pass, v);
    assert(r == visit(adj, first_pass, v, w, depth));
    assert(r.explored == done.explored);
    let list = neighbors(adj, v);
    assert forall|x: i32| #[trigger] fresh_in(w, r, x) implies reaches_outside(
        adj,
        w.explored,
        v,
        x,
    ) by {
        if x == v {
            lemma_reaches_self(adj, w.explored, v);
        } else {
            assert(fresh_in(inner, done, x));
        }
    }
    assert forall|x: i32, y: i32|
        #![trigger fresh_in(w, r, x), has_edge(adj, x, y)]
        fresh_in(w, r, x) && has_edge(adj, x, y) implies r.explored.contains(y) by {
        if x == v {
            let j = choose|j: int| 0 <= j < list.len() && list[j] == y;
            assert(done.explored.contains(list[j]));
        } else {
            assert(fresh_in(inner, done, x));
        }
    }
}

/// The searches of the neighbours of a pending vertex `v` explore only what
/// `v` reaches outside `base`, which is part of what was explored before and
/// does not hold `v`; they leave no edge from there unfollowed, and no
/// neighbour from position `i` on unexplored.
pub proof fn lemma_scan_covers(
    adj: Map<i32, Seq<i32>>,
    first_pass: bool,
    v: i32,
    i: int,
    w: Walk,
    depth: nat,
    bound: int,
    base: Set<i32>,
)
    requires
        within(adj, bound),
        bound <= i32::MAX,
        0 <= i <= neighbors(adj, v).len(),
        w.explored.contains(v),
        confined(w.explored, bound),
        0 <= w.load(first_pass) < w.explored.len(),
        depth + w.explored.len() >= i32::MAX,
        base.subset_of(w.explored),
        !base.contains(v),
    ensures
        covers(adj, base, v, w, scan(adj, first_pass, v, i, w, depth)),
        forall|j: int|
            i <= j < neighbors(adj, v).len() ==> scan(
                adj,
                first_pass,
                v,
                i,
                w,
                depth,
            ).explored.contains(#[trigger] neighbors(adj, v)[j]),
    decreases depth, 1 + neighbors(adj, v).len() - i,
{
    let list = neighbors(adj, v);
    lemma_bounded_set(w.explored, bound);
    if i < list.len() {
        let next = list[i];
        assert(has_edge(adj, v, next));
        let after = if w.explored.contains(next) {
            w
        } else {
            visit(adj, first_pass, next, w, depth)
        };
        if !w.explored.contains(next) {
            lemma_visit_grows(adj, first_pass, next, w, depth, bound);
            lemma_visit_covers(adj, first_pass, next, w, depth, bound);
        }
        lemma_bounded_set(after.explored, bound);
        vstd::set_lib::lemma_len_subset(w.explored, after.explored);
        lemma_scan_grows(adj, first_pass, v, i + 1, after, depth, bound);
        lemma_scan_covers(adj, first_pass, v, i + 1, after, depth, bound, base);
        let r = scan(adj, first_pass, v, i + 1, after, depth);
        assert(r == scan(adj, first_pass, v, i, w, depth));
        assert forall|x: i32| #[trigger] fresh_in(w, r, x) implies reaches_outside(
            adj,
            base,
            v,
            x,
        ) by {
            if after.explored.contains(x) {
                assert(fresh_in(w, after, x));
                lemma_reaches_outside_less(adj, w.explored, base, next, x);
                lemma_reaches_outside_after_edge(adj, base, v, next, x);
            } else {
                assert(fresh_in(after, r, x));
            }
        }
        assert forall|x: i32, y: i32|
            #![trigger fresh_in(w, r, x), has_edge(adj, x, y)]
            fresh_in(w, r, x) && has_edge(adj, x, y) implies r.explored.contains(y) by {
            if after.explored.contains(x) {
                assert(fresh_in(w, after, x));
                assert(after.explored.contains(y));
            } else {
                assert(fresh_in(after, r, x));
            }
        }
        assert forall|j: int| i <= j < list.len() implies r.explored.contains(
            #[trigger] list[j],
        ) by {
            if j == i {
                assert(after.explored.contains(next));
            }
        }
    }
}

/// A search explores exactly what its root reaches outside what was explored before.
pub proof fn lemma_visit_reach(
    adj: Map<i32, Seq<i32>>,
    first_pass: bool,
    v: i32,
    w: Walk,
    depth: nat,
    bound: int,
)
    requires
        within(adj, bound),
        bound <= i32::MAX,
        1 <= v <= bound,
        !w.explored.contains(v),
        confined(w.explored, bound),
        0 <= w.load(first_pass) <= w.explored.len(),
        depth + w.explored.len() >= i32::MAX,
    ensures
        forall|x: i32|
            visit(adj, first_pass, v, w, depth).explored.contains(x) <==> w.explored.contains(x)
                || #[trigger] reaches_outside(adj, w.explored, v, x),
{
    let r = visit(adj, first_pass, v, w, depth);
    lemma_visit_grows(adj, first_pass, v, w, depth, bound);
    lemma_visit_covers(adj, first_pass, v, w, depth, bound);
    assert forall|x: i32|
        r.explored.contains(x) <==> w.explored.contains(x) || #[trigger] reaches_outside(
            adj,
            w.explored,
            v,
            x,
        ) by {
        if r.explored.contains(x) && !w.explored.contains(x) {
            assert(fresh_in(w, r, x));
        }
        if reaches_outside(adj, w.explored, v, x) {
            assert forall|a: i32, b: i32|
                r.explored.contains(a) && !w.explored.contains(a) && #[trigger] has_edge(
                    adj,
                    a,
                    b,
                ) implies r.explored.contains(b) by {
                assert(fresh_in(w, r, a));
            }
            lemma_closed_holds_reach(adj, w.explored, r.explored, v, x);
        }
    }
}

} // verus!
