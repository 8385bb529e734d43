//! The order in which the searches of the first pass finish.
//!
//! A finished vertex either has a vertex strongly connected to it that
//! finishes later, or it finishes later than everything that it reaches. This
//! is what makes the second pass, which takes the vertices by finishing time
//! from the last down, find one component with each search.

use crate::counting::lemma_bounded_set;
use crate::coverage::lemma_scan_covers;
use crate::graph::has_edge;
use crate::graph::neighbors;
use crate::graph::within;
use crate::paths::is_path;
use crate::paths::joins;
use crate::paths::lemma_edge_reaches;
use crate::paths::lemma_path_parts;
use crate::paths::lemma_reaches_self;
use crate::paths::lemma_reaches_trans;
use crate::paths::reaches;
use crate::paths::strongly_connected;
use crate::traversal::Walk;
use crate::traversal::confined;
use crate::traversal::lemma_scan_grows;
use crate::traversal::lemma_sweep_settled;
use crate::traversal::lemma_visit_grows;
use crate::traversal::scan;
use crate::traversal::sweep;
use crate::traversal::visit;
use vstd::prelude::*;

verus! {

/// The search of `s` has begun and has not finished.
pub open spec fn pending(w: Walk, s: i32) -> bool {
    w.explored.contains(s) && !w.table.contains_key(s)
}

/// `s` is strongly connected to `x` and finishes after it: it is pending,
/// or it has the later finishing time.
pub open spec fn outranks(adj: Map<i32, Seq<i32>>, w: Walk, x: i32, s: i32) -> bool {
    strongly_connected(adj, x, s) && (pending(w, s) || (w.table.contains_key(s) && w.table[s]
        > w.table[x]))
}

/// Some vertex that is strongly connected to `x` finishes after it.
pub open spec fn outranked(adj: Map<i32, Seq<i32>>, w: Walk, x: i32) -> bool {
    exists|s: i32| #[trigger] outranks(adj, w, x, s)
}

/// Everything that `x` reaches has finished, and not later than `x`.
pub open spec fn dominates(adj: Map<i32, Seq<i32>>, w: Walk, x: i32) -> bool {
    forall|y: i32| #[trigger] reaches(adj, x, y) ==> w.table.contains_key(y) && w.table[y]
        <= w.table[x]
}

/// Every finished vertex is outranked, or dominates what it reaches.
pub open spec fn ranked(adj: Map<i32, Seq<i32>>, w: Walk) -> bool {
    forall|x: i32| #[trigger]
        w.table.contains_key(x) ==> outranked(adj, w, x) || dominates(adj, w, x)
}

/// What holds of the first pass at any time: the finished vertices are
/// explored, no finishing time is later than the last one handed out, every
/// edge from a finished vertex leads to an explored one, and the finished
/// vertices are ranked.
pub open spec fn orderly(adj: Map<i32, Seq<i32>>, w: Walk) -> bool {
    &&& forall|x: i32| #[trigger]
        w.table.contains_key(x) ==> w.explored.contains(x) && w.table[x] <= w.current
    &&& forall|x: i32, z: i32|
        w.table.contains_key(x) && #[trigger] has_edge(adj, x, z) ==> w.explored.contains(z)
    &&& ranked(adj, w)
}

/// Every pending vertex reaches `v`.
pub open spec fn chained(adj: Map<i32, Seq<i32>>, w: Walk, v: i32) -> bool {
    forall|s: i32| #[trigger] pending(w, s) ==> reaches(adj, s, v)
}

/// A finished vertex stays outranked or dominating while the pass goes on:
/// as long as finishing times stay, new ones are later than the old, and
/// what was pending is pending or finished.
proof fn lemma_ranked_kept(adj: Map<i32, Seq<i32>>, w: Walk, r: Walk)
    requires
        ranked(adj, w),
        forall|x: i32| #[trigger]
            w.table.contains_key(x) ==> r.table.contains_key(x) && r.table[x] == w.table[x]
                && w.table[x] <= w.current,
        forall|x: i32| #[trigger]
            r.table.contains_key(x) && !w.table.contains_key(x) ==> r.table[x] > w.current,
        forall|s: i32| #[trigger] pending(w, s) ==> pending(r, s) || r.table.contains_key(s),
    ensures
        forall|x: i32| #[trigger]
            w.table.contains_key(x) ==> outranked(adj, r, x) || dominates(adj, r, x),
{
    assert forall|x: i32| #[trigger] w.table.contains_key(x) implies outranked(adj, r, x)
        || dominates(adj, r, x) by {
        if outranked(adj, w, x) {
            let s = choose|s: i32| #[trigger] outranks(adj, w, x, s);
            if pending(w, s) {
                assert(pending(r, s) || r.table.contains_key(s));
            } else {
                assert(w.table.contains_key(s));
            }
            assert(outranks(adj, r, x, s));
        } else {
            assert(dominates(adj, w, x));
            assert forall|y: i32| #[trigger] reaches(adj, x, y) implies r.table.contains_key(y)
                && r.table[y] <= r.table[x] by {
                assert(w.table.contains_key(y));
            }
        }
    }
}

/// Along a path from a vertex that has just finished and is not outranked,
/// everything has finished.
proof fn lemma_path_finished(adj: Map<i32, Seq<i32>>, r: Walk, v: i32, p: Seq<i32>, i: int)
    requires
        r.table.contains_key(v),
        forall|x: i32, z: i32|
            r.table.contains_key(x) && #[trigger] has_edge(adj, x, z) ==> r.explored.contains(z),
        chained(adj, r, v),
        !outranked(adj, r, v),
        is_path(adj, p),
        p[0] == v,
        0 <= i < p.len(),
    ensures
        r.table.contains_key(p[i]),
    decreases i,
{
    if i > 0 {
        lemma_path_finished(adj, r, v, p, i - 1);
        assert(has_edge(adj, p[i - 1], p[i]));
        if !r.table.contains_key(p[i]) {
            assert(pending(r, p[i]));
            lemma_path_parts(adj, p, i);
            assert(outranks(adj, r, v, p[i]));
        }
    }
}

/// A vertex that has just finished, with the last finishing time, is
/// outranked by a pending vertex or dominates what it reaches.
proof fn lemma_ranked_new(adj: Map<i32, Seq<i32>>, r: Walk, v: i32)
    requires
        r.table.contains_key(v),
        r.table[v] == r.current,
        forall|x: i32| #[trigger] r.table.contains_key(x) ==> r.table[x] <= r.current,
        forall|x: i32, z: i32|
            r.table.contains_key(x) && #[trigger] has_edge(adj, x, z) ==> r.explored.contains(z),
        chained(adj, r, v),
    ensures
        outranked(adj, r, v) || dominates(adj, r, v),
{
    if !outranked(adj, r, v) {
        assert forall|y: i32| #[trigger] reaches(adj, v, y) implies r.table.contains_key(y)
            && r.table[y] <= r.table[v] by {
            let p = choose|p: Seq<i32>| #[trigger] joins(adj, p, v, y);
            lemma_path_finished(adj, r, v, p, p.len() - 1);
        }
    }
}

/// A search of the first pass keeps the pass orderly, and leaves pending what was.
pub proof fn lemma_visit_orderly(adj: Map<i32, Seq<i32>>, v: i32, w: Walk, depth: nat, bound: int)
    requires
        within(adj, bound),
        bound <= i32::MAX,
        1 <= v <= bound,
        !w.explored.contains(v),
        confined(w.explored, bound),
        0 <= w.current <= w.explored.len(),
        depth + w.explored.len() >= i32::MAX,
        orderly(adj, w),
        chained(adj, w, v),
    ensures
        orderly(adj, visit(adj, true, v, w, depth)),
        forall|s: i32|
            pending(visit(adj, true, v, w, depth), s) <==> #[trigger] pending(w, s),
    decreases depth, 0nat,
{
    lemma_bounded_set(w.explored, bound);
    let inner = w.enter(v);
    lemma_bounded_set(inner.explored, bound);
    let below = (depth - 1) as nat;
    assert(!w.table.contains_key(v));
    assert(ranked(adj, inner)) by {
        lemma_ranked_kept(adj, w, inner);
    }
    assert(chained(adj, inner, v)) by {
        lemma_reaches_self(adj, Set::empty(), v);
        assert forall|s: i32| #[trigger] pending(inner, s) implies reaches(adj, s, v) by {
            if s != v {
                assert(pending(w, s));
            }
        }
    }
    assert(orderly(adj, inner));
    lemma_scan_grows(adj, true, v, 0, inner, below, bound);
    lemma_scan_covers(adj, true, v, 0, inner, below, bound, w.explored);
    lemma_scan_orderly(adj, v, 0, inner, below, bound);
    let done = scan(adj, true, v, 0, inner, below);
    lemma_bounded_set(done.explored, bound);
    let r = done.leave(true, v);
    assert(r == visit(adj, true, v, w, depth));
    assert(pending(inner, v));
    assert(pending(done, v));
    assert(r.current == done.current + 1);
    let list = neighbors(adj, v);
    assert forall|x: i32, z: i32|
        r.table.contains_key(x) && #[trigger] has_edge(adj, x, z) implies r.explored.contains(
        z,
    ) by {
        if x == v {
            let j = choose|j: int| 0 <= j < list.len() && list[j] == z;
            assert(done.explored.contains(list[j]));
        } else {
            assert(done.table.contains_key(x));
        }
    }
    assert forall|s: i32| pending(r, s) <==> #[trigger] pending(w, s) by {
        assert(pending(done, s) <==> pending(inner, s));
    }
    assert(chained(adj, r, v)) by {
        assert forall|s: i32| #[trigger] pending(r, s) implies reaches(adj, s, v) by {
            assert(pending(w, s));
        }
    }
    assert forall|x: i32| #[trigger] r.table.contains_key(x) implies r.explored.contains(x)
        && r.table[x] <= r.current by {
        if x != v {
            assert(done.table.contains_key(x));
        }
    }
    lemma_ranked_kept(adj, done, r);
    lemma_ranked_new(adj, r, v);
    assert(ranked(adj, r)) by {
        assert forall|x: i32| #[trigger] r.table.contains_key(x) implies outranked(adj, r, x)
            || dominates(adj, r, x) by {
            if x != v {
                assert(done.table.contains_key(x));
            }
        }
    }
}

/// The searches of the neighbours of a pending vertex keep the first pass
/// orderly, and leave pending what was.
pub proof fn lemma_scan_orderly(
    adj: Map<i32, Seq<i32>>,
    v: i32,
    i: int,
    w: Walk,
    depth: nat,
    bound: int,
)
    requires
        within(adj, bound),
        bound <= i32::MAX,
        0 <= i <= neighbors(adj, v).len(),
        w.explored.contains(v),
        confined(w.explored, bound),
        0 <= w.current < w.explored.len(),
        depth + w.explored.len() >= i32::MAX,
        orderly(adj, w),
        chained(adj, w, v),
    ensures
        orderly(adj, scan(adj, true, v, i, w, depth)),
        forall|s: i32|
            pending(scan(adj, true, v, i, w, depth), s) <==> #[trigger] pending(w, s),
    decreases depth, 1 + neighbors(adj, v).len() - i,
{
    let list = neighbors(adj, v);
    lemma_bounded_set(w.explored, bound);
    if i < list.len() {
        let next = list[i];
        assert(has_edge(adj, v, next));
        let after = if w.explored.contains(next) {
            w
        } else {
            visit(adj, true, next, w, depth)
        };
        if !w.explored.contains(next) {
            assert(chained(adj, w, next)) by {
                lemma_edge_reaches(adj, v, next);
                assert forall|s: i32| #[trigger] pending(w, s) implies reaches(adj, s, next) by {
                    lemma_reaches_trans(adj, s, v, next);
                }
            }
            lemma_visit_grows(adj, true, next, w, depth, bound);
            lemma_visit_orderly(adj, next, w, depth, bound);
        }
        lemma_bounded_set(after.explored, bound);
        vstd::set_lib::lemma_len_subset(w.explored, after.explored);
        assert(chained(adj, after, v)) by {
            assert forall|s: i32| #[trigger] pending(after, s) implies reaches(adj, s, v) by {
                assert(pending(w, s));
            }
        }
        lemma_scan_orderly(adj, v, i + 1, after, depth, bound);
        let r = scan(adj, true, v, i + 1, after, depth);
        assert(r == scan(adj, true, v, i, w, depth));
        assert forall|s: i32| pending(r, s) <==> #[trigger] pending(w, s) by {
            assert(pending(r, s) <==> pending(after, s));
            assert(pending(after, s) <==> pending(w, s));
        }
    }
}

/// The first pass is orderly after each of its roots.
pub proof fn lemma_sweep_orderly(adj: Map<i32, Seq<i32>>, n: int, lo: int)
    requires
        within(adj, n),
        n <= i32::MAX,
        1 <= lo <= n + 1,
    ensures
        orderly(adj, sweep(adj, true, n, lo)),
    decreases n - lo + 1,
{
    if lo <= n {
        let w = sweep(adj, true, n, lo + 1);
        let root = lo as i32;
        lemma_sweep_orderly(adj, n, lo + 1);
        lemma_sweep_settled(adj, true, n, lo + 1);
        lemma_bounded_set(w.explored, n);
        if !w.explored.contains(root) {
            assert(chained(adj, w, root)) by {
                assert forall|s: i32| #[trigger] pending(w, s) implies reaches(adj, s, root) by {
                    assert(w.table.contains_key(s) <==> w.explored.contains(s));
                }
            }
            lemma_visit_orderly(adj, root, w, i32::MAX as nat, n);
        }
    }
}

} // verus!
