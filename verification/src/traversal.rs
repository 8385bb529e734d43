//! Depth-first traversal of an adjacency structure.
//!
//! A pass over a graph either numbers the vertices in the order in which
//! their searches finish, or records, for the root of each search, how many
//! vertices that search reached. What a pass computes is defined here by
//! recursion (`visit`, `scan`, `sweep`); the executable traversal keeps its
//! own stack of pending vertices and is proved to compute the same.

use crate::components::lemma_sizes_sum;
use crate::components::lemma_sweep_tallies;
use crate::components::tallies;
use crate::counting::lemma_bounded_set;
use crate::coverage::lemma_visit_reach;
use crate::graph::Graph;
use crate::graph::has_edge;
use crate::graph::neighbors;
use crate::graph::within;
use crate::numbering::lemma_first_pass_numbering;
use crate::numbering::numbering;
use crate::paths::reaches_outside;
use std::collections::HashMap;
use std::collections::HashSet;
use vstd::prelude::*;

verus! {

/// What a pass has recorded so far.
pub struct Walk {
    /// The vertices reached so far.
    pub explored: Set<i32>,
    /// In the first pass: the finishing time of each finished vertex.
    /// In the second pass: for each leader, the number of vertices recorded under it.
    pub table: Map<i32, i32>,
    /// In the first pass: the last finishing time handed out.
    /// In the second pass: the current leader.
    pub current: i32,
}

/// The state of a pass before its first search.
pub open spec fn fresh() -> Walk {
    Walk { explored: Set::empty(), table: Map::empty(), current: 0 }
}

impl Walk {
    /// The number of vertices recorded under the current leader.
    pub open spec fn count(self) -> int {
        if self.table.contains_key(self.current) {
            self.table[self.current] as int
        } else {
            0
        }
    }

    /// The counter that the next finished vertex advances: the last finishing
    /// time in the first pass, the current leader's size in the second.
    pub open spec fn load(self, first_pass: bool) -> int {
        if first_pass {
            self.current as int
        } else {
            self.count()
        }
    }

    /// The state with `v` marked as explored.
    pub open spec fn enter(self, v: i32) -> Walk {
        Walk { explored: self.explored.insert(v), table: self.table, current: self.current }
    }

    /// The state after the search of `v` has finished: in the first pass `v`
    /// gets the next finishing time, in the second the current leader's size
    /// grows by one.
    pub open spec fn leave(self, first_pass: bool, v: i32) -> Walk {
        if first_pass {
            let time = (self.current + 1) as i32;
            Walk { explored: self.explored, table: self.table.insert(v, time), current: time }
        } else {
            let size = (self.count() + 1) as i32;
            Walk {
                explored: self.explored,
                table: self.table.insert(self.current, size),
                current: self.current,
            }
        }
    }

    /// The state in which `leader` is the current leader.
    pub open spec fn led_by(self, leader: i32) -> Walk {
        Walk { explored: self.explored, table: self.table, current: leader }
    }

    /// Every explored vertex is positive, and the counter does not exceed
    /// the number of explored vertices.
    pub open spec fn ready(self, first_pass: bool) -> bool {
        &&& forall|v: i32| self.explored.contains(v) ==> v >= 1
        &&& 0 <= self.load(first_pass) <= self.explored.len()
    }
}

/// The search of `v`, which is not yet explored: `v` is marked, its
/// neighbours are searched in order, each one that is still unexplored when
/// its turn comes, and then `v` finishes. `depth` bounds the nesting of
/// searches; a search that has run out of depth does nothing.
pub open spec fn visit(adj: Map<i32, Seq<i32>>, first_pass: bool, v: i32, w: Walk, depth: nat) -> Walk
    decreases depth, 0nat,
{
    if depth == 0 {
        w
    } else {
        scan(adj, first_pass, v, 0, w.enter(v), (depth - 1) as nat).leave(first_pass, v)
    }
}

/// The searches of the neighbours of `v` from position `i` of its list on.
pub open spec fn scan(
    adj: Map<i32, Seq<i32>>,
    first_pass: bool,
    v: i32,
    i: int,
    w: Walk,
    depth: nat,
) -> Walk
    decreases depth, 1 + neighbors(adj, v).len() - i,
{
    let list = neighbors(adj, v);
    if 0 <= i < list.len() {
        let next = list[i];
        let after = if w.explored.contains(next) {
            w
        } else {
            visit(adj, first_pass, next, w, depth)
        };
        scan(adj, first_pass, v, i + 1, after, depth)
    } else {
        w
    }
}

/// The search of `v`, with as much depth as there are positive
/// identifiers: no search can exhaust it, and with any depth that suffices it
/// comes out the same (`lemma_visit_any_depth`).
pub open spec fn explore(adj: Map<i32, Seq<i32>>, first_pass: bool, v: i32, w: Walk) -> Walk {
    visit(adj, first_pass, v, w, i32::MAX as nat)
}

/// What is left to do when the searches in `frames` are pending, innermost
/// last, each with the position in its neighbour list that comes next.
spec fn resume(
    adj: Map<i32, Seq<i32>>,
    first_pass: bool,
    frames: Seq<(i32, usize)>,
    w: Walk,
    depth: nat,
) -> Walk
    decreases frames.len(),
{
    if frames.len() == 0 {
        w
    } else {
        let (v, i) = frames.last();
        resume(
            adj,
            first_pass,
            frames.drop_last(),
            scan(adj, first_pass, v, i as int, w, depth).leave(first_pass, v),
            depth + 1,
        )
    }
}

/// What is left to do with one more pending search: its own rest first.
proof fn lemma_resume_push(
    adj: Map<i32, Seq<i32>>,
    first_pass: bool,
    frames: Seq<(i32, usize)>,
    top: (i32, usize),
    w: Walk,
    depth: nat,
)
    ensures
        resume(adj, first_pass, frames.push(top), w, depth) == resume(
            adj,
            first_pass,
            frames,
            scan(adj, first_pass, top.0, top.1 as int, w, depth).leave(first_pass, top.0),
            depth + 1,
        ),
{
    assert(frames.push(top).drop_last() =~= frames);
}

/// The neighbour-list entries that the pending searches have not looked at
/// yet, plus one for each pending search.
spec fn backlog(adj: Map<i32, Seq<i32>>, frames: Seq<(i32, usize)>) -> int
    decreases frames.len(),
{
    if frames.len() == 0 {
        0
    } else {
        backlog(adj, frames.drop_last()) + (neighbors(adj, frames.last().0).len()
            - frames.last().1) + 1
    }
}

/// One more pending search adds the rest of its neighbour list, and one.
proof fn lemma_backlog_push(adj: Map<i32, Seq<i32>>, frames: Seq<(i32, usize)>, top: (i32, usize))
    ensures
        backlog(adj, frames.push(top)) == backlog(adj, frames) + (neighbors(adj, top.0).len()
            - top.1) + 1,
{
    assert(frames.push(top).drop_last() =~= frames);
}

/// Where no pending search is past the end of its neighbour list, the backlog is not negative.
proof fn lemma_backlog_nonnegative(adj: Map<i32, Seq<i32>>, frames: Seq<(i32, usize)>)
    requires
        forall|k: int|
            0 <= k < frames.len() ==> (#[trigger] frames[k]).1 <= neighbors(adj, frames[k].0).len(),
    ensures
        backlog(adj, frames) >= 0,
    decreases frames.len(),
{
    if frames.len() > 0 {
        lemma_backlog_nonnegative(adj, frames.drop_last());
    }
}

/// Every vertex of `s` lies in `1..=bound`.
pub open spec fn confined(s: Set<i32>, bound: int) -> bool {
    forall|x: i32| s.contains(x) ==> 1 <= x <= bound
}

/// In the first pass, from `w` to `r`: the vertices explored in between, and only
/// they, got finishing times, each a different one from `w.current + 1 ..= r.current`.
pub open spec fn numbered(w: Walk, r: Walk) -> bool {
    &&& w.current <= r.current
    &&& forall|x: i32|
        r.explored.contains(x) && !w.explored.contains(x) ==> r.table.contains_key(x)
            && w.current < r.table[x] <= r.current
    &&& forall|x: i32|
        !(r.explored.contains(x) && !w.explored.contains(x)) ==> (r.table.contains_key(x)
            <==> w.table.contains_key(x)) && (w.table.contains_key(x) ==> r.table[x]
            == w.table[x])
    &&& forall|x: i32, y: i32|
        r.explored.contains(x) && !w.explored.contains(x) && r.explored.contains(y)
            && !w.explored.contains(y) && x != y ==> r.table[x] != r.table[y]
}

/// In the second pass, from `w` to `r`: the leader is the same, and if
/// anything was explored in between, its entry in the table holds its new size;
/// nothing else in the table has changed.
pub open spec fn tallied(w: Walk, r: Walk) -> bool {
    &&& r.current == w.current
    &&& r.table == if r.explored.len() > w.explored.len() {
        w.table.insert(w.current, r.count() as i32)
    } else {
        w.table
    }
}

/// From `w` to `r` the pass has only gone forward: nothing explored is
/// forgotten, and the counter has advanced by the number of vertices that were
/// explored and finished in between.
pub open spec fn grows(first_pass: bool, w: Walk, r: Walk) -> bool {
    &&& w.explored.subset_of(r.explored)
    &&& r.load(first_pass) - w.load(first_pass) == r.explored.len() - w.explored.len()
    &&& if first_pass {
        numbered(w, r)
    } else {
        tallied(w, r)
    }
}

/// A search explores its root, and the pass only goes forward over it.
pub proof fn lemma_visit_grows(
    adj: Map<i32, Seq<i32>>,
    first_pass: bool,
    v: i32,
    w: Walk,
    depth: nat,
    bound: int,
)
    requires
        within(adj, bound),
        bound <= i32::MAX,
        1 <= v <= bound,
        !w.explored.contains(v),
        confined(w.explored, bound),
        0 <= w.load(first_pass) <= w.explored.len(),
        depth + w.explored.len() >= i32::MAX,
    ensures
        ({
            let r = visit(adj, first_pass, v, w, depth);
            &&& grows(first_pass, w, r)
            &&& confined(r.explored, bound)
            &&& r.explored.contains(v)
            &&& first_pass ==> r.table[v] == r.current
        }),
    decreases depth, 0nat,
{
    lemma_bounded_set(w.explored, bound);
    let inner = w.enter(v);
    lemma_bounded_set(inner.explored, bound);
    lemma_scan_grows(adj, first_pass, v, 0, inner, (depth - 1) as nat, bound);
    let done = scan(adj, first_pass, v, 0, inner, (depth - 1) as nat);
    lemma_bounded_set(done.explored, bound);
    let r = done.leave(first_pass, v);
    assert(r == visit(adj, first_pass, v, w, depth));
    assert(r.load(first_pass) == done.load(first_pass) + 1);
    vstd::set_lib::lemma_len_subset(inner.explored, done.explored);
    if !first_pass {
        assert(r.table =~= w.table.insert(w.current, r.count() as i32));
    }
}

/// The searches of the neighbours of a pending vertex only take the pass forward.
pub proof fn lemma_scan_grows(
    adj: Map<i32, Seq<i32>>,
    first_pass: bool,
    v: i32,
    i: int,
    w: Walk,
    depth: nat,
    bound: int,
)
    requires
        within(adj, bound),
        bound <= i32::MAX,
        0 <= i <= neighbors(adj, v).len(),
        w.explored.contains(v),
        confined(w.explored, bound),
        0 <= w.load(first_pass) < w.explored.len(),
        depth + w.explored.len() >= i32::MAX,
    ensures
        ({
            let r = scan(adj, first_pass, v, i, w, depth);
            &&& grows(first_pass, w, r)
            &&& confined(r.explored, bound)
            &&& r.load(first_pass) < r.explored.len()
        }),
    decreases depth, 1 + neighbors(adj, v).len() - i,
{
    let list = neighbors(adj, v);
    lemma_bounded_set(w.explored, bound);
    if i < list.len() {
        let next = list[i];
        assert(has_edge(adj, v, next));
        let after = if w.explored.contains(next) {
            w
        } else {
            visit(adj, first_pass, next, w, depth)
        };
        if !w.explored.contains(next) {
            lemma_visit_grows(adj, first_pass, next, w, depth, bound);
        }
        lemma_bounded_set(after.explored, bound);
        vstd::set_lib::lemma_len_subset(w.explored, after.explored);
        lemma_scan_grows(adj, first_pass, v, i + 1, after, depth, bound);
        let r = scan(adj, first_pass, v, i + 1, after, depth);
        lemma_bounded_set(r.explored, bound);
        vstd::set_lib::lemma_len_subset(after.explored, r.explored);
        assert(r == scan(adj, first_pass, v, i, w, depth));
        if !first_pass {
            if r.explored.len() > w.explored.len() {
                assert(r.table =~= w.table.insert(w.current, r.count() as i32));
            } else {
                assert(r.table =~= w.table);
            }
        }
    }
}

/// A search comes out the same at every depth that is at least the number
/// of positive identifiers that are not explored yet.
pub proof fn lemma_visit_any_depth(
    adj: Map<i32, Seq<i32>>,
    first_pass: bool,
    v: i32,
    w: Walk,
    depth: nat,
    other: nat,
    bound: int,
)
    requires
        within(adj, bound),
        bound <= i32::MAX,
        1 <= v <= bound,
        !w.explored.contains(v),
        confined(w.explored, bound),
        0 <= w.load(first_pass) <= w.explored.len(),
        depth + w.explored.len() >= i32::MAX,
        other + w.explored.len() >= i32::MAX,
    ensures
        visit(adj, first_pass, v, w, depth) == visit(adj, first_pass, v, w, other),
    decreases depth, 0nat,
{
    lemma_bounded_set(w.explored, bound);
    let inner = w.enter(v);
    lemma_bounded_set(inner.explored, bound);
    lemma_scan_any_depth(
        adj,
        first_pass,
        v,
        0,
        inner,
        (depth - 1) as nat,
        (other - 1) as nat,
        bound,
    );
}

/// The searches of the neighbours of a pending vertex come out the same at
/// every depth that is at least the number of positive identifiers that are
/// not explored yet.
pub proof fn lemma_scan_any_depth(
    adj: Map<i32, Seq<i32>>,
    first_pass: bool,
    v: i32,
    i: int,
    w: Walk,
    depth: nat,
    other: nat,
    bound: int,
)
    requires
        within(adj, bound),
        bound <= i32::MAX,
        0 <= i <= neighbors(adj, v).len(),
        w.explored.contains(v),
        confined(w.explored, bound),
        0 <= w.load(first_pass) < w.explored.len(),
        depth + w.explored.len() >= i32::MAX,
        other + w.explored.len() >= i32::MAX,
    ensures
        scan(adj, first_pass, v, i, w, depth) == scan(adj, first_pass, v, i, w, other),
    decreases depth, 1 + neighbors(adj, v).len() - i,
{
    let list = neighbors(adj, v);
    lemma_bounded_set(w.explored, bound);
    if i < list.len() {
        let next = list[i];
        assert(has_edge(adj, v, next));
        let after = if w.explored.contains(next) {
            w
        } else {
            visit(adj, first_pass, next, w, depth)
        };
        if !w.explored.contains(next) {
            lemma_visit_any_depth(adj, first_pass, next, w, depth, other, bound);
            lemma_visit_grows(adj, first_pass, next, w, depth, bound);
        }
        lemma_bounded_set(after.explored, bound);
        vstd::set_lib::lemma_len_subset(w.explored, after.explored);
        lemma_scan_any_depth(adj, first_pass, v, i + 1, after, depth, other, bound);
    }
}

/// The pass state that the three variables of a running pass stand for.
pub open spec fn walk_of(current: i32, table: Map<i32, i32>, explored: Set<i32>) -> Walk {
    Walk { explored, table, current }
}

/// Searches the graph depth-first from `start_vertex`, which must not be
/// explored yet, and records every vertex that the search reaches.
///
/// In the first pass each vertex gets its finishing time when the search of
/// all its neighbours is done: `leader_or_ftime` is the last time handed out
/// and `leader_or_ft_map` the times. In the second pass `leader_or_ftime` is
/// the leader, and its entry in `leader_or_ft_map` grows by one for each
/// vertex reached. The search keeps its pending vertices on a stack of its
/// own, so its depth is bounded by memory and not by the call stack.
pub fn dfs_inner(
    graph: &Graph,
    start_vertex: i32,
    first_pass: bool,
    leader_or_ftime: &mut i32,
    leader_or_ft_map: &mut HashMap<i32, i32>,
    explored_nodes: &mut HashSet<i32>,
)
    requires
        within(graph@, i32::MAX as int),
        start_vertex >= 1,
        !old(explored_nodes)@.contains(start_vertex),
        walk_of(*old(leader_or_ftime), old(leader_or_ft_map)@, old(explored_nodes)@).ready(
            first_pass,
        ),
    ensures
        walk_of(*final(leader_or_ftime), final(leader_or_ft_map)@, final(explored_nodes)@)
            == explore(
            graph@,
            first_pass,
            start_vertex,
            walk_of(*old(leader_or_ftime), old(leader_or_ft_map)@, old(explored_nodes)@),
        ),
        forall|x: i32|
            final(explored_nodes)@.contains(x) <==> old(explored_nodes)@.contains(x)
                || #[trigger] reaches_outside(graph@, old(explored_nodes)@, start_vertex, x),
        grows(
            first_pass,
            walk_of(*old(leader_or_ftime), old(leader_or_ft_map)@, old(explored_nodes)@),
            walk_of(*final(leader_or_ftime), final(leader_or_ft_map)@, final(explored_nodes)@),
        ),
        walk_of(*final(leader_or_ftime), final(leader_or_ft_map)@, final(explored_nodes)@).ready(
            first_pass,
        ),
{
    broadcast use vstd::std_specs::hash::group_hash_axioms;

    let ghost adj = graph@;
    let ghost initial = walk_of(*leader_or_ftime, leader_or_ft_map@, explored_nodes@);
    let ghost target = explore(adj, first_pass, start_vertex, initial);
    let ghost limit = i32::MAX as int;
    proof {
        lemma_bounded_set(initial.explored, limit);
        lemma_bounded_set(initial.explored.insert(start_vertex), limit);
        lemma_visit_grows(adj, first_pass, start_vertex, initial, limit as nat, limit);
        lemma_visit_reach(adj, first_pass, start_vertex, initial, limit as nat, limit);
        lemma_bounded_set(target.explored, limit);
    }
    let mut stack: Vec<(i32, usize)> = Vec::new();
    let mut lists: Vec<Option<&Vec<i32>>> = Vec::new();
    explored_nodes.insert(start_vertex);
    stack.push((start_vertex, 0));
    lists.push(graph.neighbors_of(start_vertex));
    proof {
        lemma_resume_push(
            adj,
            first_pass,
            Seq::empty(),
            (start_vertex, 0usize),
            initial.enter(start_vertex),
            (limit - 1) as nat,
        );
        assert(stack@ =~= Seq::<(i32, usize)>::empty().push((start_vertex, 0usize)));
        lemma_backlog_push(adj, Seq::empty(), (start_vertex, 0usize));
    }
    while stack.len() > 0
        invariant
            adj == graph@,
            limit == i32::MAX as int,
            within(adj, limit),
            forall|x: i32| explored_nodes@.contains(x) ==> x >= 1,
            explored_nodes@.finite(),
            forall|k: int|
                0 <= k < stack.len() ==> (#[trigger] stack@[k]).1 <= neighbors(
                    adj,
                    stack@[k].0,
                ).len(),
            lists.len() == stack.len(),
            forall|k: int|
                0 <= k < lists.len() ==> match #[trigger] lists@[k] {
                    Some(list) => adj.contains_key(stack@[k].0) && list@ == adj[stack@[k].0],
                    None => !adj.contains_key(stack@[k].0),
                },
            0 <= walk_of(*leader_or_ftime, leader_or_ft_map@, explored_nodes@).load(first_pass),
            walk_of(*leader_or_ftime, leader_or_ft_map@, explored_nodes@).load(first_pass)
                + stack.len() <= explored_nodes@.len() <= limit,
            resume(
                adj,
                first_pass,
                stack@,
                walk_of(*leader_or_ftime, leader_or_ft_map@, explored_nodes@),
                (limit - stack.len()) as nat,
            ) == target,
        decreases limit - explored_nodes@.len(), backlog(adj, stack@),
    {
        let ghost here = walk_of(*leader_or_ftime, leader_or_ft_map@, explored_nodes@);
        let ghost depth = (limit - stack.len()) as nat;
        let ghost frames = stack@;
        let ghost below = stack@.drop_last();
        let (v, i) = stack[stack.len() - 1];
        let next: Option<i32> = match lists[lists.len() - 1] {
            Some(list) => if i < list.len() {
                Some(list[i])
            } else {
                None
            },
            None => None,
        };
        proof {
            assert(frames =~= below.push((v, i)));
            lemma_resume_push(adj, first_pass, below, (v, i), here, depth);
            lemma_backlog_push(adj, below, (v, i));
            lemma_backlog_nonnegative(adj, below);
        }
        stack.pop();
        match next {
            Some(neighbor) => {
                assert(neighbor == neighbors(adj, v)[i as int]);
                assert(has_edge(adj, v, neighbor));
                stack.push((v, i + 1));
                proof {
                    lemma_resume_push(adj, first_pass, below, (v, (i + 1) as usize), here, depth);
                    lemma_backlog_push(adj, below, (v, (i + 1) as usize));
                }
                if !explored_nodes.contains(&neighbor) {
                    proof {
                        lemma_bounded_set(here.explored.insert(neighbor), limit);
                    }
                    explored_nodes.insert(neighbor);
                    stack.push((neighbor, 0));
                    lists.push(graph.neighbors_of(neighbor));
                    proof {
                        let inner = here.enter(neighbor);
                        let middle = below.push((v, (i + 1) as usize));
                        lemma_resume_push(
                            adj,
                            first_pass,
                            middle,
                            (neighbor, 0usize),
                            inner,
                            (depth - 1) as nat,
                        );
                        lemma_resume_push(
                            adj,
                            first_pass,
                            below,
                            (v, (i + 1) as usize),
                            visit(adj, first_pass, neighbor, here, depth),
                            depth,
                        );
                        lemma_backlog_push(adj, middle, (neighbor, 0usize));
                    }
                }
            },
            None => {
                assert(i as int >= neighbors(adj, v).len());
                lists.pop();
                if first_pass {
                    *leader_or_ftime = *leader_or_ftime + 1;
                    leader_or_ft_map.insert(v, *leader_or_ftime);
                } else {
                    let size: i32 = match leader_or_ft_map.get(leader_or_ftime) {
                        Some(s) => *s,
                        None => 0,
                    };
                    leader_or_ft_map.insert(*leader_or_ftime, size + 1);
                }
                assert(walk_of(*leader_or_ftime, leader_or_ft_map@, explored_nodes@)
                    == here.leave(first_pass, v));
            },
        }
    }
}

/// One step of a pass: the search from `root`, unless `root` is explored
/// already. In the second pass `root` becomes the leader of its search.
pub open spec fn launch(adj: Map<i32, Seq<i32>>, first_pass: bool, root: i32, w: Walk) -> Walk {
    if w.explored.contains(root) {
        w
    } else if first_pass {
        explore(adj, first_pass, root, w)
    } else {
        explore(adj, first_pass, root, w.led_by(root))
    }
}

/// The pass over the roots `n, n - 1, ..., lo`, in this order.
pub open spec fn sweep(adj: Map<i32, Seq<i32>>, first_pass: bool, n: int, lo: int) -> Walk
    decreases n - lo + 1,
{
    if lo > n {
        fresh()
    } else {
        launch(adj, first_pass, lo as i32, sweep(adj, first_pass, n, lo + 1))
    }
}

/// The sum of the sizes that `table` records for the leaders `1..=n`.
pub open spec fn total(table: Map<i32, i32>, n: int) -> int
    decreases n,
{
    if n <= 0 {
        0
    } else {
        total(table, n - 1) + if table.contains_key(n as i32) {
            table[n as i32] as int
        } else {
            0
        }
    }
}

/// Without leaders the sum is zero.
pub proof fn lemma_total_empty(n: int)
    ensures
        total(Map::empty(), n) == 0,
    decreases n,
{
    if n > 0 {
        lemma_total_empty(n - 1);
    }
}

/// A new leader adds its size to the sum.
pub proof fn lemma_total_insert(table: Map<i32, i32>, n: int, leader: i32, size: i32)
    requires
        !table.contains_key(leader),
        n <= i32::MAX,
    ensures
        total(table.insert(leader, size), n) == total(table, n) + if 1 <= leader <= n {
            size as int
        } else {
            0
        },
    decreases n,
{
    if n > 0 {
        lemma_total_insert(table, n - 1, leader, size);
    }
}

/// What holds of a pass between two searches, when the roots `lo..=n` are done:
/// they are explored, and so is all that their searches reached. In the first
/// pass the explored vertices are the numbered ones, and their finishing times
/// are distinct numbers from `1` up to their count. In the second pass
/// every leader is a root that is done, and the sizes add up to the number of
/// explored vertices.
pub open spec fn settled(first_pass: bool, w: Walk, n: int, lo: int) -> bool {
    &&& confined(w.explored, n)
    &&& forall|x: i32| lo <= x <= n ==> w.explored.contains(x)
    &&& if first_pass {
        &&& w.current == w.explored.len()
        &&& forall|x: i32| w.table.contains_key(x) <==> w.explored.contains(x)
        &&& forall|x: i32| w.table.contains_key(x) ==> 1 <= w.table[x] <= w.current
        &&& forall|x: i32, y: i32|
            w.table.contains_key(x) && w.table.contains_key(y) && x != y ==> w.table[x]
                != w.table[y]
    } else {
        &&& forall|k: i32| #[trigger]
            w.table.contains_key(k) ==> w.explored.contains(k) && lo <= k && 1 <= w.table[k]
        &&& total(w.table, n) == w.explored.len()
    }
}

/// A pass is settled after each of its roots.
pub proof fn lemma_sweep_settled(adj: Map<i32, Seq<i32>>, first_pass: bool, n: int, lo: int)
    requires
        within(adj, n),
        n <= i32::MAX,
        1 <= lo <= n + 1,
    ensures
        settled(first_pass, sweep(adj, first_pass, n, lo), n, lo),
    decreases n - lo + 1,
{
    if lo > n {
        lemma_total_empty(n);
    } else {
        let w = sweep(adj, first_pass, n, lo + 1);
        lemma_sweep_settled(adj, first_pass, n, lo + 1);
        let root = lo as i32;
        let r = launch(adj, first_pass, root, w);
        assert(r == sweep(adj, first_pass, n, lo));
        lemma_bounded_set(w.explored, n);
        if w.explored.contains(root) {
            assert(settled(first_pass, r, n, lo));
        } else if first_pass {
            lemma_visit_grows(adj, first_pass, root, w, i32::MAX as nat, n);
            assert(numbered(w, r));
            assert(settled(first_pass, r, n, lo));
        } else {
            let led = w.led_by(root);
            lemma_visit_grows(adj, first_pass, root, led, i32::MAX as nat, n);
            lemma_bounded_set(r.explored, n);
            vstd::set_lib::lemma_len_subset(w.explored, r.explored);
            assert(r.explored.len() > w.explored.len()) by {
                if r.explored.len() == w.explored.len() {
                    vstd::set_lib::lemma_subset_equality(w.explored, r.explored);
                }
            }
            assert(led.count() == 0);
            assert(r.count() == r.explored.len() - w.explored.len());
            assert(r.table == w.table.insert(root, r.count() as i32));
            lemma_total_insert(w.table, n, root, r.count() as i32);
            assert(total(r.table, n) == r.explored.len());
            assert forall|k: i32| r.table.contains_key(k) implies r.explored.contains(k) && lo
                <= k && 1 <= r.table[k] by {
                if k != root {
                    assert(w.table.contains_key(k));
                }
            }
            assert(settled(first_pass, r, n, lo));
        }
    }
}

/// Runs one pass of depth-first searches over the vertices
/// `num_vertices, num_vertices - 1, ..., 1`, in this order: a search starts
/// from each vertex that no earlier search has reached.
///
/// The first pass returns the finishing time of every vertex, counted from 1
/// over all its searches. The second pass returns, for the root of each
/// search (its leader), the number of vertices that the search reached.
pub fn dfs_outer(graph: &Graph, first_pass: bool, num_vertices: i32) -> (result: HashMap<i32, i32>)
    requires
        within(graph@, num_vertices as int),
    ensures
        result@ == sweep(graph@, first_pass, num_vertices as int, 1).table,
        first_pass && num_vertices >= 0 ==> numbering(result@, num_vertices as int),
        !first_pass && num_vertices >= 0 ==> total(result@, num_vertices as int) == num_vertices
            && tallies(graph@, num_vertices as int, 1, result@),
{
    let ghost adj = graph@;
    let ghost n = num_vertices as int;
    proof {
        if n >= 0 {
            lemma_first_pass_numbering(adj, n);
            lemma_sizes_sum(adj, n);
            lemma_sweep_tallies(adj, n, 1);
        }
    }
    let mut explored_nodes: HashSet<i32> = HashSet::new();
    let mut result_map: HashMap<i32, i32> = HashMap::new();
    let mut leader_or_ftime: i32 = 0;
    let mut vertex: i32 = num_vertices;
    while vertex >= 1
        invariant
            adj == graph@,
            n == num_vertices as int,
            within(adj, n),
            0 <= vertex <= n || (n < 0 && vertex == n),
            walk_of(leader_or_ftime, result_map@, explored_nodes@) == sweep(
                adj,
                first_pass,
                n,
                vertex + 1,
            ),
        decreases vertex,
    {
        proof {
            lemma_sweep_settled(adj, first_pass, n, vertex + 1);
            lemma_bounded_set(explored_nodes@, n);
        }
        if !explored_nodes.contains(&vertex) {
            if !first_pass {
                leader_or_ftime = vertex;
            }
            dfs_inner(
                graph,
                vertex,
                first_pass,
                &mut leader_or_ftime,
                &mut result_map,
                &mut explored_nodes,
            );
        }
        vertex = vertex - 1;
    }
    result_map
}

} // verus!
