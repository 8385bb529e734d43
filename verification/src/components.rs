//! What the second pass records: every vertex goes to the largest vertex that
//! reaches it, its leader, and the table holds for each leader the number of
//! its vertices.

use crate::counting::lemma_bounded_set;
use crate::coverage::lemma_visit_reach;
use crate::graph::within;
use crate::paths::clear_of;
use crate::paths::joins;
use crate::paths::lemma_path_parts;
use crate::paths::lemma_reaches_outside_less;
use crate::paths::lemma_reaches_self;
use crate::paths::lemma_reaches_trans;
use crate::paths::lemma_reaches_within;
use crate::paths::reaches;
use crate::paths::reaches_outside;
use crate::traversal::Walk;
use crate::traversal::launch;
use crate::traversal::lemma_sweep_settled;
use crate::traversal::lemma_visit_grows;
use crate::traversal::settled;
use crate::traversal::sweep;
use crate::traversal::total;
use vstd::prelude::*;

verus! {

/// The largest vertex of `1..=r` that reaches `x`; `0` if none does.
pub open spec fn top_reacher(adj: Map<i32, Seq<i32>>, r: int, x: i32) -> int
    decreases r,
{
    if r <= 0 {
        0
    } else if reaches(adj, r as i32, x) {
        r
    } else {
        top_reacher(adj, r - 1, x)
    }
}

/// The leader of `x` in a graph over `1..=n`: the largest vertex that reaches `x`.
pub open spec fn leader_of(adj: Map<i32, Seq<i32>>, n: int, x: i32) -> int {
    top_reacher(adj, n, x)
}

/// The vertices of `1..=n` whose leader is `leader`.
pub open spec fn component(adj: Map<i32, Seq<i32>>, n: int, leader: i32) -> Set<i32> {
    Set::new(|x: i32| 1 <= x <= n && leader_of(adj, n, x) == leader)
}

/// The top reacher reaches, and nothing larger does.
pub proof fn lemma_top_reacher(adj: Map<i32, Seq<i32>>, n: int, x: i32)
    requires
        n <= i32::MAX,
    ensures
        0 <= top_reacher(adj, n, x),
        top_reacher(adj, n, x) <= n || n < 0,
        top_reacher(adj, n, x) >= 1 ==> reaches(adj, top_reacher(adj, n, x) as i32, x),
        forall|r: i32| top_reacher(adj, n, x) < r <= n && r >= 1 ==> !reaches(adj, r, x),
    decreases n,
{
    if n > 0 && !reaches(adj, n as i32, x) {
        lemma_top_reacher(adj, n - 1, x);
    }
}

/// Whoever reaches a vertex is not larger than its leader.
pub proof fn lemma_leader_is_largest(adj: Map<i32, Seq<i32>>, n: int, r: i32, x: i32)
    requires
        n <= i32::MAX,
        1 <= r <= n,
        reaches(adj, r, x),
    ensures
        r <= leader_of(adj, n, x),
{
    lemma_top_reacher(adj, n, x);
}

/// The explored vertices after the roots `lo..=n`: those that one of these roots reaches.
pub open spec fn swept(adj: Map<i32, Seq<i32>>, n: int, lo: int, explored: Set<i32>) -> bool {
    forall|x: i32| #[trigger] explored.contains(x) <==> leader_of(adj, n, x) >= lo
}

/// The table of the second pass after the roots `lo..=n`: it holds the
/// leaders among them, each with the number of its vertices.
pub open spec fn tallies(adj: Map<i32, Seq<i32>>, n: int, lo: int, table: Map<i32, i32>) -> bool {
    &&& forall|l: i32| #[trigger]
        table.contains_key(l) <==> lo <= l <= n && leader_of(adj, n, l) == l
    &&& forall|l: i32| #[trigger]
        table.contains_key(l) ==> table[l] == component(adj, n, l).len()
}

/// What is explored once the search from `root` is through, when the
/// larger roots are done: what was explored before, and the vertices whose
/// leader is `root`.
proof fn lemma_launch_swept(adj: Map<i32, Seq<i32>>, first_pass: bool, n: int, root: i32, w: Walk)
    requires
        within(adj, n),
        n <= i32::MAX,
        1 <= root <= n,
        settled(first_pass, w, n, root + 1),
        swept(adj, n, root + 1, w.explored),
    ensures
        swept(adj, n, root as int, launch(adj, first_pass, root, w).explored),
        w.explored.contains(root) <==> leader_of(adj, n, root) != root,
        forall|x: i32|
            launch(adj, first_pass, root, w).explored.contains(x) && !w.explored.contains(x)
                <==> #[trigger] component(adj, n, root).contains(x),
{
    let r = launch(adj, first_pass, root, w);
    lemma_top_reacher(adj, n, root);
    lemma_reaches_self(adj, w.explored, root);
    lemma_bounded_set(w.explored, n);
    if !w.explored.contains(root) {
        if first_pass {
            lemma_visit_reach(adj, first_pass, root, w, i32::MAX as nat, n);
        } else {
            lemma_visit_reach(adj, first_pass, root, w.led_by(root), i32::MAX as nat, n);
        }
    }
    assert forall|x: i32| #[trigger] r.explored.contains(x) <==> leader_of(adj, n, x) >= root by {
        lemma_top_reacher(adj, n, x);
        if leader_of(adj, n, x) == root {
            let p = choose|p: Seq<i32>| #[trigger] joins(adj, p, root, x);
            assert forall|i: int| 0 <= i < p.len() implies !w.explored.contains(
                #[trigger] p[i],
            ) by {
                if w.explored.contains(p[i]) {
                    lemma_top_reacher(adj, n, p[i]);
                    let above = leader_of(adj, n, p[i]) as i32;
                    lemma_path_parts(adj, p, i);
                    lemma_reaches_trans(adj, above, p[i], x);
                }
            }
            assert(joins(adj, p, root, x) && clear_of(p, w.explored));
            assert(reaches_outside(adj, w.explored, root, x));
        }
        if r.explored.contains(x) && !w.explored.contains(x) {
            assert(reaches_outside(adj, w.explored, root, x));
            lemma_reaches_outside_less(adj, w.explored, Set::empty(), root, x);
        }
    }
    assert forall|x: i32|
        r.explored.contains(x) && !w.explored.contains(x) <==> #[trigger] component(
            adj,
            n,
            root,
        ).contains(x) by {
        lemma_top_reacher(adj, n, x);
        if leader_of(adj, n, x) == root {
            lemma_reaches_within(adj, n, root, x);
        }
    }
}

/// After the roots `lo..=n` of a pass, the explored vertices are those that
/// one of these roots reaches.
pub proof fn lemma_sweep_swept(adj: Map<i32, Seq<i32>>, first_pass: bool, n: int, lo: int)
    requires
        within(adj, n),
        n <= i32::MAX,
        1 <= lo <= n + 1,
    ensures
        swept(adj, n, lo, sweep(adj, first_pass, n, lo).explored),
    decreases n - lo + 1,
{
    if lo > n {
        assert forall|x: i32| #[trigger]
            sweep(adj, first_pass, n, lo).explored.contains(x) <==> leader_of(adj, n, x)
                >= lo by {
            lemma_top_reacher(adj, n, x);
        }
    } else {
        lemma_sweep_swept(adj, first_pass, n, lo + 1);
        lemma_sweep_settled(adj, first_pass, n, lo + 1);
        lemma_launch_swept(adj, first_pass, n, lo as i32, sweep(adj, first_pass, n, lo + 1));
    }
}

/// After the roots `lo..=n` of the second pass, the table holds the leaders
/// among them, each with the number of its vertices.
pub proof fn lemma_sweep_tallies(adj: Map<i32, Seq<i32>>, n: int, lo: int)
    requires
        within(adj, n),
        n <= i32::MAX,
        1 <= lo <= n + 1,
    ensures
        tallies(adj, n, lo, sweep(adj, false, n, lo).table),
    decreases n - lo + 1,
{
    if lo <= n {
        let root = lo as i32;
        let w = sweep(adj, false, n, lo + 1);
        let r = launch(adj, false, root, w);
        assert(r == sweep(adj, false, n, lo));
        lemma_sweep_tallies(adj, n, lo + 1);
        lemma_sweep_swept(adj, false, n, lo + 1);
        lemma_sweep_settled(adj, false, n, lo + 1);
        lemma_sweep_settled(adj, false, n, lo);
        lemma_launch_swept(adj, false, n, root, w);
        lemma_bounded_set(w.explored, n);
        lemma_bounded_set(r.explored, n);
        if !w.explored.contains(root) {
            let led = w.led_by(root);
            lemma_visit_grows(adj, false, root, led, i32::MAX as nat, n);
            assert(led.count() == 0);
            let gained = r.explored.difference(w.explored);
            vstd::set_lib::lemma_set_difference_len(r.explored, w.explored);
            assert(r.explored.intersect(w.explored) =~= w.explored);
            assert(gained =~= component(adj, n, root));
            assert(r.count() == component(adj, n, root).len());
            vstd::set_lib::lemma_len_subset(w.explored, r.explored);
            assert(r.explored.len() > w.explored.len()) by {
                if r.explored.len() == w.explored.len() {
                    vstd::set_lib::lemma_subset_equality(w.explored, r.explored);
                }
            }
            assert(r.table == w.table.insert(root, r.count() as i32));
        }
        assert forall|l: i32| #[trigger]
            r.table.contains_key(l) <==> lo <= l <= n && leader_of(adj, n, l) == l by {
            if l != root {
                assert(r.table.contains_key(l) <==> w.table.contains_key(l));
            }
        }
        assert forall|l: i32| #[trigger] r.table.contains_key(l) implies r.table[l] == component(
            adj,
            n,
            l,
        ).len() by {
            if l != root {
                assert(w.table.contains_key(l));
            }
        }
    }
}

/// The second pass sorts the vertices `1..=n` by their leaders: the leader
/// of every vertex is in the table, every key of the table is a leader, which
/// leads itself, and its entry is the number of the vertices that it leads.
/// So each vertex is counted once, under one leader.
pub proof fn lemma_leaders_partition(adj: Map<i32, Seq<i32>>, n: int)
    requires
        within(adj, n),
        0 <= n <= i32::MAX,
    ensures
        forall|x: i32|
            1 <= x <= n ==> x <= #[trigger] leader_of(adj, n, x) <= n && sweep(
                adj,
                false,
                n,
                1,
            ).table.contains_key(leader_of(adj, n, x) as i32),
        forall|l: i32| #[trigger]
            sweep(adj, false, n, 1).table.contains_key(l) ==> 1 <= l <= n && leader_of(adj, n, l)
                == l && component(adj, n, l).contains(l) && sweep(adj, false, n, 1).table[l]
                == component(adj, n, l).len(),
{
    let table = sweep(adj, false, n, 1).table;
    lemma_sweep_tallies(adj, n, 1);
    assert forall|x: i32| 1 <= x <= n implies x <= #[trigger] leader_of(adj, n, x) <= n
        && table.contains_key(leader_of(adj, n, x) as i32) by {
        lemma_top_reacher(adj, n, x);
        lemma_reaches_self(adj, Set::empty(), x);
        let l = leader_of(adj, n, x) as i32;
        lemma_top_reacher(adj, n, l);
        lemma_reaches_self(adj, Set::empty(), l);
        if leader_of(adj, n, l) != l {
            let above = leader_of(adj, n, l) as i32;
            lemma_reaches_trans(adj, above, l, x);
        }
    }
}

/// The sizes that the second pass records add up to the number of vertices.
pub proof fn lemma_sizes_sum(adj: Map<i32, Seq<i32>>, n: int)
    requires
        within(adj, n),
        0 <= n <= i32::MAX,
    ensures
        total(sweep(adj, false, n, 1).table, n) == n,
{
    lemma_sweep_settled(adj, false, n, 1);
    crate::counting::lemma_full_range(sweep(adj, false, n, 1).explored, n);
}

/// Where every vertex reaches every other, the second pass records one
/// leader, the largest vertex, with all vertices under it.
pub proof fn lemma_single_component(adj: Map<i32, Seq<i32>>, n: int)
    requires
        within(adj, n),
        1 <= n <= i32::MAX,
        forall|a: i32, b: i32| 1 <= a <= n && 1 <= b <= n ==> #[trigger] reaches(adj, a, b),
    ensures
        sweep(adj, false, n, 1).table == Map::<i32, i32>::empty().insert(n as i32, n as i32),
{
    let table = sweep(adj, false, n, 1).table;
    let top = n as i32;
    lemma_sweep_tallies(adj, n, 1);
    assert forall|x: i32| 1 <= x <= n implies leader_of(adj, n, x) == n by {
        assert(reaches(adj, top, x));
    }
    crate::counting::lemma_full_range(component(adj, n, top), n);
    assert(table.contains_key(top));
    assert(table =~= Map::<i32, i32>::empty().insert(top, top));
}

} // verus!
