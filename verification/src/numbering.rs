//! Finishing times as a numbering: each of the vertices `1..=n` gets one of
//! the numbers `1..=n`, and no two get the same.

use crate::counting::lemma_bounded_set;
use crate::counting::lemma_full_range;
use crate::graph::within;
use crate::traversal::lemma_sweep_settled;
use crate::traversal::sweep;
use vstd::prelude::*;

verus! {

/// `times` numbers the vertices `1..=n`, and only them, with numbers from
/// `1..=n`, no two with the same.
pub open spec fn numbering(times: Map<i32, i32>, n: int) -> bool {
    &&& forall|x: i32| 1 <= x <= n <==> #[trigger] times.contains_key(x)
    &&& forall|x: i32| #[trigger] times.contains_key(x) ==> 1 <= times[x] <= n
    &&& forall|x: i32, y: i32|
        times.contains_key(x) && times.contains_key(y) && x != y ==> times[x] != times[y]
}

/// The vertex of `1..=n` that has the number `time`.
pub open spec fn numbered_as(times: Map<i32, i32>, n: int, time: i32) -> i32 {
    choose|x: i32| 1 <= x <= n && times[x] == time
}

/// A numbering uses every number: each of `1..=n` is the number of one vertex.
pub proof fn lemma_numbering_onto(times: Map<i32, i32>, n: int)
    requires
        numbering(times, n),
        0 <= n <= i32::MAX,
    ensures
        forall|time: i32|
            1 <= time <= n ==> 1 <= #[trigger] numbered_as(times, n, time) <= n
                && times[numbered_as(times, n, time)] == time,
        forall|x: i32| 1 <= x <= n ==> numbered_as(times, n, #[trigger] times[x]) == x,
{
    let vertices = Set::new(|x: i32| 1 <= x <= n);
    lemma_full_range(vertices, n);
    let f = |x: i32| times[x];
    let image = vertices.map(f);
    assert(vstd::relations::injective_on(f, vertices)) by {
        assert forall|x: i32, y: i32|
            vertices.contains(x) && vertices.contains(y) && #[trigger] f(x) == #[trigger] f(
                y,
            ) implies x == y by {
            assert(times.contains_key(x) && times.contains_key(y));
        }
    }
    vstd::set_lib::lemma_map_size(vertices, image, f);
    assert(image.subset_of(vertices)) by {
        assert forall|t: i32| image.contains(t) implies vertices.contains(t) by {
            let x = choose|x: i32| vertices.contains(x) && t == f(x);
            assert(times.contains_key(x));
        }
    }
    vstd::set_lib::lemma_subset_equality(image, vertices);
    assert forall|time: i32| 1 <= time <= n implies 1 <= #[trigger] numbered_as(times, n, time)
        <= n && times[numbered_as(times, n, time)] == time by {
        assert(vertices.contains(time));
        assert(image.contains(time));
        let x = choose|x: i32| vertices.contains(x) && time == f(x);
        assert(1 <= x <= n && times[x] == time);
    }
    assert forall|x: i32| 1 <= x <= n implies numbered_as(times, n, #[trigger] times[x]) == x by {
        assert(times.contains_key(x));
        let back = numbered_as(times, n, times[x]);
        assert(1 <= back <= n && times[back] == times[x]);
        assert(times.contains_key(back));
    }
}

/// The finishing times of the first pass are a numbering of the vertices.
pub proof fn lemma_first_pass_numbering(adj: Map<i32, Seq<i32>>, n: int)
    requires
        within(adj, n),
        0 <= n <= i32::MAX,
    ensures
        numbering(sweep(adj, true, n, 1).table, n),
{
    let done = sweep(adj, true, n, 1);
    lemma_sweep_settled(adj, true, n, 1);
    lemma_bounded_set(done.explored, n);
    lemma_full_range(done.explored, n);
    assert forall|x: i32| 1 <= x <= n <==> #[trigger] done.table.contains_key(x) by {
        assert(done.table.contains_key(x) <==> done.explored.contains(x));
    }
}

} // verus!
