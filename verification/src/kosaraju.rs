//! Why the two passes find the strongly connected components: two vertices
//! are recorded under the same leader exactly if each reaches the other, and
//! the size recorded under a leader is the size of its component.

use crate::components::component;
use crate::components::leader_of;
use crate::components::lemma_leader_is_largest;
use crate::components::lemma_leaders_partition;
use crate::components::lemma_single_component;
use crate::components::lemma_sizes_sum;
use crate::components::lemma_top_reacher;
use crate::counting::lemma_bounded_set;
use crate::graph::has_edge;
use crate::loader::graph_of;
use crate::loader::lemma_graph_of;
use crate::loader::lemma_max_vertex;
use crate::loader::lemma_relabeled_within;
use crate::loader::lemma_reversed_within;
use crate::loader::lists;
use crate::loader::max_vertex;
use crate::loader::relabeled;
use crate::loader::reversed;
use crate::numbering::lemma_first_pass_numbering;
use crate::numbering::lemma_numbering_onto;
use crate::numbering::numbered_as;
use crate::numbering::numbering;
use crate::parse::positive;
use crate::paths::lemma_reaches_mapped;
use crate::paths::lemma_reaches_self;
use crate::paths::lemma_reaches_trans;
use crate::paths::lemma_reaches_turned;
use crate::paths::reaches;
use crate::paths::strongly_connected;
use crate::postorder::dominates;
use crate::postorder::lemma_sweep_orderly;
use crate::postorder::outranked;
use crate::postorder::outranks;
use crate::postorder::pending;
use crate::scc::finishing_times;
use crate::scc::lemma_finishing_times;
use crate::scc::scc_sizes;
use crate::traversal::lemma_sweep_settled;
use crate::traversal::sweep;
use crate::traversal::total;
use vstd::prelude::*;

verus! {

/// The graph of the edge list, renamed by finishing times: what the second pass searches.
pub open spec fn renamed_graph(edges: Seq<(i32, i32)>) -> Map<i32, Seq<i32>> {
    graph_of(relabeled(edges, finishing_times(edges)))
}

/// The vertex of `1..=max_vertex(edges)` whose finishing time is `time`.
pub open spec fn vertex_at(edges: Seq<(i32, i32)>, time: i32) -> i32 {
    numbered_as(finishing_times(edges), max_vertex(edges), time)
}

/// The leader under which the second pass records `x`: the largest finishing
/// time of a vertex that reaches `x`.
pub open spec fn leader(edges: Seq<(i32, i32)>, x: i32) -> i32 {
    leader_of(renamed_graph(edges), max_vertex(edges), finishing_times(edges)[x]) as i32
}

/// The strongly connected component of `x`: the vertices of
/// `1..=max_vertex(edges)` that `x` reaches and that reach `x`.
pub open spec fn scc_of(edges: Seq<(i32, i32)>, x: i32) -> Set<i32> {
    Set::new(
        |y: i32| 1 <= y <= max_vertex(edges) && strongly_connected(graph_of(edges), x, y),
    )
}

/// The finishing times are a numbering of the vertices
/// `1..=max_vertex(edges)`, and `vertex_at` undoes it.
pub proof fn lemma_finishing_times_one_to_one(edges: Seq<(i32, i32)>)
    requires
        positive(edges),
    ensures
        numbering(finishing_times(edges), max_vertex(edges)),
        forall|time: i32|
            1 <= time <= max_vertex(edges) ==> 1 <= #[trigger] vertex_at(edges, time)
                <= max_vertex(edges) && finishing_times(edges)[vertex_at(edges, time)] == time,
        forall|x: i32|
            1 <= x <= max_vertex(edges) ==> vertex_at(edges, #[trigger] finishing_times(edges)[x])
                == x,
{
    lemma_max_vertex(edges);
    lemma_reversed_within(edges);
    lemma_first_pass_numbering(graph_of(reversed(edges)), max_vertex(edges));
    lemma_numbering_onto(finishing_times(edges), max_vertex(edges));
}

/// Renaming takes every edge of the graph to an edge of the renamed graph.
pub proof fn lemma_renamed_edges(edges: Seq<(i32, i32)>, times: Map<i32, i32>)
    ensures
        forall|a: i32, b: i32| #[trigger]
            has_edge(graph_of(edges), a, b) ==> has_edge(
                graph_of(relabeled(edges, times)),
                times[a],
                times[b],
            ),
{
    let pairs = relabeled(edges, times);
    lemma_graph_of(edges);
    lemma_graph_of(pairs);
    assert forall|a: i32, b: i32| #[trigger] has_edge(graph_of(edges), a, b) implies has_edge(
        graph_of(pairs),
        times[a],
        times[b],
    ) by {
        assert(lists(edges, a, b));
        let k = choose|k: int| 0 <= k < edges.len() && #[trigger] edges[k] == (a, b);
        assert(pairs[k] == (times[a], times[b]));
        assert(lists(pairs, times[a], times[b]));
    }
}

/// Where every vertex of the graph reaches every other, the second pass
/// over the graph renamed by a numbering records one leader, the largest
/// number, with all vertices under it.
pub proof fn lemma_single_component_renamed(edges: Seq<(i32, i32)>, times: Map<i32, i32>)
    requires
        positive(edges),
        max_vertex(edges) >= 1,
        numbering(times, max_vertex(edges)),
        forall|u: i32, v: i32|
            1 <= u <= max_vertex(edges) && 1 <= v <= max_vertex(edges) ==> #[trigger] reaches(
                graph_of(edges),
                u,
                v,
            ),
    ensures
        sweep(graph_of(relabeled(edges, times)), false, max_vertex(edges), 1).table == Map::<
            i32,
            i32,
        >::empty().insert(max_vertex(edges) as i32, max_vertex(edges) as i32),
{
    let n = max_vertex(edges);
    let graph = graph_of(edges);
    let renamed = graph_of(relabeled(edges, times));
    lemma_max_vertex(edges);
    lemma_numbering_onto(times, n);
    lemma_renamed_edges(edges, times);
    assert forall|k: int| 0 <= k < edges.len() implies 1 <= times[(#[trigger] edges[k]).0] <= n
        && 1 <= times[edges[k].1] <= n by {
        assert(times.contains_key(edges[k].0));
        assert(times.contains_key(edges[k].1));
    }
    lemma_relabeled_within(edges, times, n);
    let f = |x: i32| times[x];
    assert forall|a: i32, b: i32| 1 <= a <= n && 1 <= b <= n implies #[trigger] reaches(
        renamed,
        a,
        b,
    ) by {
        let u = numbered_as(times, n, a);
        let v = numbered_as(times, n, b);
        assert(reaches(graph, u, v));
        lemma_reaches_mapped(graph, renamed, f, u, v);
    }
    lemma_single_component(renamed, n);
}

/// Where every vertex of the graph reaches every other, the result is one
/// leader, the largest vertex identifier, and its size is the number of vertices.
pub proof fn lemma_strongly_connected_graph(edges: Seq<(i32, i32)>)
    requires
        positive(edges),
        max_vertex(edges) >= 1,
        forall|u: i32, v: i32|
            1 <= u <= max_vertex(edges) && 1 <= v <= max_vertex(edges) ==> #[trigger] reaches(
                graph_of(edges),
                u,
                v,
            ),
    ensures
        scc_sizes(edges) == Map::<i32, i32>::empty().insert(
            max_vertex(edges) as i32,
            max_vertex(edges) as i32,
        ),
{
    lemma_finishing_times_one_to_one(edges);
    lemma_single_component_renamed(edges, finishing_times(edges));
}

/// What reaches what in the graph is reached by it in the reversed graph.
pub proof fn lemma_reach_reversed(edges: Seq<(i32, i32)>, u: i32, v: i32)
    ensures
        reaches(graph_of(edges), u, v) <==> reaches(graph_of(reversed(edges)), v, u),
{
    let graph = graph_of(edges);
    let reverse = graph_of(reversed(edges));
    lemma_graph_of(edges);
    lemma_graph_of(reversed(edges));
    assert forall|a: i32, b: i32| #[trigger] has_edge(graph, a, b) implies has_edge(
        reverse,
        b,
        a,
    ) by {
        assert(lists(edges, a, b));
        let k = choose|k: int| 0 <= k < edges.len() && #[trigger] edges[k] == (a, b);
        assert(reversed(edges)[k] == (b, a));
        assert(lists(reversed(edges), b, a));
    }
    assert forall|a: i32, b: i32| #[trigger] has_edge(reverse, a, b) implies has_edge(
        graph,
        b,
        a,
    ) by {
        assert(lists(reversed(edges), a, b));
        let k = choose|k: int|
            0 <= k < reversed(edges).len() && #[trigger] reversed(edges)[k] == (a, b);
        assert(edges[k] == (b, a));
        assert(lists(edges, b, a));
    }
    if reaches(graph, u, v) {
        lemma_reaches_turned(graph, reverse, u, v);
    }
    if reaches(reverse, v, u) {
        lemma_reaches_turned(reverse, graph, v, u);
    }
}

/// What reaches what in the graph does so, under its new names, in the renamed graph.
pub proof fn lemma_reach_renamed(edges: Seq<(i32, i32)>, u: i32, v: i32)
    requires
        positive(edges),
        1 <= u <= max_vertex(edges),
        1 <= v <= max_vertex(edges),
    ensures
        reaches(graph_of(edges), u, v) <==> reaches(
            renamed_graph(edges),
            finishing_times(edges)[u],
            finishing_times(edges)[v],
        ),
{
    let n = max_vertex(edges);
    let times = finishing_times(edges);
    let graph = graph_of(edges);
    let renamed = renamed_graph(edges);
    let pairs = relabeled(edges, times);
    lemma_finishing_times_one_to_one(edges);
    lemma_max_vertex(edges);
    lemma_graph_of(edges);
    lemma_graph_of(pairs);
    let f = |x: i32| times[x];
    let g = |t: i32| vertex_at(edges, t);
    lemma_renamed_edges(edges, times);
    assert forall|a: i32, b: i32| #[trigger] has_edge(renamed, a, b) implies has_edge(
        graph,
        g(a),
        g(b),
    ) by {
        assert(lists(pairs, a, b));
        let k = choose|k: int| 0 <= k < pairs.len() && #[trigger] pairs[k] == (a, b);
        let e = edges[k];
        assert(1 <= e.0 <= n && 1 <= e.1 <= n);
        assert(vertex_at(edges, times[e.0]) == e.0);
        assert(vertex_at(edges, times[e.1]) == e.1);
        assert(edges[k] == (g(a), g(b)));
        assert(lists(edges, g(a), g(b)));
    }
    assert(g(times[u]) == u);
    assert(g(times[v]) == v);
    if reaches(graph, u, v) {
        lemma_reaches_mapped(graph, renamed, f, u, v);
    }
    if reaches(renamed, times[u], times[v]) {
        lemma_reaches_mapped(renamed, graph, g, times[u], times[v]);
    }
}

/// From a vertex `c` of the component of `x` up to the one that finishes
/// last: it is `m`, if `x` reaches `m` and nothing that `x` reaches finishes
/// later than `m`.
proof fn lemma_climb(edges: Seq<(i32, i32)>, x: i32, c: i32, m: i32)
    requires
        positive(edges),
        1 <= x <= max_vertex(edges),
        1 <= c <= max_vertex(edges),
        1 <= m <= max_vertex(edges),
        strongly_connected(graph_of(reversed(edges)), x, c),
        reaches(graph_of(reversed(edges)), x, m),
        forall|z: i32|
            1 <= z <= max_vertex(edges) && #[trigger] reaches(graph_of(reversed(edges)), x, z)
                ==> finishing_times(edges)[z] <= finishing_times(edges)[m],
    ensures
        strongly_connected(graph_of(reversed(edges)), x, m),
    decreases max_vertex(edges) - finishing_times(edges)[c],
{
    let n = max_vertex(edges);
    let reverse = graph_of(reversed(edges));
    let done = sweep(reverse, true, n, 1);
    let times = finishing_times(edges);
    assert(times == done.table);
    lemma_max_vertex(edges);
    lemma_reversed_within(edges);
    lemma_sweep_orderly(reverse, n, 1);
    lemma_sweep_settled(reverse, true, n, 1);
    lemma_finishing_times_one_to_one(edges);
    assert(done.table.contains_key(c));
    assert(outranked(reverse, done, c) || dominates(reverse, done, c));
    if outranked(reverse, done, c) {
        let s = choose|s: i32| #[trigger] outranks(reverse, done, c, s);
        assert(outranks(reverse, done, c, s));
        assert(!pending(done, s)) by {
            assert(done.table.contains_key(s) <==> done.explored.contains(s));
        }
        assert(times.contains_key(s));
        lemma_reaches_trans(reverse, x, c, s);
        lemma_reaches_trans(reverse, s, c, x);
        lemma_climb(edges, x, s, m);
    } else {
        lemma_reaches_trans(reverse, c, x, m);
        assert(done.table[m] <= done.table[c]);
        assert(times[c] <= times[m]);
        assert(c == m);
    }
}

/// The leader of a vertex is the finishing time of a vertex of its component.
pub proof fn lemma_leader_in_component(edges: Seq<(i32, i32)>, x: i32)
    requires
        positive(edges),
        1 <= x <= max_vertex(edges),
    ensures
        1 <= leader(edges, x) <= max_vertex(edges),
        leader(edges, x) == leader_of(
            renamed_graph(edges),
            max_vertex(edges),
            finishing_times(edges)[x],
        ),
        1 <= vertex_at(edges, leader(edges, x)) <= max_vertex(edges),
        strongly_connected(graph_of(edges), x, vertex_at(edges, leader(edges, x))),
{
    let n = max_vertex(edges);
    let times = finishing_times(edges);
    let graph = graph_of(edges);
    let reverse = graph_of(reversed(edges));
    let renamed = renamed_graph(edges);
    lemma_max_vertex(edges);
    lemma_finishing_times(edges);
    lemma_finishing_times_one_to_one(edges);
    let a = times[x];
    assert(times.contains_key(x));
    lemma_top_reacher(renamed, n, a);
    lemma_reaches_self(renamed, Set::empty(), a);
    let top = leader(edges, x);
    assert(a <= top <= n);
    let m = vertex_at(edges, top);
    assert(1 <= m <= n && times[m] == top);
    lemma_reach_renamed(edges, m, x);
    lemma_reach_reversed(edges, m, x);
    assert forall|z: i32| 1 <= z <= n && #[trigger] reaches(reverse, x, z) implies times[z]
        <= times[m] by {
        lemma_reach_reversed(edges, z, x);
        lemma_reach_renamed(edges, z, x);
        assert(times.contains_key(z));
        lemma_leader_is_largest(renamed, n, times[z], a);
    }
    lemma_reaches_self(reverse, Set::empty(), x);
    lemma_climb(edges, x, x, m);
    lemma_reach_reversed(edges, x, m);
}

/// Two vertices are recorded under the same leader exactly if each reaches the other.
pub proof fn lemma_same_leader(edges: Seq<(i32, i32)>, x: i32, y: i32)
    requires
        positive(edges),
        1 <= x <= max_vertex(edges),
        1 <= y <= max_vertex(edges),
    ensures
        leader(edges, x) == leader(edges, y) <==> strongly_connected(graph_of(edges), x, y),
{
    let n = max_vertex(edges);
    let times = finishing_times(edges);
    let graph = graph_of(edges);
    let renamed = renamed_graph(edges);
    lemma_max_vertex(edges);
    lemma_leader_in_component(edges, x);
    lemma_leader_in_component(edges, y);
    lemma_finishing_times_one_to_one(edges);
    let a = times[x];
    let b = times[y];
    assert(times.contains_key(x) && times.contains_key(y));
    if strongly_connected(graph, x, y) {
        lemma_reach_renamed(edges, x, y);
        lemma_reach_renamed(edges, y, x);
        lemma_top_reacher(renamed, n, a);
        lemma_top_reacher(renamed, n, b);
        lemma_reaches_trans(renamed, leader(edges, x), a, b);
        lemma_leader_is_largest(renamed, n, leader(edges, x), b);
        lemma_reaches_trans(renamed, leader(edges, y), b, a);
        lemma_leader_is_largest(renamed, n, leader(edges, y), a);
    }
    if leader(edges, x) == leader(edges, y) {
        let m = vertex_at(edges, leader(edges, x));
        lemma_reaches_trans(graph, x, m, y);
        lemma_reaches_trans(graph, y, m, x);
    }
}

/// The size recorded under the leader of a vertex is the size of its
/// strongly connected component.
pub proof fn lemma_component_size(edges: Seq<(i32, i32)>, x: i32)
    requires
        positive(edges),
        1 <= x <= max_vertex(edges),
    ensures
        scc_sizes(edges).contains_key(leader(edges, x)),
        scc_sizes(edges)[leader(edges, x)] == scc_of(edges, x).len(),
{
    let n = max_vertex(edges);
    let times = finishing_times(edges);
    let renamed = renamed_graph(edges);
    lemma_max_vertex(edges);
    lemma_finishing_times(edges);
    lemma_finishing_times_one_to_one(edges);
    lemma_leader_in_component(edges, x);
    lemma_leaders_partition(renamed, n);
    let top = leader(edges, x);
    assert(times.contains_key(x));
    assert(scc_sizes(edges).contains_key(leader_of(renamed, n, times[x]) as i32));
    let members = scc_of(edges, x);
    let recorded = component(renamed, n, top);
    let f = |y: i32| times[y];
    lemma_bounded_set(members, n);
    assert forall|b: i32| recorded.contains(b) <==> members.map(f).contains(b) by {
        if recorded.contains(b) {
            let y = vertex_at(edges, b);
            assert(1 <= y <= n && times[y] == b);
            lemma_leader_in_component(edges, y);
            lemma_same_leader(edges, x, y);
            assert(members.contains(y) && b == f(y));
        }
        if members.map(f).contains(b) {
            let y = choose|y: i32| members.contains(y) && b == f(y);
            lemma_leader_in_component(edges, y);
            lemma_same_leader(edges, x, y);
            assert(times.contains_key(y));
        }
    }
    assert(members.map(f) =~= recorded);
    assert(vstd::relations::injective_on(f, members));
    vstd::set_lib::lemma_map_size(members, recorded, f);
}

/// Every leader in the result is the leader of a vertex: of the one whose
/// finishing time it is.
pub proof fn lemma_leader_of_some_vertex(edges: Seq<(i32, i32)>, key: i32)
    requires
        positive(edges),
        scc_sizes(edges).contains_key(key),
    ensures
        1 <= key <= max_vertex(edges),
        1 <= vertex_at(edges, key) <= max_vertex(edges),
        leader(edges, vertex_at(edges, key)) == key,
{
    let n = max_vertex(edges);
    lemma_max_vertex(edges);
    lemma_finishing_times(edges);
    lemma_finishing_times_one_to_one(edges);
    lemma_leaders_partition(renamed_graph(edges), n);
}

/// `sizes` holds the sizes of the strongly connected components of the
/// graph of `edges`, each once: every vertex has its leader in `sizes`, with
/// the size of its component; two vertices have the same leader exactly if
/// each reaches the other; every key of `sizes` is the leader of a vertex;
/// and the sizes add up to the number of vertices.
pub open spec fn component_sizes(edges: Seq<(i32, i32)>, sizes: Map<i32, i32>) -> bool {
    let n = max_vertex(edges);
    &&& total(sizes, n) == n
    &&& forall|x: i32|
        1 <= x <= n ==> sizes.contains_key(#[trigger] leader(edges, x)) && sizes[leader(edges, x)]
            == scc_of(edges, x).len()
    &&& forall|x: i32, y: i32|
        #![trigger leader(edges, x), leader(edges, y)]
        1 <= x <= n && 1 <= y <= n ==> (leader(edges, x) == leader(edges, y)
            <==> strongly_connected(graph_of(edges), x, y))
    &&& forall|key: i32| #[trigger]
        sizes.contains_key(key) ==> 1 <= key <= n && 1 <= vertex_at(edges, key) <= n && leader(
            edges,
            vertex_at(edges, key),
        ) == key
}

/// The two passes compute the sizes of the strongly connected components.
pub proof fn lemma_scc_sizes(edges: Seq<(i32, i32)>)
    requires
        positive(edges),
    ensures
        component_sizes(edges, scc_sizes(edges)),
{
    let n = max_vertex(edges);
    lemma_max_vertex(edges);
    lemma_finishing_times(edges);
    lemma_sizes_sum(renamed_graph(edges), n);
    assert forall|x: i32| 1 <= x <= n implies scc_sizes(edges).contains_key(
        #[trigger] leader(edges, x),
    ) && scc_sizes(edges)[leader(edges, x)] == scc_of(edges, x).len() by {
        lemma_component_size(edges, x);
    }
    assert forall|x: i32, y: i32|
        #![trigger leader(edges, x), leader(edges, y)]
        1 <= x <= n && 1 <= y <= n implies (leader(edges, x) == leader(edges, y)
        <==> strongly_connected(graph_of(edges), x, y)) by {
        lemma_same_leader(edges, x, y);
    }
    assert forall|key: i32| #[trigger] scc_sizes(edges).contains_key(key) implies 1 <= key <= n
        && 1 <= vertex_at(edges, key) <= n && leader(edges, vertex_at(edges, key)) == key by {
        lemma_leader_of_some_vertex(edges, key);
    }
}

} // verus!
