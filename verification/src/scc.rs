//! The strongly connected components of a directed graph, by Kosaraju's
//! two passes.

use crate::counting::lemma_bounded_set;
use crate::error::SccError;
use crate::graph::within;
use crate::kosaraju::component_sizes;
use crate::kosaraju::lemma_scc_sizes;
use crate::loader::all_numbered;
use crate::loader::graph_of;
use crate::loader::lemma_max_vertex;
use crate::loader::lemma_relabeled_within;
use crate::loader::lemma_reversed_within;
use crate::loader::make_reverse_graph;
use crate::loader::max_vertex;
use crate::loader::relabel_graph;
use crate::loader::relabeled;
use crate::loader::reversed;
use crate::parse::parse;
use crate::parse::positive;
use crate::traversal::dfs_outer;
use crate::traversal::lemma_sweep_settled;
use crate::traversal::sweep;
use std::collections::HashMap;
use vstd::prelude::*;

verus! {

/// The finishing times of the vertices `1..=max_vertex(edges)`: the first
/// pass, over the reversed graph.
pub open spec fn finishing_times(edges: Seq<(i32, i32)>) -> Map<i32, i32> {
    sweep(graph_of(reversed(edges)), true, max_vertex(edges), 1).table
}

/// The leaders of the components of `edges` with the sizes of their
/// components: the second pass, over the graph renamed by finishing times.
pub open spec fn scc_sizes(edges: Seq<(i32, i32)>) -> Map<i32, i32> {
    sweep(graph_of(relabeled(edges, finishing_times(edges))), false, max_vertex(edges), 1).table
}

/// What `compute_scc` returns on the text `source`: the table of the second
/// pass, or the error of a text that is no edge list.
pub open spec fn computed(source: Seq<u8>, result: Result<HashMap<i32, i32>, SccError>) -> bool {
    match parse(source) {
        Some(edges) => result matches Ok(sizes) && sizes@ == scc_sizes(edges),
        None => result matches Err(e) && e == SccError::ParseError,
    }
}

/// The result is a function of the text: two runs on the same text end the
/// same way, and where they succeed they return the same leaders with the
/// same sizes.
pub proof fn lemma_same_text_same_result(
    source: Seq<u8>,
    first: Result<HashMap<i32, i32>, SccError>,
    second: Result<HashMap<i32, i32>, SccError>,
)
    requires
        computed(source, first),
        computed(source, second),
    ensures
        match (first, second) {
            (Ok(a), Ok(b)) => a@ == b@,
            (Err(a), Err(b)) => a == b,
            _ => false,
        },
{
}

/// The empty text lists no edges, and its result has no leader.
pub proof fn lemma_empty_text()
    ensures
        parse(Seq::<u8>::empty()) == Some(Seq::<(i32, i32)>::empty()),
        max_vertex(Seq::<(i32, i32)>::empty()) == 0,
        scc_sizes(Seq::<(i32, i32)>::empty()) == Map::<i32, i32>::empty(),
{
}

/// After the first pass every vertex of the edge list has a finishing time
/// in `1..=max_vertex(edges)`.
pub proof fn lemma_finishing_times(edges: Seq<(i32, i32)>)
    requires
        positive(edges),
    ensures
        forall|v: i32|
            1 <= v <= max_vertex(edges) ==> #[trigger] finishing_times(edges).contains_key(v) && 1
                <= finishing_times(edges)[v] <= max_vertex(edges),
        all_numbered(edges, finishing_times(edges)),
        within(graph_of(relabeled(edges, finishing_times(edges))), max_vertex(edges)),
{
    let n = max_vertex(edges);
    let reverse = graph_of(reversed(edges));
    lemma_max_vertex(edges);
    lemma_reversed_within(edges);
    lemma_sweep_settled(reverse, true, n, 1);
    let done = sweep(reverse, true, n, 1);
    let times = finishing_times(edges);
    assert(times == done.table);
    lemma_bounded_set(done.explored, n);
    assert forall|v: i32| 1 <= v <= n implies #[trigger] times.contains_key(v) && 1 <= times[v]
        <= n by {
        assert(done.explored.contains(v));
    }
    assert forall|k: int| 0 <= k < edges.len() implies times.contains_key((#[trigger] edges[k]).0)
        && times.contains_key(edges[k].1) && 1 <= times[edges[k].0] <= n && 1
        <= times[edges[k].1] <= n by {
        assert(1 <= edges[k].0 <= n);
        assert(1 <= edges[k].1 <= n);
    }
    lemma_relabeled_within(edges, times, n);
}

/// Computes the strongly connected components of the graph that `source`
/// lists, one edge `tail head` per line, and returns the size of each
/// component under its leader.
///
/// The first pass searches the reversed graph from the largest vertex down
/// and numbers the vertices as their searches finish. The second pass
/// searches the graph itself, with each vertex renamed to its finishing time,
/// again from the largest down: the root of each search is the leader of
/// the component that the search reaches.
pub fn compute_scc(source: &[u8]) -> (result: Result<HashMap<i32, i32>, SccError>)
    ensures
        computed(source@, result),
        match parse(source@) {
            Some(edges) => result matches Ok(sizes) && component_sizes(edges, sizes@),
            None => result is Err,
        },
{
    let (reverse_graph, num_vertices) = match make_reverse_graph(source) {
        Ok(loaded) => loaded,
        Err(e) => {
            return Err(e);
        },
    };
    let ghost edges = parse(source@).unwrap();
    proof {
        lemma_reversed_within(edges);
        lemma_finishing_times(edges);
        lemma_scc_sizes(edges);
    }
    let finishing_times = dfs_outer(&reverse_graph, true, num_vertices);
    // The first pass has numbered every vertex of the list, so no lookup fails.
    let relabelled_graph = match relabel_graph(source, &finishing_times) {
        Ok(graph) => graph,
        Err(e) => {
            return Err(e);
        },
    };
    let scc_map = dfs_outer(&relabelled_graph, false, num_vertices);
    Ok(scc_map)
}

} // verus!
