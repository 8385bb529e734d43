//! From an edge list to an adjacency structure: with the edges reversed, for
//! the first pass, or with the vertices renamed by their finishing times, for
//! the second.

use crate::error::SccError;
use crate::graph::Graph;
use crate::graph::has_edge;
use crate::graph::lemma_with_edge;
use crate::graph::simple;
use crate::graph::with_edge;
use crate::graph::within;
use crate::parse::parse;
use crate::parse::parse_edges;
use crate::parse::positive;
use std::collections::HashMap;
use vstd::prelude::*;

verus! {

/// The adjacency structure that holds the edges `(from, to)` of `edges`,
/// added in their order.
pub open spec fn graph_of(edges: Seq<(i32, i32)>) -> Map<i32, Seq<i32>>
    decreases edges.len(),
{
    if edges.len() == 0 {
        Map::empty()
    } else {
        with_edge(graph_of(edges.drop_last()), edges.last().0, edges.last().1)
    }
}

/// The edges of `edges`, each one turned round.
pub open spec fn reversed(edges: Seq<(i32, i32)>) -> Seq<(i32, i32)> {
    Seq::new(edges.len(), |k: int| (edges[k].1, edges[k].0))
}

/// The edges of `edges`, with each vertex renamed to its finishing time.
pub open spec fn relabeled(edges: Seq<(i32, i32)>, times: Map<i32, i32>) -> Seq<(i32, i32)> {
    Seq::new(edges.len(), |k: int| (times[edges[k].0], times[edges[k].1]))
}

/// The largest vertex identifier in `edges`; `0` if there is no edge.
pub open spec fn max_vertex(edges: Seq<(i32, i32)>) -> int
    decreases edges.len(),
{
    if edges.len() == 0 {
        0
    } else {
        let rest = max_vertex(edges.drop_last());
        let (tail, head) = edges.last();
        if tail > rest && tail >= head {
            tail as int
        } else if head > rest {
            head as int
        } else {
            rest
        }
    }
}

/// Both ends of every edge have a finishing time.
pub open spec fn all_numbered(edges: Seq<(i32, i32)>, times: Map<i32, i32>) -> bool {
    forall|k: int|
        0 <= k < edges.len() ==> times.contains_key((#[trigger] edges[k]).0) && times.contains_key(
            edges[k].1,
        )
}

/// Whether `(from, to)` occurs in `edges`.
pub open spec fn lists(edges: Seq<(i32, i32)>, from: i32, to: i32) -> bool {
    exists|k: int| 0 <= k < edges.len() && #[trigger] edges[k] == (from, to)
}

/// The adjacency structure of an edge list holds its edges and no others,
/// and none twice.
pub proof fn lemma_graph_of(edges: Seq<(i32, i32)>)
    ensures
        forall|u: i32, v: i32| #[trigger] has_edge(graph_of(edges), u, v) <==> lists(edges, u, v),
        simple(graph_of(edges)),
    decreases edges.len(),
{
    if edges.len() == 0 {
        assert forall|u: i32, v: i32| #[trigger]
            has_edge(graph_of(edges), u, v) <==> lists(edges, u, v) by {}
    } else {
        let before = edges.drop_last();
        let last = edges.last();
        lemma_graph_of(before);
        lemma_with_edge(graph_of(before), last.0, last.1);
        assert(graph_of(edges) == with_edge(graph_of(before), last.0, last.1));
        assert forall|u: i32, v: i32| #[trigger]
            has_edge(graph_of(edges), u, v) <==> lists(edges, u, v) by {
            assert(has_edge(graph_of(edges), u, v) <==> (has_edge(graph_of(before), u, v) || (u
                == last.0 && v == last.1)));
            if lists(edges, u, v) {
                let k = choose|k: int| 0 <= k < edges.len() && #[trigger] edges[k] == (u, v);
                if k < before.len() {
                    assert(before[k] == (u, v));
                    assert(lists(before, u, v));
                }
            }
            if has_edge(graph_of(edges), u, v) {
                if has_edge(graph_of(before), u, v) {
                    assert(lists(before, u, v));
                    let k = choose|k: int| 0 <= k < before.len() && #[trigger] before[k] == (u, v);
                    assert(edges[k] == (u, v));
                } else {
                    assert(edges[edges.len() - 1] == (u, v));
                }
            }
        }
    }
}

/// No vertex of an edge list is larger than its largest.
pub proof fn lemma_max_vertex(edges: Seq<(i32, i32)>)
    ensures
        0 <= max_vertex(edges) <= i32::MAX,
        forall|k: int|
            0 <= k < edges.len() ==> (#[trigger] edges[k]).0 <= max_vertex(edges) && edges[k].1
                <= max_vertex(edges),
    decreases edges.len(),
{
    if edges.len() > 0 {
        let before = edges.drop_last();
        lemma_max_vertex(before);
        assert forall|k: int| 0 <= k < edges.len() implies (#[trigger] edges[k]).0 <= max_vertex(
            edges,
        ) && edges[k].1 <= max_vertex(edges) by {
            if k < before.len() {
                assert(before[k] == edges[k]);
            }
        }
    }
}

/// The edges of `edges` as they are, or, if `reverse`, each one turned round.
pub open spec fn directed(edges: Seq<(i32, i32)>, reverse: bool) -> Seq<(i32, i32)> {
    if reverse {
        reversed(edges)
    } else {
        edges
    }
}

/// The graph of an edge list with positive vertices, reversed or not, has
/// its vertices between `1` and the largest, and holds exactly the edges of
/// the list, in its direction.
pub proof fn lemma_directed(edges: Seq<(i32, i32)>, reverse: bool)
    requires
        positive(edges),
    ensures
        within(graph_of(directed(edges, reverse)), max_vertex(edges)),
        forall|from: i32, to: i32| #[trigger]
            has_edge(graph_of(directed(edges, reverse)), from, to) <==> if reverse {
                lists(edges, to, from)
            } else {
                lists(edges, from, to)
            },
{
    let graph = graph_of(directed(edges, reverse));
    lemma_graph_of(directed(edges, reverse));
    lemma_max_vertex(edges);
    assert forall|from: i32, to: i32| #[trigger] has_edge(graph, from, to) <==> if reverse {
        lists(edges, to, from)
    } else {
        lists(edges, from, to)
    } by {
        if reverse {
            if lists(reversed(edges), from, to) {
                let k = choose|k: int|
                    0 <= k < reversed(edges).len() && #[trigger] reversed(edges)[k] == (from, to);
                assert(edges[k] == (to, from));
            }
            if lists(edges, to, from) {
                let k = choose|k: int| 0 <= k < edges.len() && #[trigger] edges[k] == (to, from);
                assert(reversed(edges)[k] == (from, to));
            }
        }
    }
    assert forall|u: i32, v: i32| #[trigger] has_edge(graph, u, v) implies 1 <= u <= max_vertex(
        edges,
    ) && 1 <= v <= max_vertex(edges) by {
        if reverse {
            let k = choose|k: int| 0 <= k < edges.len() && #[trigger] edges[k] == (v, u);
            assert(edges[k].0 >= 1);
        } else {
            let k = choose|k: int| 0 <= k < edges.len() && #[trigger] edges[k] == (u, v);
            assert(edges[k].0 >= 1);
        }
    }
}

/// The reversed graph of an edge list with positive vertices has its
/// vertices between `1` and the largest.
pub proof fn lemma_reversed_within(edges: Seq<(i32, i32)>)
    requires
        positive(edges),
    ensures
        within(graph_of(reversed(edges)), max_vertex(edges)),
{
    lemma_directed(edges, true);
}

/// Where the finishing times of all vertices lie in `1..=n`, so do the
/// vertices of the renamed graph.
pub proof fn lemma_relabeled_within(edges: Seq<(i32, i32)>, times: Map<i32, i32>, n: int)
    requires
        forall|k: int|
            0 <= k < edges.len() ==> 1 <= times[(#[trigger] edges[k]).0] <= n && 1
                <= times[edges[k].1] <= n,
    ensures
        within(graph_of(relabeled(edges, times)), n),
{
    let renamed = relabeled(edges, times);
    lemma_graph_of(renamed);
    assert forall|u: i32, v: i32| #[trigger] has_edge(graph_of(renamed), u, v) implies 1 <= u
        <= n && 1 <= v <= n by {
        assert(lists(renamed, u, v));
        let k = choose|k: int| 0 <= k < renamed.len() && #[trigger] renamed[k] == (u, v);
        assert(edges[k].0 == edges[k].0);
    }
}

/// Reads an edge list and builds its graph: under each vertex the heads of
/// the edges that leave it or, if `reverse`, the tails of the edges that lead
/// to it. Returns the graph and the largest vertex identifier of the list,
/// `0` for a list without edges.
pub fn load_graph(source: &[u8], reverse: bool) -> (result: Result<(Graph, i32), SccError>)
    ensures
        match parse(source@) {
            Some(edges) => result matches Ok(loaded) && loaded.0@ == graph_of(
                directed(edges, reverse),
            ) && loaded.0.wf() && loaded.1 == max_vertex(edges) && positive(edges) && within(
                loaded.0@,
                loaded.1 as int,
            ) && forall|from: i32, to: i32| #[trigger]
                has_edge(loaded.0@, from, to) <==> if reverse {
                    lists(edges, to, from)
                } else {
                    lists(edges, from, to)
                },
            None => result matches Err(e) && e == SccError::ParseError,
        },
{
    let edges = match parse_edges(source) {
        Ok(list) => list,
        Err(e) => {
            return Err(e);
        },
    };
    let mut graph = Graph::new();
    let mut largest_vertex: i32 = 0;
    let mut k: usize = 0;
    while k < edges.len()
        invariant
            k <= edges.len(),
            graph.wf(),
            graph@ == graph_of(directed(edges@.take(k as int), reverse)),
            largest_vertex == max_vertex(edges@.take(k as int)),
        decreases edges.len() - k,
    {
        let (tail_vertex, head_vertex) = edges[k];
        proof {
            let before = edges@.take(k as int);
            let now = edges@.take(k + 1);
            assert(now.drop_last() =~= before);
            assert(reversed(now).drop_last() =~= reversed(before));
            assert(reversed(now).last() == (head_vertex, tail_vertex));
            assert(now.last() == (tail_vertex, head_vertex));
            lemma_max_vertex(before);
        }
        if tail_vertex > largest_vertex {
            largest_vertex = tail_vertex;
        }
        if head_vertex > largest_vertex {
            largest_vertex = head_vertex;
        }
        if reverse {
            graph.add_edge(head_vertex, tail_vertex);
        } else {
            graph.add_edge(tail_vertex, head_vertex);
        }
        k = k + 1;
    }
    assert(edges@.take(edges.len() as int) =~= edges@);
    proof {
        lemma_directed(edges@, reverse);
    }
    Ok((graph, largest_vertex))
}

/// Reads an edge list and builds its graph with every edge reversed: the
/// neighbours of a vertex are the tails of the edges that lead to it. Returns
/// the graph and the largest vertex identifier of the list, `0` for a list
/// without edges.
pub fn make_reverse_graph(source: &[u8]) -> (result: Result<(Graph, i32), SccError>)
    ensures
        match parse(source@) {
            Some(edges) => result matches Ok(loaded) && loaded.0@ == graph_of(reversed(edges))
                && loaded.0.wf() && loaded.1 == max_vertex(edges) && positive(edges) && within(
                loaded.0@,
                loaded.1 as int,
            ) && forall|head: i32, tail: i32| #[trigger]
                has_edge(loaded.0@, head, tail) <==> lists(edges, tail, head),
            None => result matches Err(e) && e == SccError::ParseError,
        },
{
    load_graph(source, true)
}

/// Reads an edge list and builds its graph, edges as they are, with every
/// vertex renamed to its finishing time. A vertex without a finishing time
/// fails the whole list.
pub fn relabel_graph(source: &[u8], finishing_times: &HashMap<i32, i32>) -> (result: Result<
    Graph,
    SccError,
>)
    ensures
        match parse(source@) {
            Some(edges) => if all_numbered(edges, finishing_times@) {
                result matches Ok(graph) && graph@ == graph_of(
                    relabeled(edges, finishing_times@),
                ) && graph.wf() && forall|from: i32, to: i32| #[trigger]
                    has_edge(graph@, from, to) <==> lists(
                        relabeled(edges, finishing_times@),
                        from,
                        to,
                    )
            } else {
                result matches Err(e) && e == SccError::LookupError
            },
            None => result matches Err(e) && e == SccError::ParseError,
        },
{
    broadcast use vstd::std_specs::hash::group_hash_axioms;

    let edges = match parse_edges(source) {
        Ok(list) => list,
        Err(e) => {
            return Err(e);
        },
    };
    let ghost times = finishing_times@;
    let mut graph = Graph::new();
    let mut k: usize = 0;
    while k < edges.len()
        invariant
            k <= edges.len(),
            times == finishing_times@,
            parse(source@) == Some(edges@),
            graph.wf(),
            all_numbered(edges@.take(k as int), times),
            graph@ == graph_of(relabeled(edges@.take(k as int), times)),
        decreases edges.len() - k,
    {
        let (tail_vertex, head_vertex) = edges[k];
        let relabelled_tail = match finishing_times.get(&tail_vertex) {
            Some(time) => *time,
            None => {
                assert(!times.contains_key(edges@[k as int].0));
                return Err(SccError::LookupError);
            },
        };
        let relabelled_head = match finishing_times.get(&head_vertex) {
            Some(time) => *time,
            None => {
                assert(!times.contains_key(edges@[k as int].1));
                return Err(SccError::LookupError);
            },
        };
        proof {
            let before = edges@.take(k as int);
            let now = edges@.take(k + 1);
            assert(now.drop_last() =~= before);
            assert(relabeled(now, times).drop_last() =~= relabeled(before, times));
            assert(relabeled(now, times).last() == (relabelled_tail, relabelled_head));
            assert forall|j: int| 0 <= j < now.len() implies times.contains_key(
                (#[trigger] now[j]).0,
            ) && times.contains_key(now[j].1) by {
                if j < k {
                    assert(before[j] == now[j]);
                }
            }
        }
        graph.add_edge(relabelled_tail, relabelled_head);
        k = k + 1;
    }
    assert(edges@.take(edges.len() as int) =~= edges@);
    proof {
        lemma_graph_of(relabeled(edges@, times));
    }
    Ok(graph)
}

} // verus!
