//! The adjacency structure: which vertices a vertex has an edge to.

use std::collections::HashMap;
use std::collections::HashSet;
use vstd::prelude::*;

verus! {

/// The neighbours of `v`, in the order in which its edges were added.
/// A vertex without an entry has none.
pub open spec fn neighbors(adj: Map<i32, Seq<i32>>, v: i32) -> Seq<i32> {
    if adj.contains_key(v) {
        adj[v]
    } else {
        Seq::empty()
    }
}

/// Whether `adj` holds the edge `from -> to`.
pub open spec fn has_edge(adj: Map<i32, Seq<i32>>, from: i32, to: i32) -> bool {
    neighbors(adj, from).contains(to)
}

/// `adj` with the edge `from -> to`; an edge that is already there is not added again.
pub open spec fn with_edge(adj: Map<i32, Seq<i32>>, from: i32, to: i32) -> Map<i32, Seq<i32>> {
    if has_edge(adj, from, to) {
        adj
    } else {
        adj.insert(from, neighbors(adj, from).push(to))
    }
}

/// Every vertex that `adj` mentions, as a key or as a neighbour, lies in `1..=bound`.
pub open spec fn within(adj: Map<i32, Seq<i32>>, bound: int) -> bool {
    forall|u: i32, v: i32| #[trigger] has_edge(adj, u, v) ==> 1 <= u <= bound && 1 <= v <= bound
}

/// No neighbour list names a vertex twice.
pub open spec fn simple(adj: Map<i32, Seq<i32>>) -> bool {
    forall|v: i32| #[trigger] adj.contains_key(v) ==> adj[v].no_duplicates()
}

/// An added edge is there afterwards, beside the edges that were there
/// before and no others; and neighbour lists without repetition stay so.
pub proof fn lemma_with_edge(adj: Map<i32, Seq<i32>>, from: i32, to: i32)
    ensures
        forall|u: i32, v: i32| #[trigger]
            has_edge(with_edge(adj, from, to), u, v) <==> (has_edge(adj, u, v) || (u == from && v
                == to)),
        simple(adj) ==> simple(with_edge(adj, from, to)),
{
    let next = with_edge(adj, from, to);
    assert forall|u: i32, v: i32| #[trigger]
        has_edge(next, u, v) <==> (has_edge(adj, u, v) || (u == from && v == to)) by {
        if !has_edge(adj, from, to) {
            let old_list = neighbors(adj, from);
            let new_list = old_list.push(to);
            if u == from {
                assert(neighbors(next, u) == new_list);
                if has_edge(adj, u, v) {
                    let i = choose|i: int| 0 <= i < old_list.len() && old_list[i] == v;
                    assert(new_list[i] == v);
                }
                if v == to {
                    assert(new_list[old_list.len() as int] == v);
                }
            } else {
                assert(neighbors(next, u) == neighbors(adj, u));
            }
        }
    }
    if simple(adj) && !has_edge(adj, from, to) {
        assert forall|v: i32| #[trigger] next.contains_key(v) implies next[v].no_duplicates() by {
            if v == from {
                let old_list = neighbors(adj, from);
                assert(old_list.no_duplicates());
                assert(!old_list.contains(to));
            } else {
                assert(adj.contains_key(v));
            }
        }
    }
}

/// The neighbours of one vertex: as a list, in the order in which they were
/// added, and as a set.
#[derive(Debug)]
struct Neighbors {
    order: Vec<i32>,
    members: HashSet<i32>,
}

/// A directed graph as an adjacency structure: a vertex with outgoing edges is
/// mapped to the set of its neighbours. A vertex that only ever occurs as a
/// neighbour, or not at all, has no entry.
#[derive(Debug)]
pub struct Graph {
    adj: HashMap<i32, Neighbors>,
}

impl View for Graph {
    type V = Map<i32, Seq<i32>>;

    /// The neighbour list of every vertex that has one.
    closed spec fn view(&self) -> Map<i32, Seq<i32>> {
        Map::new(|v: i32| self.adj@.contains_key(v), |v: i32| self.adj@[v].order@)
    }
}

impl Graph {
    /// The neighbours of a vertex are a set: none occurs twice in its list,
    /// and the list and the set hold the same.
    pub closed spec fn wf(&self) -> bool {
        &&& simple(self@)
        &&& forall|v: i32, x: i32|
            #![trigger self.adj@[v].members@.contains(x)]
            self.adj@.contains_key(v) ==> (self.adj@[v].members@.contains(x)
                <==> self.adj@[v].order@.contains(x))
    }

    /// In a well-formed graph no neighbour list names a vertex twice.
    pub proof fn lemma_wf_simple(&self)
        requires
            self.wf(),
        ensures
            simple(self@),
    {
    }

    /// The graph without edges.
    pub fn new() -> (g: Graph)
        ensures
            g@ == Map::<i32, Seq<i32>>::empty(),
            g.wf(),
    {
        let g = Graph { adj: HashMap::new() };
        assert(g@ =~= Map::<i32, Seq<i32>>::empty());
        g
    }

    /// Adds the edge `from -> to`. Adding an edge again changes nothing.
    pub fn add_edge(&mut self, from: i32, to: i32)
        requires
            old(self).wf(),
        ensures
            final(self)@ == with_edge(old(self)@, from, to),
            final(self).wf(),
    {
        broadcast use vstd::std_specs::hash::group_hash_axioms;

        let ghost before = self@;
        let ghost held = self.adj@;
        let mut entry = match self.adj.remove(&from) {
            Some(e) => e,
            None => Neighbors { order: Vec::new(), members: HashSet::new() },
        };
        let ghost list = entry.order@;
        assert(list == neighbors(before, from));
        assert(forall|x: i32| entry.members@.contains(x) <==> list.contains(x));
        assert(list.no_duplicates());
        if !entry.members.contains(&to) {
            entry.order.push(to);
            entry.members.insert(to);
            assert forall|x: i32| entry.members@.contains(x) <==> entry.order@.contains(x) by {
                if list.contains(x) {
                    let i = choose|i: int| 0 <= i < list.len() && list[i] == x;
                    assert(entry.order@[i] == x);
                }
                if x == to {
                    assert(entry.order@[list.len() as int] == x);
                }
            }
        }
        let ghost members = entry.members@;
        let ghost order = entry.order@;
        self.adj.insert(from, entry);
        assert(self@ =~= with_edge(before, from, to));
        proof {
            lemma_with_edge(before, from, to);
            assert forall|v: i32, x: i32|
                #![trigger self.adj@[v].members@.contains(x)]
                self.adj@.contains_key(v) implies (self.adj@[v].members@.contains(x)
                <==> self.adj@[v].order@.contains(x)) by {
                if v == from {
                    assert(self.adj@[v].members@ == members);
                    assert(self.adj@[v].order@ == order);
                } else {
                    assert(self.adj@[v] == held[v]);
                }
            }
        }
    }

    /// The neighbours of `v`, or `None` where `v` has no outgoing edge.
    pub fn neighbors_of(&self, v: i32) -> (r: Option<&Vec<i32>>)
        ensures
            match r {
                Some(list) => self@.contains_key(v) && list@ == self@[v],
                None => !self@.contains_key(v),
            },
    {
        broadcast use vstd::std_specs::hash::group_hash_axioms;

        match self.adj.get(&v) {
            Some(entry) => Some(&entry.order),
            None => None,
        }
    }

    /// Whether the graph holds the edge `from -> to`.
    pub fn contains_edge(&self, from: i32, to: i32) -> (r: bool)
        requires
            self.wf(),
        ensures
            r == has_edge(self@, from, to),
    {
        broadcast use vstd::std_specs::hash::group_hash_axioms;

        match self.adj.get(&from) {
            Some(entry) => entry.members.contains(&to),
            None => false,
        }
    }
}

} // verus!
