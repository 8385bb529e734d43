use kosaraju_scc::compute_scc;
use kosaraju_scc::dfs_inner;
use kosaraju_scc::dfs_outer;
use kosaraju_scc::load_graph;
use kosaraju_scc::make_reverse_graph;
use kosaraju_scc::parse_edges;
use kosaraju_scc::relabel_graph;
use kosaraju_scc::Graph;
use kosaraju_scc::SccError;
use std::collections::HashMap;
use std::collections::HashSet;

fn map_of(entries: &[(i32, i32)]) -> HashMap<i32, i32> {
    let mut map = HashMap::new();
    for (key, value) in entries {
        map.insert(*key, *value);
    }
    map
}

#[test]
fn test_reverse_graph_construction() {
    let (reverse_graph, largest_vertex) = make_reverse_graph(b"1 2\n2 3\n3 1\n2 4\n").unwrap();
    assert!(reverse_graph.neighbors_of(4).unwrap().contains(&2));
    assert!(reverse_graph.neighbors_of(2).unwrap().contains(&1));
    assert!(reverse_graph.neighbors_of(1).unwrap().contains(&3));
    assert!(reverse_graph.neighbors_of(3).unwrap().contains(&2));
    assert_eq!(largest_vertex, 4);
}

#[test]
fn test_input_file2() {
    let scc_map = compute_scc(b"4 1\n3 2\n7 3\n6 5\n2 7\n5 4\n4 2\n4 6\n").unwrap();
    assert!(!scc_map.is_empty());

    assert_eq!(*(scc_map.get(&6).unwrap()), 3);
    assert_eq!(*(scc_map.get(&7).unwrap()), 1);
    assert_eq!(*(scc_map.get(&4).unwrap()), 3);
}

#[test]
fn test_input_file3() {
    let scc_map = compute_scc(b"6 5\n2 4\n1 3\n3 2\n4 1\n").unwrap();
    assert!(!scc_map.is_empty());

    assert_eq!(*(scc_map.get(&6).unwrap()), 4);
    assert_eq!(*(scc_map.get(&2).unwrap()), 1);
    assert_eq!(*(scc_map.get(&1).unwrap()), 1);
}

#[test]
fn simple_cycle_is_one_component() {
    let source = b"1 2\n2 3\n3 1\n";
    let (reverse_graph, largest_vertex) = make_reverse_graph(source).unwrap();
    assert_eq!(largest_vertex, 3);
    assert!(reverse_graph.contains_edge(2, 1));
    assert!(reverse_graph.contains_edge(3, 2));
    assert!(reverse_graph.contains_edge(1, 3));
    assert!(!reverse_graph.contains_edge(1, 2));
    let finishing_times = dfs_outer(&reverse_graph, true, largest_vertex);
    assert_eq!(finishing_times, map_of(&[(1, 1), (2, 2), (3, 3)]));
    assert_eq!(compute_scc(source).unwrap(), map_of(&[(3, 3)]));
}

#[test]
fn disjoint_pairs_are_four_components() {
    let scc_map = compute_scc(b"1 2\n3 4\n").unwrap();
    assert_eq!(scc_map, map_of(&[(1, 1), (2, 1), (3, 1), (4, 1)]));
}

#[test]
fn vertex_that_is_only_a_neighbor_is_counted_once() {
    let source = b"1 2\n";
    let (reverse_graph, largest_vertex) = make_reverse_graph(source).unwrap();
    assert!(reverse_graph.neighbors_of(1).is_none());
    assert_eq!(reverse_graph.neighbors_of(2).unwrap(), &vec![1]);
    let finishing_times = dfs_outer(&reverse_graph, true, largest_vertex);
    assert_eq!(finishing_times, map_of(&[(1, 1), (2, 2)]));
    let scc_map = compute_scc(source).unwrap();
    assert_eq!(scc_map, map_of(&[(1, 1), (2, 1)]));
}

#[test]
fn vertex_without_edges_is_its_own_component() {
    let scc_map = compute_scc(b"1 3\n3 1\n").unwrap();
    assert_eq!(scc_map.len(), 2);
    let mut sizes: Vec<i32> = scc_map.values().copied().collect();
    sizes.sort();
    assert_eq!(sizes, vec![1, 2]);
}

#[test]
fn empty_input_gives_empty_result() {
    let (reverse_graph, largest_vertex) = make_reverse_graph(b"").unwrap();
    assert_eq!(largest_vertex, 0);
    assert!(reverse_graph.neighbors_of(1).is_none());
    assert!(dfs_outer(&reverse_graph, true, 0).is_empty());
    assert!(dfs_outer(&reverse_graph, false, 0).is_empty());
    assert!(compute_scc(b"").unwrap().is_empty());
}

#[test]
fn sizes_sum_to_the_largest_vertex() {
    let source = b"1 2\n2 1\n2 3\n3 4\n4 3\n5 5\n9 1\n";
    let scc_map = compute_scc(source).unwrap();
    let sum: i32 = scc_map.values().sum();
    assert_eq!(sum, 9);
    assert!(scc_map.values().all(|size| *size >= 1));
    assert!(scc_map.keys().all(|leader| 1 <= *leader && *leader <= 9));
}

#[test]
fn every_vertex_has_exactly_one_leader() {
    let mut graph = Graph::new();
    graph.add_edge(1, 2);
    graph.add_edge(2, 1);
    graph.add_edge(2, 3);
    graph.add_edge(4, 3);
    let mut explored: HashSet<i32> = HashSet::new();
    let mut sizes: HashMap<i32, i32> = HashMap::new();
    let mut assigned = 0;
    let mut vertex = 4;
    while vertex >= 1 {
        if !explored.contains(&vertex) {
            let before = explored.len();
            let mut leader = vertex;
            dfs_inner(&graph, vertex, false, &mut leader, &mut sizes, &mut explored);
            assert_eq!(leader, vertex);
            let reached = (explored.len() - before) as i32;
            assert_eq!(sizes[&vertex], reached);
            assigned += reached;
        }
        vertex -= 1;
    }
    assert_eq!(assigned, 4);
    assert_eq!(explored.len(), 4);
    assert_eq!(sizes, map_of(&[(4, 2), (2, 2)]));
    assert_eq!(dfs_outer(&graph, false, 4), sizes);
}

#[test]
fn running_twice_gives_the_same_result() {
    let source = b"4 1\n3 2\n7 3\n6 5\n2 7\n5 4\n4 2\n4 6\n";
    let first = compute_scc(source).unwrap();
    let second = compute_scc(source).unwrap();
    assert_eq!(first, second);
}

#[test]
fn single_component_has_one_leader_of_full_size() {
    let source = b"1 2\n2 3\n3 4\n4 5\n5 1\n3 1\n";
    let (reverse_graph, largest_vertex) = make_reverse_graph(source).unwrap();
    let finishing_times = dfs_outer(&reverse_graph, true, largest_vertex);
    let relabelled = relabel_graph(source, &finishing_times).unwrap();
    let scc_map = dfs_outer(&relabelled, false, largest_vertex);
    assert_eq!(scc_map, map_of(&[(5, 5)]));
    assert_eq!(compute_scc(source).unwrap(), map_of(&[(5, 5)]));
}

#[test]
fn finishing_times_are_assigned_in_post_order() {
    // 1 -> 2 -> 3 and 1 -> 4: searched from 4 down, then 3, 2, and 1 with its subtree done.
    let mut graph = Graph::new();
    graph.add_edge(1, 2);
    graph.add_edge(2, 3);
    graph.add_edge(1, 4);
    let times = dfs_outer(&graph, true, 4);
    assert_eq!(times, map_of(&[(4, 1), (3, 2), (2, 3), (1, 4)]));

    let mut chain = Graph::new();
    chain.add_edge(3, 1);
    chain.add_edge(1, 2);
    let times = dfs_outer(&chain, true, 3);
    assert_eq!(times, map_of(&[(2, 1), (1, 2), (3, 3)]));
}

#[test]
fn finishing_counter_is_shared_by_all_roots() {
    let mut graph = Graph::new();
    graph.add_edge(2, 1);
    graph.add_edge(4, 3);
    let mut explored: HashSet<i32> = HashSet::new();
    let mut times: HashMap<i32, i32> = HashMap::new();
    let mut counter = 0;
    dfs_inner(&graph, 4, true, &mut counter, &mut times, &mut explored);
    assert_eq!(counter, 2);
    assert_eq!(times, map_of(&[(3, 1), (4, 2)]));
    dfs_inner(&graph, 2, true, &mut counter, &mut times, &mut explored);
    assert_eq!(counter, 4);
    assert_eq!(times, map_of(&[(3, 1), (4, 2), (1, 3), (2, 4)]));
    assert_eq!(explored.len(), 4);
}

#[test]
fn search_skips_what_is_explored() {
    let mut graph = Graph::new();
    graph.add_edge(1, 2);
    graph.add_edge(1, 3);
    graph.add_edge(3, 4);
    let mut explored: HashSet<i32> = HashSet::new();
    explored.insert(3);
    let mut sizes: HashMap<i32, i32> = HashMap::new();
    let mut leader = 1;
    dfs_inner(&graph, 1, false, &mut leader, &mut sizes, &mut explored);
    assert_eq!(sizes, map_of(&[(1, 2)]));
    assert!(explored.contains(&1) && explored.contains(&2) && explored.contains(&3));
    assert!(!explored.contains(&4));
}

#[test]
fn deep_path_needs_no_large_call_stack() {
    let n: i32 = 200_000;
    let mut source = String::new();
    for v in 1..n {
        source.push_str(&format!("{} {}\n", v, v + 1));
    }
    source.push_str(&format!("{} 1\n", n));
    let scc_map = compute_scc(source.as_bytes()).unwrap();
    assert_eq!(scc_map, map_of(&[(n, n)]));
}

#[test]
fn duplicate_edges_collapse() {
    let mut graph = Graph::new();
    graph.add_edge(1, 2);
    graph.add_edge(1, 3);
    graph.add_edge(1, 2);
    assert_eq!(graph.neighbors_of(1).unwrap(), &vec![2, 3]);
    assert!(graph.contains_edge(1, 2));
    assert!(!graph.contains_edge(2, 1));
    assert!(!graph.contains_edge(5, 1));
    assert_eq!(
        compute_scc(b"1 2\n1 2\n2 1\n1 2\n").unwrap(),
        map_of(&[(2, 2)])
    );
}

#[test]
fn parse_reads_edges_in_order() {
    assert_eq!(parse_edges(b""), Ok(vec![]));
    assert_eq!(parse_edges(b"1 2"), Ok(vec![(1, 2)]));
    assert_eq!(parse_edges(b"1 2\n"), Ok(vec![(1, 2)]));
    assert_eq!(
        parse_edges(b"10 20\n3 4\n007 1\n"),
        Ok(vec![(10, 20), (3, 4), (7, 1)])
    );
    assert_eq!(
        parse_edges(b"  1\t 2 \r\n3   4\r\n"),
        Ok(vec![(1, 2), (3, 4)])
    );
    assert_eq!(
        parse_edges(b"2147483647 1\n"),
        Ok(vec![(2147483647, 1)])
    );
    assert_eq!(parse_edges(b"+1 +22\n"), Ok(vec![(1, 22)]));
}

#[test]
fn parse_rejects_malformed_lines() {
    let malformed: [&[u8]; 17] = [
        b"1\n",
        b"1 2 3\n",
        b"\n",
        b"1 2\n\n3 4\n",
        b"1 2\n\n",
        b"a b\n",
        b"1 x\n",
        b"1 2x\n",
        b"0 1\n",
        b"1 0\n",
        b"-1 2\n",
        b"+ 2\n",
        b"++1 2\n",
        b"1+ 2\n",
        b"1 +-2\n",
        b"1 2147483648\n",
        b"99999999999999999999999999 1\n",
    ];
    for source in malformed.iter() {
        assert_eq!(parse_edges(source), Err(SccError::ParseError));
        assert_eq!(compute_scc(source), Err(SccError::ParseError));
        assert_eq!(make_reverse_graph(source).unwrap_err(), SccError::ParseError);
    }
    assert_eq!(
        compute_scc(b"1 2\n2 3\nthree four\n4 5\n"),
        Err(SccError::ParseError)
    );
}

#[test]
fn relabel_renames_both_ends() {
    let times = map_of(&[(1, 3), (2, 1), (3, 2)]);
    let graph = relabel_graph(b"1 2\n2 3\n1 3\n", &times).unwrap();
    assert_eq!(graph.neighbors_of(3).unwrap(), &vec![1, 2]);
    assert_eq!(graph.neighbors_of(1).unwrap(), &vec![2]);
    assert!(graph.neighbors_of(2).is_none());
}

#[test]
fn relabel_fails_on_a_vertex_without_finishing_time() {
    let times = map_of(&[(1, 1), (2, 2)]);
    assert_eq!(
        relabel_graph(b"1 2\n2 3\n", &times).unwrap_err(),
        SccError::LookupError
    );
    assert_eq!(
        relabel_graph(b"3 1\n", &times).unwrap_err(),
        SccError::LookupError
    );
    assert_eq!(
        relabel_graph(b"1 2\n2 x\n", &times).unwrap_err(),
        SccError::ParseError
    );
    assert!(relabel_graph(b"1 2\n2 1\n", &times).is_ok());
}

#[test]
fn components_of_a_larger_graph() {
    let source = b"1 4\n2 8\n3 6\n4 7\n5 2\n6 9\n7 1\n8 5\n8 6\n9 7\n9 3\n";
    let scc_map = compute_scc(source).unwrap();
    let mut sizes: Vec<i32> = scc_map.values().copied().collect();
    sizes.sort();
    assert_eq!(sizes, vec![3, 3, 3]);

    let source = b"1 2\n2 6\n2 3\n2 4\n3 1\n3 4\n4 5\n5 4\n6 5\n6 7\n7 6\n7 8\n8 5\n8 7\n";
    let scc_map = compute_scc(source).unwrap();
    let mut sizes: Vec<i32> = scc_map.values().copied().collect();
    sizes.sort();
    assert_eq!(sizes, vec![2, 3, 3]);

    let scc_map = compute_scc(b"1 2\n2 1\n2 3\n3 4\n4 3\n5 5\n").unwrap();
    assert_eq!(scc_map, map_of(&[(5, 2), (3, 2), (1, 1)]));
}

#[test]
fn load_keeps_or_reverses_the_edges() {
    let source = b"1 2\n2 3\n5 3\n";
    let (forward, largest_vertex) = load_graph(source, false).unwrap();
    assert_eq!(largest_vertex, 5);
    assert_eq!(forward.neighbors_of(1).unwrap(), &vec![2]);
    assert_eq!(forward.neighbors_of(2).unwrap(), &vec![3]);
    assert_eq!(forward.neighbors_of(5).unwrap(), &vec![3]);
    assert!(forward.neighbors_of(3).is_none());
    let (reverse, largest_vertex) = load_graph(source, true).unwrap();
    assert_eq!(largest_vertex, 5);
    assert_eq!(reverse.neighbors_of(3).unwrap(), &vec![2, 5]);
    assert_eq!(reverse.neighbors_of(2).unwrap(), &vec![1]);
    assert!(reverse.neighbors_of(1).is_none());
    assert_eq!(load_graph(b"1 2 3\n", false).unwrap_err(), SccError::ParseError);
}

/// Whether each vertex reaches each other, by repeated closure.
fn reachability(n: usize, edges: &[(i32, i32)]) -> Vec<Vec<bool>> {
    let mut reach = vec![vec![false; n + 1]; n + 1];
    for v in 1..=n {
        reach[v][v] = true;
    }
    for (tail, head) in edges {
        reach[*tail as usize][*head as usize] = true;
    }
    for k in 1..=n {
        for i in 1..=n {
            for j in 1..=n {
                if reach[i][k] && reach[k][j] {
                    reach[i][j] = true;
                }
            }
        }
    }
    reach
}

#[test]
fn sizes_are_the_sizes_of_the_components() {
    let mut state: u64 = 0x2545_f491_4f6c_dd1d;
    let mut next = |bound: u64| -> u64 {
        state ^= state << 13;
        state ^= state >> 7;
        state ^= state << 17;
        state % bound
    };
    for round in 0..200 {
        let n = 1 + (round % 12) as usize;
        let count = next(3 * n as u64 + 1) as usize;
        let mut edges: Vec<(i32, i32)> = Vec::new();
        for _ in 0..count {
            edges.push((1 + next(n as u64) as i32, 1 + next(n as u64) as i32));
        }
        edges.push((n as i32, 1 + next(n as u64) as i32));
        let mut source = String::new();
        for (tail, head) in edges.iter() {
            source.push_str(&format!("{} {}\n", tail, head));
        }
        let scc_map = compute_scc(source.as_bytes()).unwrap();

        let reach = reachability(n, &edges);
        let mut expected: Vec<i32> = Vec::new();
        for v in 1..=n {
            let first = (1..=n).find(|u| reach[v][*u] && reach[*u][v]).unwrap();
            if first == v {
                let size = (1..=n).filter(|u| reach[v][*u] && reach[*u][v]).count();
                expected.push(size as i32);
            }
        }
        expected.sort();
        let mut sizes: Vec<i32> = scc_map.values().copied().collect();
        sizes.sort();
        assert_eq!(sizes, expected);
        assert_eq!(sizes.iter().sum::<i32>(), n as i32);

        // The leader of a component is the latest finishing time in it.
        let (reverse_graph, largest_vertex) = make_reverse_graph(source.as_bytes()).unwrap();
        let times = dfs_outer(&reverse_graph, true, largest_vertex);
        let mut seen: Vec<i32> = times.values().copied().collect();
        seen.sort();
        assert_eq!(seen, (1..=n as i32).collect::<Vec<i32>>());
        for v in 1..=n {
            let leader = (1..=n)
                .filter(|u| reach[v][*u] && reach[*u][v])
                .map(|u| times[&(u as i32)])
                .max()
                .unwrap();
            let size = (1..=n).filter(|u| reach[v][*u] && reach[*u][v]).count();
            assert_eq!(scc_map[&leader], size as i32);
        }
    }
}
