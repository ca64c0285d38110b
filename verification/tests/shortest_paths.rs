use graph_metrics::algorithms::{all_shortest_paths, dedup_adjacent, dijkstra_shortest_paths};
use graph_metrics::graph::MyGraph;

fn graph_of(edges: &[(usize, usize)]) -> MyGraph {
    let mut graph = MyGraph::new();
    for &(a, b) in edges {
        graph.add_edge(a, b);
    }
    graph
}

fn bfs_distances(adjacency: &[Vec<usize>], source: usize) -> Vec<Option<usize>> {
    let n = adjacency.len();
    let mut distance = vec![None; n];
    if source >= n {
        return distance;
    }
    distance[source] = Some(0);
    let mut frontier = vec![source];
    let mut hops = 0;
    while !frontier.is_empty() {
        hops += 1;
        let mut next = Vec::new();
        for &u in &frontier {
            for &v in &adjacency[u] {
                if v < n && distance[v].is_none() {
                    distance[v] = Some(hops);
                    next.push(v);
                }
            }
        }
        frontier = next;
    }
    distance
}

fn check_against_reference(adjacency: &[Vec<usize>]) {
    let n = adjacency.len();
    for source in 0..n {
        let distance = bfs_distances(adjacency, source);
        let paths = dijkstra_shortest_paths(adjacency, source);
        assert_eq!(paths.len(), n);
        assert!(paths[source].is_empty());
        for target in 0..n {
            let path = &paths[target];
            match distance[target] {
                Some(hops) if target != source => {
                    assert_eq!(path.len(), hops + 1);
                    assert_eq!(path[0], source);
                    assert_eq!(path[path.len() - 1], target);
                    for i in 0..path.len() - 1 {
                        assert_ne!(path[i], path[i + 1]);
                        assert!(adjacency[path[i]].contains(&path[i + 1]));
                        let parent = (0..n)
                            .find(|&u| {
                                distance[u] == Some(i) && adjacency[u].contains(&path[i + 1])
                            })
                            .unwrap();
                        assert_eq!(path[i], parent);
                    }
                }
                _ => assert!(path.is_empty()),
            }
        }
    }
}

#[test]
fn five_node_paths_from_zero() {
    let graph = graph_of(&[(0, 1), (0, 2), (0, 3), (1, 3), (2, 3), (2, 4), (3, 4)]);
    let paths = dijkstra_shortest_paths(&graph.adjacency_list, 0);
    let expected: Vec<Vec<usize>> = vec![vec![], vec![0, 1], vec![0, 2], vec![0, 3], vec![0, 2, 4]];
    assert_eq!(paths, expected);
}

#[test]
fn five_node_paths_from_four() {
    let graph = graph_of(&[(0, 1), (0, 2), (0, 3), (1, 3), (2, 3), (2, 4), (3, 4)]);
    let paths = dijkstra_shortest_paths(&graph.adjacency_list, 4);
    let expected: Vec<Vec<usize>> =
        vec![vec![4, 2, 0], vec![4, 3, 1], vec![4, 2], vec![4, 3], vec![]];
    assert_eq!(paths, expected);
}

#[test]
fn path_graph_from_its_first_node() {
    let graph = graph_of(&[(0, 1), (1, 2), (2, 3)]);
    let paths = dijkstra_shortest_paths(&graph.adjacency_list, 0);
    let expected: Vec<Vec<usize>> = vec![vec![], vec![0, 1], vec![0, 1, 2], vec![0, 1, 2, 3]];
    assert_eq!(paths, expected);
}

#[test]
fn path_graph_from_its_last_node() {
    let graph = graph_of(&[(0, 1), (1, 2), (2, 3)]);
    let paths = dijkstra_shortest_paths(&graph.adjacency_list, 3);
    let expected: Vec<Vec<usize>> = vec![vec![3, 2, 1, 0], vec![3, 2, 1], vec![3, 2], vec![]];
    assert_eq!(paths, expected);
}

#[test]
fn long_path_is_followed_node_by_node() {
    let edges: Vec<(usize, usize)> = (0..9).map(|i| (i, i + 1)).collect();
    let graph = graph_of(&edges);
    let paths = dijkstra_shortest_paths(&graph.adjacency_list, 0);
    assert_eq!(paths[9], vec![0, 1, 2, 3, 4, 5, 6, 7, 8, 9]);
    let back = dijkstra_shortest_paths(&graph.adjacency_list, 9);
    assert_eq!(back[0], vec![9, 8, 7, 6, 5, 4, 3, 2, 1, 0]);
    assert_eq!(back[4], vec![9, 8, 7, 6, 5, 4]);
}

#[test]
fn ties_go_to_the_lowest_numbered_parent() {
    let graph = graph_of(&[(0, 2), (0, 1), (2, 3), (1, 3)]);
    assert_eq!(graph.adjacency_list[0], vec![2, 1]);
    let paths = dijkstra_shortest_paths(&graph.adjacency_list, 0);
    assert_eq!(paths[3], vec![0, 1, 3]);
}

#[test]
fn source_has_an_empty_path_even_with_a_self_loop() {
    let graph = graph_of(&[(0, 0), (0, 1)]);
    let paths = dijkstra_shortest_paths(&graph.adjacency_list, 0);
    let expected: Vec<Vec<usize>> = vec![vec![], vec![0, 1]];
    assert_eq!(paths, expected);
}

#[test]
fn unreachable_nodes_have_empty_paths() {
    let mut graph = graph_of(&[(0, 1)]);
    graph.add_edge(2, 2);
    let paths = dijkstra_shortest_paths(&graph.adjacency_list, 0);
    let expected: Vec<Vec<usize>> = vec![vec![], vec![0, 1], vec![]];
    assert_eq!(paths, expected);
    let from_two = dijkstra_shortest_paths(&graph.adjacency_list, 2);
    let nothing: Vec<Vec<usize>> = vec![vec![], vec![], vec![]];
    assert_eq!(from_two, nothing);
}

#[test]
fn source_out_of_range_gives_only_empty_paths() {
    let graph = graph_of(&[(0, 1), (1, 2)]);
    let nothing: Vec<Vec<usize>> = vec![vec![], vec![], vec![]];
    assert_eq!(dijkstra_shortest_paths(&graph.adjacency_list, 3), nothing);
    assert_eq!(dijkstra_shortest_paths(&graph.adjacency_list, usize::MAX), nothing);
}

#[test]
fn empty_graph_gives_no_paths() {
    let graph = MyGraph::new();
    assert!(dijkstra_shortest_paths(&graph.adjacency_list, 0).is_empty());
    assert!(all_shortest_paths(&graph.adjacency_list).is_empty());
}

#[test]
fn entries_that_name_no_node_are_no_edges() {
    let adjacency: Vec<Vec<usize>> = vec![vec![5, 1], vec![0, 9, 2], vec![1]];
    let paths = dijkstra_shortest_paths(&adjacency, 0);
    let expected: Vec<Vec<usize>> = vec![vec![], vec![0, 1], vec![0, 1, 2]];
    assert_eq!(paths, expected);
}

#[test]
fn one_way_entries_are_followed_one_way() {
    let adjacency: Vec<Vec<usize>> = vec![vec![1], vec![2], vec![]];
    let forward = dijkstra_shortest_paths(&adjacency, 0);
    let expected: Vec<Vec<usize>> = vec![vec![], vec![0, 1], vec![0, 1, 2]];
    assert_eq!(forward, expected);
    let backward = dijkstra_shortest_paths(&adjacency, 2);
    let nothing: Vec<Vec<usize>> = vec![vec![], vec![], vec![]];
    assert_eq!(backward, nothing);
}

#[test]
fn paths_agree_with_breadth_first_search() {
    let mut graph = MyGraph::new();
    let mut state: usize = 2024;
    for _ in 0..70 {
        state = (state * 1103515245 + 12345) % 2147483648;
        let a = (state / 65536) % 40;
        state = (state * 1103515245 + 12345) % 2147483648;
        let b = (state / 65536) % 40;
        graph.add_edge(a, b);
    }
    check_against_reference(&graph.adjacency_list);
}

#[test]
fn paths_in_a_grid_agree_with_breadth_first_search() {
    let mut graph = MyGraph::new();
    let side = 6;
    for row in 0..side {
        for column in 0..side {
            let node = row * side + column;
            if column + 1 < side {
                graph.add_edge(node, node + 1);
            }
            if row + 1 < side {
                graph.add_edge(node + side, node);
            }
        }
    }
    check_against_reference(&graph.adjacency_list);
    let paths = dijkstra_shortest_paths(&graph.adjacency_list, 0);
    assert_eq!(paths[35].len(), 11);
    assert_eq!(paths[7], vec![0, 1, 7]);
}

#[test]
fn all_pairs_of_the_five_node_graph() {
    let graph = graph_of(&[(0, 1), (0, 2), (0, 3), (1, 3), (2, 3), (2, 4), (3, 4)]);
    let triples = all_shortest_paths(&graph.adjacency_list);
    assert_eq!(triples.len(), 20);
    assert_eq!(triples[0], (0, 1, vec![0, 1]));
    assert_eq!(triples[3], (0, 4, vec![0, 2, 4]));
    assert_eq!(triples[4], (1, 0, vec![1, 0]));
    assert_eq!(triples[5], (1, 2, vec![1, 0, 2]));
    assert_eq!(triples[7], (1, 4, vec![1, 3, 4]));
    assert_eq!(triples[19], (4, 3, vec![4, 3]));
    for window in triples.windows(2) {
        assert!((window[0].0, window[0].1) < (window[1].0, window[1].1));
    }
}

#[test]
fn all_pairs_leave_out_what_cannot_be_reached() {
    let mut graph = graph_of(&[(0, 1)]);
    graph.add_edge(2, 2);
    let triples = all_shortest_paths(&graph.adjacency_list);
    assert_eq!(triples, vec![(0, 1, vec![0, 1]), (1, 0, vec![1, 0])]);
}

#[test]
fn all_pairs_hold_each_search_result() {
    let graph = graph_of(&[(0, 1), (1, 2), (2, 3), (3, 0), (3, 4), (6, 5)]);
    let triples = all_shortest_paths(&graph.adjacency_list);
    let n = graph.adjacency_list.len();
    let mut expected = Vec::new();
    for source in 0..n {
        let paths = dijkstra_shortest_paths(&graph.adjacency_list, source);
        for target in 0..n {
            if !paths[target].is_empty() {
                expected.push((source, target, paths[target].clone()));
            }
        }
    }
    assert_eq!(triples, expected);
}

#[test]
fn dedup_adjacent_collapses_runs() {
    let mut path = vec![1, 1, 2, 2, 2, 3, 1, 1];
    dedup_adjacent(&mut path);
    assert_eq!(path, vec![1, 2, 3, 1]);
    let mut same = vec![4, 5, 4];
    dedup_adjacent(&mut same);
    assert_eq!(same, vec![4, 5, 4]);
    let mut empty: Vec<usize> = vec![];
    dedup_adjacent(&mut empty);
    assert!(empty.is_empty());
    let mut single = vec![7, 7, 7];
    dedup_adjacent(&mut single);
    assert_eq!(single, vec![7]);
}
