use graph_metrics::graph::MyGraph;

fn graph_of(edges: &[(usize, usize)]) -> MyGraph {
    let mut graph = MyGraph::new();
    for &(a, b) in edges {
        graph.add_edge(a, b);
    }
    graph
}

fn second_hop_reference(adjacency: &[Vec<usize>], v: usize) -> usize {
    let n = adjacency.len();
    let mut count = 0;
    for w in 0..n {
        if w == v || adjacency[v].contains(&w) {
            continue;
        }
        if adjacency[v].iter().any(|&u| u < n && adjacency[u].contains(&w)) {
            count += 1;
        }
    }
    count
}

#[test]
fn five_node_second_hop_counts() {
    let graph = graph_of(&[(0, 1), (0, 2), (0, 3), (1, 3), (2, 3), (2, 4), (3, 4)]);
    assert_eq!(graph.neighbors_at_distance_2(), vec![1, 2, 1, 0, 2]);
}

#[test]
fn second_hop_counts_of_a_path() {
    let graph = graph_of(&[(0, 1), (1, 2), (2, 3), (3, 4)]);
    assert_eq!(graph.neighbors_at_distance_2(), vec![1, 1, 2, 1, 1]);
}

#[test]
fn second_hop_counts_of_a_star() {
    let graph = graph_of(&[(0, 1), (0, 2), (0, 3), (0, 4)]);
    assert_eq!(graph.neighbors_at_distance_2(), vec![0, 3, 3, 3, 3]);
}

#[test]
fn second_hop_counts_of_a_triangle_are_zero() {
    let graph = graph_of(&[(0, 1), (1, 2), (2, 0)]);
    assert_eq!(graph.neighbors_at_distance_2(), vec![0, 0, 0]);
}

#[test]
fn node_behind_two_neighbors_is_counted_once() {
    let graph = graph_of(&[(0, 1), (0, 2), (1, 3), (2, 3)]);
    assert_eq!(graph.neighbors_at_distance_2(), vec![1, 1, 1, 1]);
}

#[test]
fn self_loops_add_no_second_hop() {
    let graph = graph_of(&[(0, 0), (0, 1), (1, 1), (1, 2)]);
    assert_eq!(graph.neighbors_at_distance_2(), vec![1, 0, 1]);
}

#[test]
fn isolated_nodes_count_nothing() {
    let graph = graph_of(&[(0, 1), (3, 3)]);
    assert_eq!(graph.neighbors_at_distance_2(), vec![0, 0, 0, 0]);
    assert_eq!(graph.degree_of_node(), vec![1, 1, 0, 1]);
}

#[test]
fn second_hop_counts_match_the_definition() {
    let mut graph = MyGraph::new();
    let mut state: usize = 99;
    for _ in 0..60 {
        state = (state * 1103515245 + 12345) % 2147483648;
        let a = (state / 65536) % 25;
        state = (state * 1103515245 + 12345) % 2147483648;
        let b = (state / 65536) % 25;
        graph.add_edge(a, b);
    }
    let counts = graph.neighbors_at_distance_2();
    assert_eq!(counts.len(), graph.adjacency_list.len());
    for v in 0..counts.len() {
        assert_eq!(counts[v], second_hop_reference(&graph.adjacency_list, v));
    }
}

#[test]
fn entries_that_name_no_node_are_passed_over() {
    let graph = MyGraph { adjacency_list: vec![vec![1, 7], vec![0, 2, 9], vec![1]] };
    assert_eq!(graph.neighbors_at_distance_2(), vec![1, 0, 1]);
    assert_eq!(graph.degree_of_node(), vec![2, 3, 1]);
}
