use graph_metrics::graph::MyGraph;

fn five_node_graph() -> MyGraph {
    let mut graph = MyGraph::new();
    for (a, b) in [(0, 1), (0, 2), (0, 3), (1, 3), (2, 3), (2, 4), (3, 4)] {
        graph.add_edge(a, b);
    }
    graph
}

#[test]
fn new_graph_has_no_nodes() {
    let graph = MyGraph::new();
    assert!(graph.adjacency_list.is_empty());
    assert_eq!(graph.degree_of_node(), Vec::<usize>::new());
    assert_eq!(graph.neighbors_at_distance_2(), Vec::<usize>::new());
}

#[test]
fn add_edge_lists_each_endpoint_under_the_other() {
    let mut graph = MyGraph::new();
    graph.add_edge(0, 1);
    assert_eq!(graph.adjacency_list, vec![vec![1], vec![0]]);
    graph.add_edge(1, 2);
    assert_eq!(graph.adjacency_list, vec![vec![1], vec![0, 2], vec![1]]);
}

#[test]
fn add_edge_grows_the_node_set_lazily() {
    let mut graph = MyGraph::new();
    graph.add_edge(3, 1);
    let expected: Vec<Vec<usize>> = vec![vec![], vec![3], vec![], vec![1]];
    assert_eq!(graph.adjacency_list, expected);
    graph.add_edge(0, 5);
    assert_eq!(graph.adjacency_list.len(), 6);
    assert_eq!(graph.adjacency_list[0], vec![5]);
    assert_eq!(graph.adjacency_list[5], vec![0]);
    assert!(graph.adjacency_list[4].is_empty());
}

#[test]
fn add_edge_twice_changes_nothing() {
    let mut graph = five_node_graph();
    let before = graph.adjacency_list.clone();
    graph.add_edge(2, 3);
    assert_eq!(graph.adjacency_list, before);
    graph.add_edge(3, 2);
    assert_eq!(graph.adjacency_list, before);
}

#[test]
fn self_loop_is_listed_once() {
    let mut graph = MyGraph::new();
    graph.add_edge(2, 2);
    let expected: Vec<Vec<usize>> = vec![vec![], vec![], vec![2]];
    assert_eq!(graph.adjacency_list, expected);
    assert_eq!(graph.degree_of_node(), vec![0, 0, 1]);
    graph.add_edge(2, 2);
    assert_eq!(graph.adjacency_list, expected);
}

#[test]
fn adjacency_is_symmetric_and_free_of_duplicates() {
    let mut graph = MyGraph::new();
    let mut state: usize = 7;
    for _ in 0..200 {
        state = (state * 1103515245 + 12345) % 2147483648;
        let a = (state / 65536) % 12;
        state = (state * 1103515245 + 12345) % 2147483648;
        let b = (state / 65536) % 12;
        graph.add_edge(a, b);
        assert!(graph.adjacency_list[a].contains(&b));
        assert!(graph.adjacency_list[b].contains(&a));
    }
    let n = graph.adjacency_list.len();
    for u in 0..n {
        let row = &graph.adjacency_list[u];
        for (i, v) in row.iter().enumerate() {
            assert!(*v < n);
            assert!(graph.adjacency_list[*v].contains(&u));
            assert!(!row[..i].contains(v));
        }
    }
}

#[test]
fn neighbors_keep_insertion_order() {
    let mut graph = MyGraph::new();
    graph.add_edge(0, 3);
    graph.add_edge(0, 1);
    graph.add_edge(2, 0);
    assert_eq!(graph.neighbors(0), &[3, 1, 2]);
    assert_eq!(graph.neighbors(3), &[0]);
}

#[test]
fn degree_is_the_length_of_the_neighbor_sequence() {
    let graph = five_node_graph();
    let degrees = graph.degree_of_node();
    for v in 0..5 {
        assert_eq!(graph.degree(v), graph.neighbors(v).len());
        assert_eq!(degrees[v], graph.neighbors(v).len());
    }
    assert_eq!(graph.degree(3), 4);
}

#[test]
fn missing_node_has_no_neighbors() {
    let graph = five_node_graph();
    assert_eq!(graph.degree(5), 0);
    assert!(graph.neighbors(5).is_empty());
    assert_eq!(graph.degree(usize::MAX), 0);
}

#[test]
fn from_edges_inserts_first_to_last() {
    let edges = [(0, 1), (0, 2), (0, 3), (1, 3), (2, 3), (2, 4), (3, 4)];
    let graph = MyGraph::from_edges(&edges);
    assert_eq!(graph.adjacency_list, five_node_graph().adjacency_list);
    let empty = MyGraph::from_edges(&[]);
    assert!(empty.adjacency_list.is_empty());
}

#[test]
fn five_node_degrees() {
    let graph = five_node_graph();
    assert_eq!(graph.degree_of_node(), vec![3, 2, 3, 4, 2]);
}

#[test]
fn isolated_node_exists_only_once_referenced() {
    let mut graph = MyGraph::new();
    graph.add_edge(0, 1);
    assert_eq!(graph.adjacency_list.len(), 2);
    assert_eq!(graph.degree_of_node(), vec![1, 1]);
    graph.add_edge(2, 2);
    assert_eq!(graph.adjacency_list.len(), 3);
    assert_eq!(graph.degree_of_node(), vec![1, 1, 1]);
    assert_eq!(graph.degree(2), 1);
}
