//! The whole analysis pass over a loaded graph, ready to be reported.

use crate::algorithms::{all_shortest_paths, is_all_pairs_collection};
use crate::betweenness::{occurrences, ordered_pairs, paths_view, Score};
use crate::graph::{second_hop, MyGraph};
use std::collections::HashMap;
use vstd::prelude::*;

verus! {

/// The metrics of one graph.
pub struct Analysis {
    /// For every node, the length of its neighbor sequence.
    pub degree_distribution: Vec<usize>,
    /// For every node, the number of nodes two hops away.
    pub neighbors_at_distance_2: Vec<usize>,
    /// One `(source, target, path)` triple for every ordered pair of distinct nodes
    /// that a walk joins.
    pub all_shortest_paths: Vec<(usize, usize, Vec<usize>)>,
    /// For every node inside one of these paths, its betweenness score.
    pub betweenness: HashMap<usize, Score>,
}

/// Runs the metrics over `graph`, then the single-source search from every node,
/// and scores the nodes by the paths so collected.
pub fn analyze(graph: &MyGraph) -> (analysis: Analysis)
    ensures
        analysis.degree_distribution@.len() == graph@.len(),
        forall|v: int|
            0 <= v < graph@.len() ==> analysis.degree_distribution@[v] == graph@[v].len(),
        analysis.neighbors_at_distance_2@.len() == graph@.len(),
        forall|v: usize| v < graph@.len() ==> #[trigger] second_hop(graph@, v).finite(),
        forall|v: usize|
            v < graph@.len() ==> #[trigger] analysis.neighbors_at_distance_2@[v as int]
                == second_hop(graph@, v).len(),
        is_all_pairs_collection(graph@, analysis.all_shortest_paths@),
        forall|node: usize| #[trigger]
            analysis.betweenness@.contains_key(node) <==> occurrences(
                paths_view(analysis.all_shortest_paths@),
                node,
            ) > 0,
        forall|node: usize| #[trigger]
            analysis.betweenness@.contains_key(node) ==> analysis.betweenness@[node].occurrences
                == occurrences(paths_view(analysis.all_shortest_paths@), node)
                && analysis.betweenness@[node].pairs == ordered_pairs(graph@.len()),
{
    let degree_distribution = graph.degree_of_node();
    let neighbors_at_distance_2 = graph.neighbors_at_distance_2();
    let all_shortest_paths = all_shortest_paths(graph.adjacency_list.as_slice());
    let betweenness = MyGraph::betweenness_centrality(
        graph.adjacency_list.as_slice(),
        all_shortest_paths.as_slice(),
    );
    Analysis { degree_distribution, neighbors_at_distance_2, all_shortest_paths, betweenness }
}

} // verus!
