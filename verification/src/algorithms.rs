//! Single-source shortest paths by priority-queue relaxation, and their
//! collection over all sources.

use crate::graph::rows_view;
use crate::paths::{
    collapsed, connects, follows_first_parents, is_representative_path, is_shortest_path,
    lemma_collapsed, lemma_collapsed_identity, lemma_walk_nodes, no_adjacent_repeats, reachable,
};
use crate::search::{empty_rows, lemma_no_preds, search, search_done, trace_back};
use vstd::prelude::*;

verus! {

/// Reduces every run of equal neighboring entries to a single entry.
pub fn dedup_adjacent(path: &mut Vec<usize>)
    ensures
        final(path)@ == collapsed(old(path)@),
        no_adjacent_repeats(final(path)@),
{
    let mut kept: Vec<usize> = Vec::new();
    let mut i: usize = 0;
    while i < path.len()
        invariant
            path@ == old(path)@,
            i <= path.len(),
            kept@ == collapsed(path@.take(i as int)),
        decreases path.len() - i,
    {
        proof {
            assert(path@.take(i + 1).drop_last() =~= path@.take(i as int));
        }
        if i == 0 || path[i] != path[i - 1] {
            kept.push(path[i]);
        }
        i += 1;
    }
    proof {
        assert(path@.take(path.len() as int) =~= path@);
        lemma_collapsed(path@);
    }
    *path = kept;
}

/// Computes one shortest path from `start_node` to every node, as the node sequence
/// from source to target. The entry of the source itself, and of every node that
/// cannot be reached, is empty; so is every entry when the source is not a node.
pub fn dijkstra_shortest_paths(adj_list: &[Vec<usize>], start_node: usize) -> (shortest_paths: Vec<
    Vec<usize>,
>)
    ensures
        shortest_paths.len() == adj_list.len(),
        forall|t: usize|
            t < adj_list.len() ==> is_representative_path(
                rows_view(adj_list@),
                start_node,
                t,
                #[trigger] shortest_paths@[t as int]@,
            ),
{
    let ghost g = rows_view(adj_list@);
    let num_nodes = adj_list.len();
    if start_node >= num_nodes {
        let shortest_paths = empty_rows(num_nodes);
        proof {
            assert forall|t: usize| t < adj_list.len() implies is_representative_path(
                g,
                start_node,
                t,
                #[trigger] shortest_paths@[t as int]@,
            ) by {}
        }
        return shortest_paths;
    }
    let (distances, preds) = search(adj_list, start_node);
    let ghost dist = distances@;
    let mut shortest_paths: Vec<Vec<usize>> = Vec::new();
    let mut node: usize = 0;
    while node < num_nodes
        invariant
            g == rows_view(adj_list@),
            num_nodes == adj_list.len(),
            start_node < num_nodes,
            search_done(g, start_node, dist, rows_view(preds@)),
            preds.len() == num_nodes,
            node <= num_nodes,
            shortest_paths.len() == node,
            forall|t: usize|
                t < node ==> is_representative_path(
                    g,
                    start_node,
                    t,
                    #[trigger] shortest_paths@[t as int]@,
                ),
        decreases num_nodes - node,
    {
        let mut path: Vec<usize> = Vec::new();
        assert(rows_view(preds@)[node as int] == preds@[node as int]@);
        if preds[node].len() > 0 {
            path = trace_back(Ghost(g), Ghost(dist), &preds, start_node, node);
            proof {
                lemma_collapsed_identity(path@);
            }
            dedup_adjacent(&mut path);
        } else {
            proof {
                lemma_no_preds(g, start_node, dist, rows_view(preds@), node);
            }
        }
        shortest_paths.push(path);
        node += 1;
    }
    shortest_paths
}

/// `triple` names two distinct nodes of `g` and holds the shortest path from the
/// first to the second that runs through first parents.
pub open spec fn is_path_triple(g: Seq<Seq<usize>>, triple: (usize, usize, Vec<usize>)) -> bool {
    &&& triple.0 != triple.1
    &&& is_shortest_path(g, triple.0, triple.1, triple.2@)
    &&& follows_first_parents(g, triple.0, triple.2@)
}

/// `a` names an earlier pair than `b`: a smaller source, or the same source and a smaller target.
pub open spec fn pair_before(a: (usize, usize, Vec<usize>), b: (usize, usize, Vec<usize>)) -> bool {
    a.0 < b.0 || (a.0 == b.0 && a.1 < b.1)
}

/// Some triple of `triples` is for the pair `(s, t)`.
pub open spec fn has_pair(triples: Seq<(usize, usize, Vec<usize>)>, s: usize, t: usize) -> bool {
    exists|k: int| 0 <= k < triples.len() && (#[trigger] triples[k]).0 == s && triples[k].1 == t
}

/// `triples` holds, for every ordered pair of distinct nodes of `g` that a walk
/// joins, the representative shortest path between them and nothing else, ordered
/// by source and then by target.
pub open spec fn is_all_pairs_collection(
    g: Seq<Seq<usize>>,
    triples: Seq<(usize, usize, Vec<usize>)>,
) -> bool {
    &&& forall|k: int| 0 <= k < triples.len() ==> is_path_triple(g, #[trigger] triples[k])
    &&& forall|j: int, k: int|
        0 <= j < k < triples.len() ==> pair_before(#[trigger] triples[j], #[trigger] triples[k])
    &&& forall|s: usize, t: usize|
        s != t && #[trigger] reachable(g, s, t) ==> has_pair(triples, s, t)
}

/// The triples collected so far: sound, in order, and complete for every pair before `(s0, t0)`.
spec fn collected(
    g: Seq<Seq<usize>>,
    triples: Seq<(usize, usize, Vec<usize>)>,
    s0: usize,
    t0: usize,
) -> bool {
    &&& forall|k: int| 0 <= k < triples.len() ==> is_path_triple(g, #[trigger] triples[k])
    &&& forall|j: int, k: int|
        0 <= j < k < triples.len() ==> pair_before(#[trigger] triples[j], #[trigger] triples[k])
    &&& forall|k: int|
        0 <= k < triples.len() ==> (#[trigger] triples[k]).0 < s0 || (triples[k].0 == s0
            && triples[k].1 < t0)
    &&& forall|s: usize, t: usize|
        (s < s0 || (s == s0 && t < t0)) && t < g.len() && s != t && #[trigger] reachable(g, s, t)
            ==> has_pair(triples, s, t)
}

/// Runs the single-source search from every node and collects one
/// `(source, target, path)` triple for every ordered pair of distinct nodes that a
/// walk joins: sources in increasing order and, for each source, targets in
/// increasing order.
pub fn all_shortest_paths(adj_list: &[Vec<usize>]) -> (triples: Vec<(usize, usize, Vec<usize>)>)
    ensures
        is_all_pairs_collection(rows_view(adj_list@), triples@),
{
    let ghost g = rows_view(adj_list@);
    let num_nodes = adj_list.len();
    let mut triples: Vec<(usize, usize, Vec<usize>)> = Vec::new();
    let mut start_node: usize = 0;
    while start_node < num_nodes
        invariant
            g == rows_view(adj_list@),
            num_nodes == adj_list.len(),
            start_node <= num_nodes,
            collected(g, triples@, start_node, 0),
        decreases num_nodes - start_node,
    {
        let shortest_paths = dijkstra_shortest_paths(adj_list, start_node);
        let mut node: usize = 0;
        while node < num_nodes
            invariant
                g == rows_view(adj_list@),
                num_nodes == adj_list.len(),
                start_node < num_nodes,
                node <= num_nodes,
                shortest_paths.len() == num_nodes,
                forall|t: usize|
                    t < num_nodes ==> is_representative_path(
                        g,
                        start_node,
                        t,
                        #[trigger] shortest_paths@[t as int]@,
                    ),
                collected(g, triples@, start_node, node),
            decreases num_nodes - node,
        {
            let path = &shortest_paths[node];
            let ghost before = triples@;
            assert(is_representative_path(g, start_node, node, shortest_paths@[node as int]@));
            if path.len() > 0 {
                let copy = path.clone();
                assert(copy@ =~= path@);
                triples.push((start_node, node, copy));
                proof {
                    let last = before.len() as int;
                    assert(triples@[last].0 == start_node && triples@[last].1 == node);
                    assert forall|k: int| 0 <= k < triples@.len() implies is_path_triple(
                        g,
                        #[trigger] triples@[k],
                    ) by {
                        if k < last {
                            assert(triples@[k] == before[k]);
                        }
                    }
                }
            }
            proof {
                assert forall|s: usize, t: usize|
                    (s < start_node || (s == start_node && t < node + 1)) && t < g.len() && s != t
                        && #[trigger] reachable(g, s, t) implies has_pair(triples@, s, t) by {
                    if s == start_node && t == node {
                        assert(triples@[before.len() as int].0 == s);
                    } else {
                        assert(has_pair(before, s, t));
                        let k = choose|k: int|
                            0 <= k < before.len() && (#[trigger] before[k]).0 == s && before[k].1
                                == t;
                        assert(triples@[k] == before[k]);
                    }
                }
            }
            node += 1;
        }
        start_node += 1;
    }
    proof {
        assert forall|s: usize, t: usize| s != t && #[trigger] reachable(g, s, t) implies has_pair(
            triples@,
            s,
            t,
        ) by {
            let p = choose|p: Seq<usize>| connects(g, s, t, p);
            lemma_walk_nodes(g, p, p.len() - 1);
        }
    }
    triples
}

} // verus!
