//! Betweenness accumulation over representative shortest paths.

use crate::graph::MyGraph;
use std::collections::HashMap;
use vstd::prelude::*;
use vstd::seq_lib::*;

verus! {

/// How often `x` occurs in `s`.
pub open spec fn count_of(s: Seq<usize>, x: usize) -> nat
    decreases s.len(),
{
    if s.len() == 0 {
        0
    } else {
        count_of(s.drop_last(), x) + if s[s.len() - 1] == x {
            1nat
        } else {
            0nat
        }
    }
}

/// The nodes of `path` strictly between its first and its last.
pub open spec fn interior(path: Seq<usize>) -> Seq<usize> {
    if path.len() < 2 {
        Seq::empty()
    } else {
        path.subrange(1, path.len() - 1)
    }
}

/// How often `node` occurs as an interior node over all of `paths`.
pub open spec fn occurrences(paths: Seq<Seq<usize>>, node: usize) -> nat
    decreases paths.len(),
{
    if paths.len() == 0 {
        0
    } else {
        occurrences(paths.drop_last(), node) + count_of(interior(paths[paths.len() - 1]), node)
    }
}

/// The paths carried by a sequence of `(source, target, path)` triples.
pub open spec fn paths_view(triples: Seq<(usize, usize, Vec<usize>)>) -> Seq<Seq<usize>> {
    Seq::new(triples.len(), |i: int| triples[i].2@)
}

/// The number of ordered pairs of distinct nodes among `n` nodes.
pub open spec fn ordered_pairs(n: nat) -> nat {
    if n == 0 {
        0
    } else {
        n * ((n - 1) as nat)
    }
}

/// A betweenness score as an exact fraction: the number of representative shortest
/// paths that pass through the node, over the number of ordered node pairs.
#[derive(Clone, Copy, Debug, PartialEq, Eq, Structural)]
pub struct Score {
    /// How often the node lies strictly inside one of the paths.
    pub occurrences: u128,
    /// The number of ordered pairs of distinct nodes of the graph.
    pub pairs: u128,
}

/// Counting over two batches of paths and adding up is counting over both at once.
pub proof fn lemma_occurrences_concat(a: Seq<Seq<usize>>, b: Seq<Seq<usize>>, node: usize)
    ensures
        occurrences(a + b, node) == occurrences(a, node) + occurrences(b, node),
    decreases b.len(),
{
    if b.len() == 0 {
        assert(a + b =~= a);
    } else {
        assert((a + b).drop_last() =~= a + b.drop_last());
        lemma_occurrences_concat(a, b.drop_last(), node);
    }
}

/// Taking one path out lowers the count by what that path contributes.
pub proof fn lemma_occurrences_remove(paths: Seq<Seq<usize>>, k: int, node: usize)
    requires
        0 <= k < paths.len(),
    ensures
        occurrences(paths, node) == occurrences(paths.remove(k), node) + count_of(
            interior(paths[k]),
            node,
        ),
{
    let head = paths.take(k);
    let tail = paths.skip(k + 1);
    let one = seq![paths[k]];
    assert(paths =~= head + one + tail);
    assert(paths.remove(k) =~= head + tail);
    lemma_occurrences_concat(head + one, tail, node);
    lemma_occurrences_concat(head, one, node);
    lemma_occurrences_concat(head, tail, node);
    assert(one.drop_last() =~= Seq::<Seq<usize>>::empty());
    assert(occurrences(one, node) == count_of(interior(paths[k]), node)) by {
        assert(occurrences(one.drop_last(), node) == 0);
    }
}

/// The counts do not depend on the order in which the paths are handed in.
pub proof fn lemma_occurrences_permutation(a: Seq<Seq<usize>>, b: Seq<Seq<usize>>, node: usize)
    requires
        a.to_multiset() == b.to_multiset(),
    ensures
        occurrences(a, node) == occurrences(b, node),
    decreases a.len(),
{
    to_multiset_len(a);
    to_multiset_len(b);
    if a.len() > 0 {
        let last = a[a.len() - 1];
        assert(a.contains(last));
        to_multiset_contains(a, last);
        to_multiset_contains(b, last);
        let k = choose|k: int| 0 <= k < b.len() && b[k] == last;
        assert(a.remove(a.len() - 1) =~= a.drop_last());
        to_multiset_remove(a, a.len() - 1);
        to_multiset_remove(b, k);
        lemma_occurrences_permutation(a.drop_last(), b.remove(k), node);
        lemma_occurrences_remove(b, k, node);
    }
}

/// The counts do not depend on the order in which the triples were collected, and
/// so not on the order in which the sources were processed.
pub proof fn lemma_triple_order_is_immaterial(
    a: Seq<(usize, usize, Vec<usize>)>,
    b: Seq<(usize, usize, Vec<usize>)>,
    node: usize,
)
    requires
        a.to_multiset() == b.to_multiset(),
    ensures
        occurrences(paths_view(a), node) == occurrences(paths_view(b), node),
    decreases a.len(),
{
    to_multiset_len(a);
    to_multiset_len(b);
    if a.len() > 0 {
        let last = a[a.len() - 1];
        assert(a.contains(last));
        to_multiset_contains(a, last);
        to_multiset_contains(b, last);
        let k = choose|k: int| 0 <= k < b.len() && b[k] == last;
        assert(a.remove(a.len() - 1) =~= a.drop_last());
        to_multiset_remove(a, a.len() - 1);
        to_multiset_remove(b, k);
        lemma_triple_order_is_immaterial(a.drop_last(), b.remove(k), node);
        assert(paths_view(a).drop_last() =~= paths_view(a.drop_last()));
        assert(paths_view(b).remove(k) =~= paths_view(b.remove(k)));
        lemma_occurrences_remove(paths_view(b), k, node);
    } else {
        assert(paths_view(a).len() == 0);
        assert(paths_view(b).len() == 0);
    }
}

/// How often `node` has been met once the paths `done` and the first `k` interior
/// nodes of one more path `path` have been gone through.
spec fn tally(done: Seq<Seq<usize>>, path: Seq<usize>, k: int, node: usize) -> nat {
    occurrences(done, node) + count_of(interior(path).take(k), node)
}

/// The score table holds for `node` what `tally` says: no entry for a node not yet
/// met, else the tally over `pairs`.
spec fn tallied_at(
    scores: Map<usize, Score>,
    pairs: u128,
    done: Seq<Seq<usize>>,
    path: Seq<usize>,
    k: int,
    node: usize,
) -> bool {
    if tally(done, path, k, node) == 0 {
        !scores.contains_key(node)
    } else {
        &&& scores.contains_key(node)
        &&& scores[node].occurrences == tally(done, path, k, node)
        &&& scores[node].pairs == pairs
    }
}

/// The score table holds for every node what `tally` says.
spec fn tallied(
    scores: Map<usize, Score>,
    pairs: u128,
    done: Seq<Seq<usize>>,
    path: Seq<usize>,
    k: int,
) -> bool {
    forall|node: usize| #[trigger] tallied_at(scores, pairs, done, path, k, node)
}

/// Going one interior node further raises the tally of that node by one.
proof fn lemma_tally_step(done: Seq<Seq<usize>>, path: Seq<usize>, k: int, node: usize)
    requires
        0 <= k < interior(path).len(),
    ensures
        tally(done, path, k + 1, node) == tally(done, path, k, node) + if interior(path)[k]
            == node {
            1nat
        } else {
            0nat
        },
{
    assert(interior(path).take(k + 1).drop_last() =~= interior(path).take(k));
}

/// Before the first interior node of a path, the tally is that of the paths done.
proof fn lemma_tally_start(done: Seq<Seq<usize>>, path: Seq<usize>, node: usize)
    ensures
        tally(done, path, 0, node) == occurrences(done, node),
{
    assert(interior(path).take(0).len() == 0);
}

/// After the last interior node of a path, the tally is that of the paths done and this one.
proof fn lemma_tally_end(paths: Seq<Seq<usize>>, i: int, node: usize)
    requires
        0 <= i < paths.len(),
    ensures
        tally(paths.take(i), paths[i], interior(paths[i]).len() as int, node) == occurrences(
            paths.take(i + 1),
            node,
        ),
{
    let inner = interior(paths[i]);
    assert(inner.take(inner.len() as int) =~= inner);
    assert(paths.take(i + 1).drop_last() =~= paths.take(i));
}

/// No node is met more often than there are interior nodes.
proof fn lemma_tally_bound(
    done: Seq<Seq<usize>>,
    path: Seq<usize>,
    k: int,
    node: usize,
    longest: nat,
)
    requires
        forall|i: int| 0 <= i < done.len() ==> (#[trigger] done[i]).len() <= longest,
        0 <= k <= interior(path).len(),
    ensures
        tally(done, path, k, node) <= done.len() * longest + k,
    decreases done.len(), k,
{
    if k > 0 {
        lemma_tally_bound(done, path, k - 1, node, longest);
        lemma_tally_step(done, path, k - 1, node);
    } else if done.len() > 0 {
        let last = done[done.len() - 1];
        let earlier = done.drop_last();
        lemma_tally_start(done, path, node);
        lemma_tally_bound(earlier, last, interior(last).len() as int, node, longest);
        assert(earlier =~= done.take(done.len() - 1));
        lemma_tally_end(done, done.len() - 1, node);
        assert(done.take(done.len() as int) =~= done);
        assert(done.len() * longest == earlier.len() * longest + longest) by (nonlinear_arith)
            requires
                done.len() == earlier.len() + 1,
        ;
    } else {
        lemma_tally_start(done, path, node);
    }
}

impl MyGraph {
    /// Scores every node that lies strictly inside at least one of the given paths:
    /// the number of such occurrences, and the number of ordered pairs of distinct
    /// nodes it is measured against. Nodes inside no path get no entry.
    pub fn betweenness_centrality(
        adjacency_list: &[Vec<usize>],
        all_shortest_paths: &[(usize, usize, Vec<usize>)],
    ) -> (scores: HashMap<usize, Score>)
        ensures
            forall|node: usize| #[trigger]
                scores@.contains_key(node) <==> occurrences(paths_view(all_shortest_paths@), node)
                    > 0,
            forall|node: usize| #[trigger]
                scores@.contains_key(node) ==> scores@[node].occurrences == occurrences(
                    paths_view(all_shortest_paths@),
                    node,
                ) && scores@[node].pairs == ordered_pairs(adjacency_list@.len()),
    {
        let ghost paths = paths_view(all_shortest_paths@);
        let pairs = ordered_pair_count(adjacency_list.len());
        let mut scores: HashMap<usize, Score> = HashMap::new();
        let mut i: usize = 0;
        proof {
            assert(paths.take(0) =~= Seq::<Seq<usize>>::empty());
            assert forall|node: usize| #[trigger]
                tallied_at(scores@, pairs, paths.take(0), Seq::empty(), 0, node) by {
                lemma_tally_start(paths.take(0), Seq::empty(), node);
            }
        }
        while i < all_shortest_paths.len()
            invariant
                paths == paths_view(all_shortest_paths@),
                i <= all_shortest_paths.len(),
                tallied(scores@, pairs, paths.take(i as int), Seq::empty(), 0),
            decreases all_shortest_paths.len() - i,
        {
            let path = &all_shortest_paths[i].2;
            let ghost done = paths.take(i as int);
            proof {
                assert(path@ == paths[i as int]);
                assert forall|node: usize| #[trigger]
                    tallied_at(scores@, pairs, done, path@, 0, node) by {
                    assert(tallied_at(scores@, pairs, done, Seq::empty(), 0, node));
                    lemma_tally_start(done, Seq::empty(), node);
                    lemma_tally_start(done, path@, node);
                }
            }
            if path.len() >= 2 {
                let last = path.len() - 1;
                let mut j: usize = 1;
                while j < last
                    invariant
                        paths == paths_view(all_shortest_paths@),
                        i < all_shortest_paths.len(),
                        done == paths.take(i as int),
                        path@ == paths[i as int],
                        last == path.len() - 1,
                        1 <= j <= last,
                        tallied(scores@, pairs, done, path@, j - 1),
                    decreases last - j,
                {
                    let node = path[j];
                    let ghost before = scores@;
                    proof {
                        assert(tallied_at(before, pairs, done, path@, j - 1, node));
                        assert forall|k: int| 0 <= k < done.len() implies (#[trigger] done[k]).len()
                            <= usize::MAX by {
                            assert(done[k].len() == all_shortest_paths@[k].2.len());
                        }
                        lemma_tally_bound(done, path@, j - 1, node, usize::MAX as nat);
                        assert(done.len() * usize::MAX + usize::MAX <= usize::MAX * usize::MAX)
                            by (nonlinear_arith)
                            requires
                                done.len() < usize::MAX,
                        ;
                        assert(usize::MAX * usize::MAX < u128::MAX) by (nonlinear_arith)
                            requires
                                usize::MAX <= 0xffff_ffff_ffff_ffff,
                        ;
                    }
                    let slot = scores.entry(node).or_insert(Score { occurrences: 0, pairs });
                    slot.occurrences += 1;
                    proof {
                        assert(interior(path@)[j - 1] == node);
                        assert forall|x: usize| #[trigger]
                            tallied_at(scores@, pairs, done, path@, j as int, x) by {
                            assert(tallied_at(before, pairs, done, path@, j - 1, x));
                            lemma_tally_step(done, path@, j - 1, x);
                        }
                    }
                    j += 1;
                }
            }
            proof {
                assert forall|node: usize| #[trigger]
                    tallied_at(scores@, pairs, paths.take(i + 1), Seq::empty(), 0, node) by {
                    assert(tallied_at(
                        scores@,
                        pairs,
                        done,
                        path@,
                        interior(path@).len() as int,
                        node,
                    ));
                    lemma_tally_end(paths, i as int, node);
                    lemma_tally_start(paths.take(i + 1), Seq::empty(), node);
                }
            }
            i += 1;
        }
        proof {
            assert(paths.take(i as int) =~= paths);
            assert forall|node: usize|
                scores@.contains_key(node) <==> occurrences(paths, node) > 0 by {
                assert(tallied_at(scores@, pairs, paths, Seq::empty(), 0, node));
                lemma_tally_start(paths, Seq::empty(), node);
            }
            assert forall|node: usize| #[trigger]
                scores@.contains_key(node) implies scores@[node].occurrences == occurrences(
                paths,
                node,
            ) && scores@[node].pairs == pairs by {
                assert(tallied_at(scores@, pairs, paths, Seq::empty(), 0, node));
                lemma_tally_start(paths, Seq::empty(), node);
            }
        }
        scores
    }
}

/// The number of ordered pairs of distinct nodes among `num_nodes` nodes.
pub fn ordered_pair_count(num_nodes: usize) -> (pairs: u128)
    ensures
        pairs == ordered_pairs(num_nodes as nat),
{
    let n = num_nodes as u128;
    if n == 0 {
        0
    } else {
        assert(n * (n - 1) <= u128::MAX) by (nonlinear_arith)
            requires
                1 <= n <= 0xffff_ffff_ffff_ffff,
        ;
        n * (n - 1)
    }
}

} // verus!
