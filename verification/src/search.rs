//! The label-setting search behind the shortest paths: every node gets its hop
//! distance from the source as a label and, in the order in which the queue hands
//! them out, the neighbors through which that distance was reached.

use crate::graph::{has_edge, rows_view};
use crate::paths::{
    connects, hop_distance, is_first_parent, is_parent, is_parent_step, is_representative_path,
    is_shortest_path, is_step, is_walk, lemma_hop_distance,
    lemma_shortest_path_no_adjacent_repeats, lemma_walk_nodes, lemma_walk_prefix,
    lemma_walk_prepend, lemma_walk_push, reachable,
};
use crate::queue::{entry_le, MinQueue};
use vstd::multiset::*;
use vstd::prelude::*;
use vstd::set_lib::*;

verus! {

/// The sum of all distance labels.
spec fn total(dist: Seq<usize>) -> nat
    decreases dist.len(),
{
    if dist.len() == 0 {
        0
    } else {
        total(dist.drop_last()) + dist.last() as nat
    }
}

/// Changing one label changes the sum by the difference.
proof fn lemma_total_update(dist: Seq<usize>, i: int, x: usize)
    requires
        0 <= i < dist.len(),
    ensures
        total(dist.update(i, x)) == total(dist) - dist[i] + x,
    decreases dist.len(),
{
    if i == dist.len() - 1 {
        assert(dist.update(i, x).drop_last() =~= dist.drop_last());
    } else {
        assert(dist.update(i, x).drop_last() =~= dist.drop_last().update(i, x));
        lemma_total_update(dist.drop_last(), i, x);
    }
}

/// The nodes that carry a finite distance label.
spec fn labelled(dist: Seq<usize>) -> Set<int> {
    Set::new(|v: int| 0 <= v < dist.len() && dist[v] < usize::MAX)
}

/// There are no more labelled nodes than nodes, and as many only if all are labelled.
proof fn lemma_labelled_bound(dist: Seq<usize>)
    ensures
        labelled(dist).finite(),
        labelled(dist).len() <= dist.len(),
        labelled(dist).len() == dist.len() ==> forall|v: int|
            0 <= v < dist.len() ==> dist[v] < usize::MAX,
{
    let all = set_int_range(0, dist.len() as int);
    lemma_int_range(0, dist.len() as int);
    assert(labelled(dist).subset_of(all));
    lemma_len_subset(labelled(dist), all);
    if labelled(dist).len() == dist.len() {
        lemma_subset_equality(labelled(dist), all);
        assert forall|v: int| 0 <= v < dist.len() implies dist[v] < usize::MAX by {
            assert(all.contains(v));
        }
    }
}

/// Labelling a node adds it to the labelled ones.
proof fn lemma_labelled_update(dist: Seq<usize>, v: int, x: usize)
    requires
        0 <= v < dist.len(),
        x < usize::MAX,
    ensures
        labelled(dist.update(v, x)) == labelled(dist).insert(v),
        labelled(dist.update(v, x)).len() == labelled(dist).len() + if dist[v] < usize::MAX {
            0int
        } else {
            1int
        },
{
    lemma_labelled_bound(dist);
    assert(labelled(dist.update(v, x)) =~= labelled(dist).insert(v));
}

/// The first `k` neighbors of `u` are labelled no more than one hop beyond `u`.
spec fn settled_upto(g: Seq<Seq<usize>>, dist: Seq<usize>, u: int, k: int) -> bool {
    forall|j: int|
        0 <= j < k && j < g[u].len() && g[u][j] < g.len() ==> dist[#[trigger] g[u][j] as int]
            <= dist[u] + 1
}

/// The entry under which node `x` waits in the queue: its label, then its number.
spec fn key(dist: Seq<usize>, x: int) -> (usize, usize) {
    (dist[x], x as usize)
}

/// The label and predecessor list of `v` agree: no predecessor without a label,
/// and the first predecessor of a labelled node is a neighbor labelled one less.
spec fn pred_ok(g: Seq<Seq<usize>>, dist: Seq<usize>, preds: Seq<Seq<usize>>, v: int) -> bool {
    if dist[v] == usize::MAX {
        preds[v].len() == 0
    } else {
        &&& preds[v].len() > 0
        &&& has_edge(g, preds[v][0], v as usize)
        &&& dist[preds[v][0] as int] + 1 == dist[v]
    }
}

/// The labels and predecessor lists fit the graph: the source is labelled 0 and
/// has no predecessor, every other node agrees with its first predecessor, and no
/// label reaches the number of labelled nodes.
spec fn labels_ok(
    g: Seq<Seq<usize>>,
    s: usize,
    dist: Seq<usize>,
    preds: Seq<Seq<usize>>,
) -> bool {
    &&& dist.len() == g.len()
    &&& preds.len() == g.len()
    &&& g.len() <= usize::MAX
    &&& s < g.len()
    &&& dist[s as int] == 0
    &&& preds[s as int].len() == 0
    &&& forall|v: int| 0 <= v < g.len() && v != s ==> #[trigger] pred_ok(g, dist, preds, v)
    &&& forall|v: int|
        0 <= v < g.len() && #[trigger] dist[v] < usize::MAX ==> dist[v] < labelled(dist).len()
}

/// Every waiting entry is a node under its label, leaves no earlier than `last`
/// did, and lies at most one hop beyond it.
spec fn queue_ok(
    g: Seq<Seq<usize>>,
    dist: Seq<usize>,
    queue: Multiset<(usize, usize)>,
    last: (usize, usize),
) -> bool {
    forall|e: (usize, usize)| #[trigger]
        queue.contains(e) ==> {
            &&& e.1 < g.len()
            &&& dist[e.1 as int] == e.0
            &&& e.0 < usize::MAX
            &&& entry_le(last, e)
            &&& e.0 <= last.0 + 1
        }
}

/// A labelled node either waits in the queue, or has all its neighbors labelled
/// no more than one hop beyond it.
spec fn pending_or_settled(
    g: Seq<Seq<usize>>,
    dist: Seq<usize>,
    queue: Multiset<(usize, usize)>,
    w: int,
) -> bool {
    dist[w] < usize::MAX ==> queue.contains(key(dist, w)) || settled_upto(
        g,
        dist,
        w,
        g[w].len() as int,
    )
}

/// The first predecessor of `v` left the queue no later than `last` did.
spec fn first_pred_left(
    dist: Seq<usize>,
    preds: Seq<Seq<usize>>,
    last: (usize, usize),
    v: int,
) -> bool {
    entry_le(key(dist, preds[v][0] as int), last)
}

/// If `x` is a labelled neighbor of the labelled node `v` and no longer waits in
/// the queue, the first predecessor of `v` left the queue no later than `x`.
spec fn first_pred_leads(
    g: Seq<Seq<usize>>,
    dist: Seq<usize>,
    preds: Seq<Seq<usize>>,
    queue: Multiset<(usize, usize)>,
    v: int,
    x: int,
) -> bool {
    dist[v] < usize::MAX && dist[x] < usize::MAX && has_edge(g, x as usize, v as usize)
        && !queue.contains(key(dist, x)) ==> entry_le(key(dist, preds[v][0] as int), key(dist, x))
}

/// What the order of leaving the queue has established so far.
spec fn order_ok(
    g: Seq<Seq<usize>>,
    s: usize,
    dist: Seq<usize>,
    preds: Seq<Seq<usize>>,
    queue: Multiset<(usize, usize)>,
    last: (usize, usize),
) -> bool {
    &&& forall|w: int| 0 <= w < g.len() && #[trigger] dist[w] < usize::MAX ==> dist[w] <= last.0 + 1
    &&& forall|v: int|
        0 <= v < g.len() && v != s && dist[v] < usize::MAX ==> #[trigger] first_pred_left(
            dist,
            preds,
            last,
            v,
        )
    &&& forall|v: int, x: int|
        0 <= v < g.len() && v != s && 0 <= x < g.len() ==> #[trigger] first_pred_leads(
            g,
            dist,
            preds,
            queue,
            v,
            x,
        )
}

/// The invariant of the search: `last` is the entry that left the queue last, and
/// node `skip` is exempt from `pending_or_settled`.
spec fn search_inv(
    g: Seq<Seq<usize>>,
    s: usize,
    dist: Seq<usize>,
    preds: Seq<Seq<usize>>,
    queue: Multiset<(usize, usize)>,
    last: (usize, usize),
    skip: int,
) -> bool {
    &&& labels_ok(g, s, dist, preds)
    &&& queue_ok(g, dist, queue, last)
    &&& order_ok(g, s, dist, preds, queue, last)
    &&& forall|w: int|
        0 <= w < g.len() && w != skip ==> #[trigger] pending_or_settled(g, dist, queue, w)
}

/// A vector of `n` copies of `value`.
fn filled(n: usize, value: usize) -> (v: Vec<usize>)
    ensures
        v@ == Seq::new(n as nat, |i: int| value),
{
    let mut v: Vec<usize> = Vec::new();
    while v.len() < n
        invariant
            v.len() <= n,
            v@ == Seq::new(v.len() as nat, |i: int| value),
        decreases n - v.len(),
    {
        v.push(value);
        assert(v@ =~= Seq::new(v.len() as nat, |i: int| value));
    }
    v
}

/// A vector of `n` empty rows.
pub(crate) fn empty_rows(n: usize) -> (rows: Vec<Vec<usize>>)
    ensures
        rows.len() == n,
        forall|i: int| 0 <= i < n ==> (#[trigger] rows@[i])@.len() == 0,
        rows_view(rows@) == Seq::new(n as nat, |i: int| Seq::<usize>::empty()),
{
    let mut rows: Vec<Vec<usize>> = Vec::new();
    while rows.len() < n
        invariant
            rows.len() <= n,
            forall|i: int| 0 <= i < rows.len() ==> (#[trigger] rows@[i])@.len() == 0,
            rows_view(rows@) == Seq::new(rows.len() as nat, |i: int| Seq::<usize>::empty()),
        decreases n - rows.len(),
    {
        let ghost prev = rows_view(rows@);
        rows.push(Vec::new());
        assert(rows_view(rows@) =~= prev.push(Seq::<usize>::empty()));
        assert(rows_view(rows@) =~= Seq::new(rows.len() as nat, |i: int| Seq::<usize>::empty()));
    }
    rows
}

/// Taking the least entry out of the queue keeps the invariant, with that entry as
/// the last to have left and its node exempt until its edges are relaxed.
proof fn lemma_pop_keeps_invariant(
    g: Seq<Seq<usize>>,
    s: usize,
    dist: Seq<usize>,
    preds: Seq<Seq<usize>>,
    queue: Multiset<(usize, usize)>,
    last: (usize, usize),
    least: (usize, usize),
)
    requires
        search_inv(g, s, dist, preds, queue, last, -1),
        queue.contains(least),
        forall|o: (usize, usize)| queue.contains(o) ==> entry_le(least, o),
    ensures
        least.1 < g.len(),
        dist[least.1 as int] == least.0,
        least.0 < usize::MAX,
        search_inv(g, s, dist, preds, queue.remove(least), least, least.1 as int),
{
    let rest = queue.remove(least);
    assert forall|e: (usize, usize)| #[trigger] rest.contains(e) implies queue.contains(e) by {}
    assert forall|w: int| 0 <= w < g.len() && w != least.1 implies #[trigger] pending_or_settled(
        g,
        dist,
        rest,
        w,
    ) by {
        assert(pending_or_settled(g, dist, queue, w));
    }
    assert forall|v: int|
        0 <= v < g.len() && v != s && dist[v] < usize::MAX implies #[trigger] first_pred_left(
        dist,
        preds,
        least,
        v,
    ) by {
        assert(first_pred_left(dist, preds, last, v));
    }
    assert forall|v: int, x: int|
        0 <= v < g.len() && v != s && 0 <= x < g.len() implies #[trigger] first_pred_leads(
        g,
        dist,
        preds,
        rest,
        v,
        x,
    ) by {
        if x == least.1 {
            if dist[v] < usize::MAX {
                assert(first_pred_left(dist, preds, last, v));
            }
        } else {
            assert(first_pred_leads(g, dist, preds, queue, v, x));
        }
    }
}

/// Labelling the neighbor `v` of the node `u` whose edges are being relaxed, with
/// `u` as its only predecessor, and queueing it, keeps the invariant. Only a node
/// without a label can get one.
proof fn lemma_label_keeps_invariant(
    g: Seq<Seq<usize>>,
    s: usize,
    dist: Seq<usize>,
    preds: Seq<Seq<usize>>,
    queue: Multiset<(usize, usize)>,
    u: usize,
    v: usize,
)
    requires
        u < g.len(),
        dist[u as int] < usize::MAX,
        search_inv(g, s, dist, preds, queue, (dist[u as int], u), u as int),
        has_edge(g, u, v),
        dist[u as int] + 1 < dist[v as int],
    ensures
        dist[v as int] == usize::MAX,
        u != v,
        search_inv(
            g,
            s,
            dist.update(v as int, (dist[u as int] + 1) as usize),
            preds.update(v as int, seq![u]),
            queue.insert(((dist[u as int] + 1) as usize, v)),
            (dist[u as int], u),
            u as int,
        ),
        total(dist.update(v as int, (dist[u as int] + 1) as usize)) < total(dist),
{
    let label = (dist[u as int] + 1) as usize;
    let last = (dist[u as int], u);
    let dist_after = dist.update(v as int, label);
    let preds_after = preds.update(v as int, seq![u]);
    let queue_after = queue.insert((label, v));
    lemma_labelled_bound(dist);
    lemma_total_update(dist, v as int, label);
    lemma_labelled_update(dist, v as int, label);
    assert forall|w: int| 0 <= w < g.len() && w != s implies #[trigger] pred_ok(
        g,
        dist_after,
        preds_after,
        w,
    ) by {
        assert(pred_ok(g, dist, preds, w));
    }
    assert forall|e: (usize, usize)| #[trigger] queue_after.contains(e) implies {
        &&& e.1 < g.len()
        &&& dist_after[e.1 as int] == e.0
        &&& e.0 < usize::MAX
        &&& entry_le(last, e)
        &&& e.0 <= last.0 + 1
    } by {
        if e != (label, v) {
            assert(queue.contains(e));
        }
    }
    assert forall|w: int| 0 <= w < g.len() && w != u implies #[trigger] pending_or_settled(
        g,
        dist_after,
        queue_after,
        w,
    ) by {
        if w != v {
            assert(pending_or_settled(g, dist, queue, w));
        }
    }
    assert forall|w: int|
        0 <= w < g.len() && w != s && dist_after[w] < usize::MAX implies #[trigger] first_pred_left(
        dist_after,
        preds_after,
        last,
        w,
    ) by {
        if w != v {
            assert(pred_ok(g, dist, preds, w));
            assert(first_pred_left(dist, preds, last, w));
        }
    }
    assert forall|w: int, x: int|
        0 <= w < g.len() && w != s && 0 <= x < g.len() implies #[trigger] first_pred_leads(
        g,
        dist_after,
        preds_after,
        queue_after,
        w,
        x,
    ) by {
        if dist_after[w] < usize::MAX && dist_after[x] < usize::MAX && has_edge(
            g,
            x as usize,
            w as usize,
        ) && !queue_after.contains(key(dist_after, x)) {
            assert(!queue.contains(key(dist, x)));
            if w != v {
                assert(pred_ok(g, dist, preds, w));
                assert(first_pred_leads(g, dist, preds, queue, w, x));
            } else if x != u {
                // A node that has left the queue has labelled all its neighbors.
                assert(pending_or_settled(g, dist, queue, x));
                let j = choose|j: int| 0 <= j < g[x].len() && g[x][j] == v;
                assert(dist[g[x][j] as int] <= dist[x] + 1);
            }
        }
    }
}

/// Recording the node `u` whose edges are being relaxed as one more predecessor of
/// its neighbor `v` keeps the invariant. Only a labelled node can tie.
proof fn lemma_tie_keeps_invariant(
    g: Seq<Seq<usize>>,
    s: usize,
    dist: Seq<usize>,
    preds: Seq<Seq<usize>>,
    queue: Multiset<(usize, usize)>,
    u: usize,
    v: usize,
)
    requires
        u < g.len(),
        dist[u as int] < usize::MAX,
        search_inv(g, s, dist, preds, queue, (dist[u as int], u), u as int),
        has_edge(g, u, v),
        dist[u as int] + 1 == dist[v as int],
    ensures
        search_inv(
            g,
            s,
            dist,
            preds.update(v as int, preds[v as int].push(u)),
            queue,
            (dist[u as int], u),
            u as int,
        ),
{
    let last = (dist[u as int], u);
    let preds_after = preds.update(v as int, preds[v as int].push(u));
    lemma_labelled_bound(dist);
    assert(pred_ok(g, dist, preds, v as int));
    assert forall|w: int| 0 <= w < g.len() && w != s implies #[trigger] pred_ok(
        g,
        dist,
        preds_after,
        w,
    ) by {
        assert(pred_ok(g, dist, preds, w));
    }
    assert forall|w: int|
        0 <= w < g.len() && w != s && dist[w] < usize::MAX implies #[trigger] first_pred_left(
        dist,
        preds_after,
        last,
        w,
    ) by {
        assert(first_pred_left(dist, preds, last, w));
    }
    assert forall|w: int, x: int|
        0 <= w < g.len() && w != s && 0 <= x < g.len() implies #[trigger] first_pred_leads(
        g,
        dist,
        preds_after,
        queue,
        w,
        x,
    ) by {
        assert(first_pred_leads(g, dist, preds, queue, w, x));
    }
}

/// Relaxes every edge out of `node`, whose label is `dist`.
fn relax_neighbors(
    adj_list: &[Vec<usize>],
    Ghost(s): Ghost<usize>,
    node: usize,
    dist: usize,
    distances: &mut Vec<usize>,
    preds: &mut Vec<Vec<usize>>,
    heap: &mut MinQueue,
)
    requires
        search_inv(
            rows_view(adj_list@),
            s,
            old(distances)@,
            rows_view(old(preds)@),
            old(heap)@,
            (dist, node),
            node as int,
        ),
        node < adj_list.len(),
        dist == old(distances)@[node as int],
        dist < usize::MAX,
    ensures
        search_inv(
            rows_view(adj_list@),
            s,
            final(distances)@,
            rows_view(final(preds)@),
            final(heap)@,
            (dist, node),
            -1,
        ),
        total(final(distances)@) <= total(old(distances)@),
        total(final(distances)@) == total(old(distances)@) ==> final(heap)@.len() == old(
            heap,
        )@.len(),
{
    let ghost g = rows_view(adj_list@);
    let ghost last = (dist, node);
    let num_nodes = adj_list.len();
    let row = &adj_list[node];
    let mut k: usize = 0;
    while k < row.len()
        invariant
            g == rows_view(adj_list@),
            last == (dist, node),
            num_nodes == adj_list.len(),
            node < num_nodes,
            row@ == g[node as int],
            k <= row.len(),
            search_inv(g, s, distances@, rows_view(preds@), heap@, last, node as int),
            settled_upto(g, distances@, node as int, k as int),
            dist == distances@[node as int],
            dist < usize::MAX,
            total(distances@) <= total(old(distances)@),
            total(distances@) == total(old(distances)@) ==> heap@.len() == old(heap)@.len(),
        decreases row.len() - k,
    {
        let next_node = row[k];
        if next_node < num_nodes {
            let next_dist = dist + 1;
            let ghost dist_before = distances@;
            let ghost preds_before = rows_view(preds@);
            let ghost queue_before = heap@;
            proof {
                assert(has_edge(g, node, next_node)) by {
                    assert(g[node as int][k as int] == next_node);
                }
            }
            if next_dist < distances[next_node] {
                // The neighbor is closer through `node` than its label says.
                distances[next_node] = next_dist;
                heap.push((next_dist, next_node));
                let mut first: Vec<usize> = Vec::new();
                first.push(node);
                preds[next_node] = first;
                proof {
                    lemma_label_keeps_invariant(
                        g,
                        s,
                        dist_before,
                        preds_before,
                        queue_before,
                        node,
                        next_node,
                    );
                    assert(rows_view(preds@) =~= preds_before.update(next_node as int, seq![node]));
                }
            } else if next_dist == distances[next_node] {
                // The neighbor is as close through `node` as its label says.
                preds[next_node].push(node);
                proof {
                    lemma_tie_keeps_invariant(
                        g,
                        s,
                        dist_before,
                        preds_before,
                        queue_before,
                        node,
                        next_node,
                    );
                    assert(rows_view(preds@) =~= preds_before.update(
                        next_node as int,
                        preds_before[next_node as int].push(node),
                    ));
                }
            }
        }
        k += 1;
    }
    proof {
        assert(pending_or_settled(g, distances@, heap@, node as int));
    }
}

/// What the labels say once the queue has run empty.
pub(crate) closed spec fn search_done(
    g: Seq<Seq<usize>>,
    s: usize,
    dist: Seq<usize>,
    preds: Seq<Seq<usize>>,
) -> bool {
    &&& labels_ok(g, s, dist, preds)
    &&& forall|w: int|
        0 <= w < g.len() && #[trigger] dist[w] < usize::MAX ==> settled_upto(
            g,
            dist,
            w,
            g[w].len() as int,
        )
    &&& forall|v: int, x: int|
        0 <= v < g.len() && v != s && 0 <= x < g.len() ==> #[trigger] first_pred_leads(
            g,
            dist,
            preds,
            Multiset::empty(),
            v,
            x,
        )
}

/// Labels every node reachable from `start_node` with its hop distance, and records
/// for each the neighbors through which that distance was reached, earliest first.
pub(crate) fn search(adj_list: &[Vec<usize>], start_node: usize) -> (labels: (
    Vec<usize>,
    Vec<Vec<usize>>,
))
    requires
        start_node < adj_list.len(),
    ensures
        labels.0.len() == adj_list.len(),
        labels.1.len() == adj_list.len(),
        search_done(rows_view(adj_list@), start_node, labels.0@, rows_view(labels.1@)),
{
    let ghost g = rows_view(adj_list@);
    let num_nodes = adj_list.len();
    let mut distances = filled(num_nodes, usize::MAX);
    let mut preds = empty_rows(num_nodes);
    let ghost unlabelled = distances@;
    distances[start_node] = 0;
    let mut heap = MinQueue::new();
    heap.push((0, start_node));
    let ghost mut last = (0usize, start_node);
    proof {
        lemma_labelled_update(unlabelled, start_node as int, 0);
        assert forall|v: int| 0 <= v < g.len() && v != start_node implies #[trigger] pred_ok(
            g,
            distances@,
            rows_view(preds@),
            v,
        ) by {}
    }
    loop
        invariant
            g == rows_view(adj_list@),
            search_inv(g, start_node, distances@, rows_view(preds@), heap@, last, -1),
        ensures
            heap@.len() == 0,
        decreases total(distances@), heap@.len(),
    {
        let ghost queue_before = heap@;
        match heap.pop() {
            None => {
                break ;
            },
            Some((dist, node)) => {
                proof {
                    lemma_pop_keeps_invariant(
                        g,
                        start_node,
                        distances@,
                        rows_view(preds@),
                        queue_before,
                        last,
                        (dist, node),
                    );
                    last = (dist, node);
                }
                // An entry above the label of its node is out of date.
                if dist <= distances[node] {
                    relax_neighbors(
                        adj_list,
                        Ghost(start_node),
                        node,
                        dist,
                        &mut distances,
                        &mut preds,
                        &mut heap,
                    );
                }
            },
        }
    }
    proof {
        lemma_multiset_empty_len(heap@);
        assert forall|w: int|
            0 <= w < g.len() && #[trigger] distances@[w] < usize::MAX implies settled_upto(
            g,
            distances@,
            w,
            g[w].len() as int,
        ) by {
            assert(pending_or_settled(g, distances@, heap@, w));
        }
    }
    (distances, preds)
}

/// No walk from the source is shorter than the label of its last node.
proof fn lemma_label_bounds_walk(
    g: Seq<Seq<usize>>,
    s: usize,
    dist: Seq<usize>,
    preds: Seq<Seq<usize>>,
    q: Seq<usize>,
)
    requires
        search_done(g, s, dist, preds),
        is_walk(g, q),
        q[0] == s,
    ensures
        q[q.len() - 1] < g.len(),
        dist[q[q.len() - 1] as int] < usize::MAX,
        dist[q[q.len() - 1] as int] < q.len(),
    decreases q.len(),
{
    if q.len() > 1 {
        let r = q.take(q.len() - 1);
        lemma_walk_prefix(g, q, q.len() - 1);
        lemma_label_bounds_walk(g, s, dist, preds, r);
        let w = r[r.len() - 1];
        let t = q[q.len() - 1];
        assert(is_step(g, q, q.len() - 2));
        assert(has_edge(g, w, t));
        let j = choose|j: int| 0 <= j < g[w as int].len() && g[w as int][j] == t;
        assert(dist[w as int] < usize::MAX);
        assert(settled_upto(g, dist, w as int, g[w as int].len() as int));
        assert(dist[g[w as int][j] as int] <= dist[w as int] + 1);
        lemma_labelled_bound(dist);
    }
}

/// A labelled node is reached by a walk with as many edges as its label says.
proof fn lemma_label_walk(
    g: Seq<Seq<usize>>,
    s: usize,
    dist: Seq<usize>,
    preds: Seq<Seq<usize>>,
    v: usize,
) -> (p: Seq<usize>)
    requires
        search_done(g, s, dist, preds),
        v < g.len(),
        dist[v as int] < usize::MAX,
    ensures
        connects(g, s, v, p),
        p.len() == dist[v as int] + 1,
    decreases dist[v as int],
{
    if v == s {
        seq![s]
    } else {
        assert(pred_ok(g, dist, preds, v as int));
        let shorter = lemma_label_walk(g, s, dist, preds, preds[v as int][0]);
        lemma_walk_push(g, shorter, v);
        shorter.push(v)
    }
}

/// Once the search is done, the labels are the hop distances from the source, and
/// the labelled nodes are the reachable ones.
proof fn lemma_labels_are_distances(
    g: Seq<Seq<usize>>,
    s: usize,
    dist: Seq<usize>,
    preds: Seq<Seq<usize>>,
    v: usize,
)
    requires
        search_done(g, s, dist, preds),
        v < g.len(),
    ensures
        reachable(g, s, v) <==> dist[v as int] < usize::MAX,
        reachable(g, s, v) ==> hop_distance(g, s, v) == dist[v as int],
{
    if dist[v as int] < usize::MAX {
        let p = lemma_label_walk(g, s, dist, preds, v);
        assert forall|q: Seq<usize>| connects(g, s, v, q) implies p.len() <= q.len() by {
            lemma_label_bounds_walk(g, s, dist, preds, q);
        }
        assert(is_shortest_path(g, s, v, p));
        lemma_hop_distance(g, s, v, p);
    }
    if reachable(g, s, v) {
        let q = choose|q: Seq<usize>| connects(g, s, v, q);
        lemma_label_bounds_walk(g, s, dist, preds, q);
    }
}

/// Once the search is done, the first predecessor of a node is its first parent.
proof fn lemma_first_pred_is_first_parent(
    g: Seq<Seq<usize>>,
    s: usize,
    dist: Seq<usize>,
    preds: Seq<Seq<usize>>,
    v: usize,
)
    requires
        search_done(g, s, dist, preds),
        v < g.len(),
        preds[v as int].len() > 0,
    ensures
        v != s,
        dist[v as int] < usize::MAX,
        has_edge(g, preds[v as int][0], v),
        dist[preds[v as int][0] as int] + 1 == dist[v as int],
        is_first_parent(g, s, preds[v as int][0], v),
{
    assert(pred_ok(g, dist, preds, v as int));
    let u = preds[v as int][0];
    lemma_labels_are_distances(g, s, dist, preds, u);
    lemma_labels_are_distances(g, s, dist, preds, v);
    assert(is_parent(g, s, u, v));
    assert forall|x: usize| is_parent(g, s, x, v) implies u <= x by {
        lemma_labels_are_distances(g, s, dist, preds, x);
        assert(first_pred_leads(g, dist, preds, Multiset::empty(), v as int, x as int));
    }
}

/// Position `i` of `p` holds the first recorded predecessor of the node at position `i + 1`.
spec fn is_pred_step(preds: Seq<Seq<usize>>, p: Seq<usize>, i: int) -> bool {
    &&& p[i + 1] < preds.len()
    &&& preds[p[i + 1] as int].len() > 0
    &&& p[i] == preds[p[i + 1] as int][0]
}

/// A node without a recorded predecessor is the source or out of reach.
pub(crate) proof fn lemma_no_preds(
    g: Seq<Seq<usize>>,
    s: usize,
    dist: Seq<usize>,
    preds: Seq<Seq<usize>>,
    v: usize,
)
    requires
        search_done(g, s, dist, preds),
        v < g.len(),
        preds[v as int].len() == 0,
    ensures
        v == s || !reachable(g, s, v),
{
    if v != s {
        assert(pred_ok(g, dist, preds, v as int));
        lemma_labels_are_distances(g, s, dist, preds, v);
    }
}

/// Follows first predecessors from `target` back to `start_node`.
pub(crate) fn trace_back(
    Ghost(g): Ghost<Seq<Seq<usize>>>,
    Ghost(dist): Ghost<Seq<usize>>,
    preds: &Vec<Vec<usize>>,
    start_node: usize,
    target: usize,
) -> (path: Vec<usize>)
    requires
        search_done(g, start_node, dist, rows_view(preds@)),
        target < g.len(),
        preds@[target as int]@.len() > 0,
    ensures
        target != start_node,
        reachable(g, start_node, target),
        is_representative_path(g, start_node, target, path@),
{
    let ghost p = rows_view(preds@);
    let mut path: Vec<usize> = Vec::new();
    path.push(target);
    let mut current_node = target;
    proof {
        assert(p[target as int].len() > 0);
        lemma_first_pred_is_first_parent(g, start_node, dist, p, target);
    }
    while current_node != start_node
        invariant
            p == rows_view(preds@),
            search_done(g, start_node, dist, p),
            is_walk(g, path@),
            path@[0] == current_node,
            path@[path@.len() - 1] == target,
            current_node < g.len(),
            dist[current_node as int] < usize::MAX,
            path@.len() + dist[current_node as int] == dist[target as int] + 1,
            forall|i: int| 0 <= i < path@.len() - 1 ==> #[trigger] is_pred_step(p, path@, i),
        decreases dist[current_node as int],
    {
        let ghost before = path@;
        proof {
            assert(pred_ok(g, dist, p, current_node as int));
            lemma_first_pred_is_first_parent(g, start_node, dist, p, current_node);
            lemma_walk_prepend(g, p[current_node as int][0], path@);
        }
        let prev_node = preds[current_node][0];
        path.insert(0, prev_node);
        proof {
            assert forall|i: int| 0 <= i < path@.len() - 1 implies #[trigger] is_pred_step(
                p,
                path@,
                i,
            ) by {
                if i > 0 {
                    assert(is_pred_step(p, before, i - 1));
                }
            }
        }
        current_node = prev_node;
    }
    proof {
        let found = path@;
        assert forall|q: Seq<usize>| connects(g, start_node, target, q) implies found.len()
            <= q.len() by {
            lemma_label_bounds_walk(g, start_node, dist, p, q);
        }
        assert(is_shortest_path(g, start_node, target, found));
        lemma_hop_distance(g, start_node, target, found);
        lemma_shortest_path_no_adjacent_repeats(g, start_node, target, found);
        assert forall|i: int| 0 <= i < found.len() - 1 implies #[trigger] is_parent_step(
            g,
            start_node,
            found,
            i,
        ) by {
            assert(is_pred_step(p, found, i));
            lemma_walk_nodes(g, found, i + 1);
            lemma_first_pred_is_first_parent(g, start_node, dist, p, found[i + 1]);
        }
    }
    path
}

} // verus!
