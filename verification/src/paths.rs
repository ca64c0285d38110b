//! Walks along the edges of an adjacency structure, and what makes one shortest.

use crate::graph::has_edge;
use vstd::prelude::*;

verus! {

/// Positions `i` and `i + 1` of `p` are joined by an edge of `g`.
pub open spec fn is_step(g: Seq<Seq<usize>>, p: Seq<usize>, i: int) -> bool {
    has_edge(g, p[i], p[i + 1])
}

/// `p` is a non-empty sequence of nodes of `g`, each joined to the next by an edge.
pub open spec fn is_walk(g: Seq<Seq<usize>>, p: Seq<usize>) -> bool {
    &&& p.len() > 0
    &&& p[0] < g.len()
    &&& forall|i: int| 0 <= i < p.len() - 1 ==> #[trigger] is_step(g, p, i)
}

/// `p` is a walk of `g` that starts at `s` and ends at `t`.
pub open spec fn connects(g: Seq<Seq<usize>>, s: usize, t: usize, p: Seq<usize>) -> bool {
    &&& is_walk(g, p)
    &&& p[0] == s
    &&& p[p.len() - 1] == t
}

/// Some walk of `g` leads from `s` to `t`.
pub open spec fn reachable(g: Seq<Seq<usize>>, s: usize, t: usize) -> bool {
    exists|p: Seq<usize>| connects(g, s, t, p)
}

/// `p` leads from `s` to `t`, and no walk from `s` to `t` is shorter.
pub open spec fn is_shortest_path(g: Seq<Seq<usize>>, s: usize, t: usize, p: Seq<usize>) -> bool {
    &&& connects(g, s, t, p)
    &&& forall|q: Seq<usize>| connects(g, s, t, q) ==> p.len() <= q.len()
}

/// The number of edges on a shortest path from `s` to `t`; meaningful where `t` is
/// reachable from `s`.
pub open spec fn hop_distance(g: Seq<Seq<usize>>, s: usize, t: usize) -> nat {
    ((choose|p: Seq<usize>| is_shortest_path(g, s, t, p)).len() - 1) as nat
}

/// Positions `i` and `i + 1` of `p` hold the same node.
pub open spec fn repeats_at(p: Seq<usize>, i: int) -> bool {
    p[i] == p[i + 1]
}

/// No node of `p` is immediately followed by itself.
pub open spec fn no_adjacent_repeats(p: Seq<usize>) -> bool {
    forall|i: int| 0 <= i < p.len() - 1 ==> !#[trigger] repeats_at(p, i)
}

/// `p` with every run of equal neighboring entries reduced to one entry.
pub open spec fn collapsed(p: Seq<usize>) -> Seq<usize>
    decreases p.len(),
{
    if p.len() <= 1 {
        p
    } else if p[p.len() - 2] == p[p.len() - 1] {
        collapsed(p.drop_last())
    } else {
        collapsed(p.drop_last()).push(p[p.len() - 1])
    }
}

/// `u` comes right before `v` on some shortest path from `s` to `v`.
pub open spec fn is_parent(g: Seq<Seq<usize>>, s: usize, u: usize, v: usize) -> bool {
    &&& reachable(g, s, u)
    &&& has_edge(g, u, v)
    &&& hop_distance(g, s, u) + 1 == hop_distance(g, s, v)
}

/// `u` is the lowest-numbered node that comes right before `v` on a shortest path from `s`.
pub open spec fn is_first_parent(g: Seq<Seq<usize>>, s: usize, u: usize, v: usize) -> bool {
    &&& is_parent(g, s, u, v)
    &&& forall|x: usize| is_parent(g, s, x, v) ==> u <= x
}

/// Position `i` of `p` holds the first parent of the node at position `i + 1`.
pub open spec fn is_parent_step(g: Seq<Seq<usize>>, s: usize, p: Seq<usize>, i: int) -> bool {
    is_first_parent(g, s, p[i], p[i + 1])
}

/// Every node of `p` but the first is preceded by its first parent: among the
/// shortest paths to a node, `p` is the one that a search settles on when it
/// takes nodes in order of distance, then of number.
pub open spec fn follows_first_parents(g: Seq<Seq<usize>>, s: usize, p: Seq<usize>) -> bool {
    forall|i: int| 0 <= i < p.len() - 1 ==> #[trigger] is_parent_step(g, s, p, i)
}

/// What a single-source search owes for target `t`: nothing for the source itself
/// and for targets out of reach, otherwise the shortest path from `s` to `t` that
/// runs through first parents.
pub open spec fn is_representative_path(
    g: Seq<Seq<usize>>,
    s: usize,
    t: usize,
    p: Seq<usize>,
) -> bool {
    if t != s && reachable(g, s, t) {
        &&& is_shortest_path(g, s, t, p)
        &&& p.len() == hop_distance(g, s, t) + 1
        &&& no_adjacent_repeats(p)
        &&& follows_first_parents(g, s, p)
    } else {
        p.len() == 0
    }
}

/// A walk can be extended backwards along an edge into its first node.
pub proof fn lemma_walk_prepend(g: Seq<Seq<usize>>, u: usize, p: Seq<usize>)
    requires
        is_walk(g, p),
        has_edge(g, u, p[0]),
    ensures
        is_walk(g, p.insert(0, u)),
        p.insert(0, u)[0] == u,
        p.insert(0, u).len() == p.len() + 1,
        p.insert(0, u)[p.len() as int] == p[p.len() - 1],
{
    let q = p.insert(0, u);
    assert forall|i: int| 0 <= i < q.len() - 1 implies #[trigger] is_step(g, q, i) by {
        if i > 0 {
            assert(is_step(g, p, i - 1));
        }
    }
}

/// A walk can be extended forwards along an edge out of its last node.
pub proof fn lemma_walk_push(g: Seq<Seq<usize>>, p: Seq<usize>, v: usize)
    requires
        is_walk(g, p),
        has_edge(g, p[p.len() - 1], v),
    ensures
        is_walk(g, p.push(v)),
{
    let q = p.push(v);
    assert forall|i: int| 0 <= i < q.len() - 1 implies #[trigger] is_step(g, q, i) by {
        if i < p.len() - 1 {
            assert(is_step(g, p, i));
        }
    }
}

/// Every non-empty prefix of a walk is a walk.
pub proof fn lemma_walk_prefix(g: Seq<Seq<usize>>, p: Seq<usize>, k: int)
    requires
        is_walk(g, p),
        0 < k <= p.len(),
    ensures
        is_walk(g, p.take(k)),
{
    let q = p.take(k);
    assert forall|i: int| 0 <= i < q.len() - 1 implies #[trigger] is_step(g, q, i) by {
        assert(is_step(g, p, i));
    }
}

/// Every node on a walk is a node of the graph.
pub proof fn lemma_walk_nodes(g: Seq<Seq<usize>>, p: Seq<usize>, i: int)
    requires
        is_walk(g, p),
        0 <= i < p.len(),
    ensures
        p[i] < g.len(),
{
    if i > 0 {
        assert(is_step(g, p, i - 1));
    }
}

/// A shortest path never stays on a node: dropping the repeat would shorten it.
pub proof fn lemma_shortest_path_no_adjacent_repeats(
    g: Seq<Seq<usize>>,
    s: usize,
    t: usize,
    p: Seq<usize>,
)
    requires
        is_shortest_path(g, s, t, p),
    ensures
        no_adjacent_repeats(p),
{
    assert forall|i: int| 0 <= i < p.len() - 1 implies !#[trigger] repeats_at(p, i) by {
        if repeats_at(p, i) {
            let q = p.remove(i);
            assert forall|j: int| 0 <= j < q.len() - 1 implies #[trigger] is_step(g, q, j) by {
                if j < i - 1 {
                    assert(is_step(g, p, j));
                } else if j == i - 1 {
                    assert(is_step(g, p, j));
                } else {
                    assert(is_step(g, p, j + 1));
                }
            }
            assert(connects(g, s, t, q));
        }
    }
}

/// Collapsing keeps the first and the last entry and leaves no repeat behind.
pub proof fn lemma_collapsed(p: Seq<usize>)
    ensures
        no_adjacent_repeats(collapsed(p)),
        collapsed(p).len() <= p.len(),
        p.len() > 0 ==> collapsed(p).len() > 0 && collapsed(p)[collapsed(p).len() - 1] == p[p.len()
            - 1] && collapsed(p)[0] == p[0],
    decreases p.len(),
{
    if p.len() <= 1 {
    } else {
        lemma_collapsed(p.drop_last());
        let c = collapsed(p.drop_last());
        if p[p.len() - 2] != p[p.len() - 1] {
            let d = c.push(p[p.len() - 1]);
            assert forall|i: int| 0 <= i < d.len() - 1 implies !#[trigger] repeats_at(d, i) by {
                if i < c.len() - 1 {
                    assert(!repeats_at(c, i));
                }
            }
        }
    }
}

/// Collapsing changes nothing where no entry is repeated.
pub proof fn lemma_collapsed_identity(p: Seq<usize>)
    requires
        no_adjacent_repeats(p),
    ensures
        collapsed(p) == p,
    decreases p.len(),
{
    if p.len() > 1 {
        let q = p.drop_last();
        assert forall|i: int| 0 <= i < q.len() - 1 implies !#[trigger] repeats_at(q, i) by {
            assert(!repeats_at(p, i));
        }
        lemma_collapsed_identity(q);
        assert(!repeats_at(p, p.len() - 2));
        assert(q.push(p[p.len() - 1]) =~= p);
    }
}

/// From a given source there is only one walk to a given target that runs through
/// first parents.
pub proof fn lemma_first_parent_path_unique(
    g: Seq<Seq<usize>>,
    s: usize,
    t: usize,
    p: Seq<usize>,
    q: Seq<usize>,
)
    requires
        connects(g, s, t, p),
        connects(g, s, t, q),
        follows_first_parents(g, s, p),
        follows_first_parents(g, s, q),
    ensures
        p == q,
    decreases p.len(),
{
    lemma_hop_distance_self(g, s);
    if p.len() == 1 || q.len() == 1 {
        if p.len() > 1 {
            assert(is_parent_step(g, s, p, p.len() - 2));
        }
        if q.len() > 1 {
            assert(is_parent_step(g, s, q, q.len() - 2));
        }
        assert(p =~= q);
    } else {
        assert(is_parent_step(g, s, p, p.len() - 2));
        assert(is_parent_step(g, s, q, q.len() - 2));
        let u = p[p.len() - 2];
        let p_head = p.drop_last();
        let q_head = q.drop_last();
        lemma_walk_prefix(g, p, p.len() - 1);
        lemma_walk_prefix(g, q, q.len() - 1);
        assert(p_head =~= p.take(p.len() - 1));
        assert(q_head =~= q.take(q.len() - 1));
        assert forall|i: int| 0 <= i < p_head.len() - 1 implies #[trigger] is_parent_step(
            g,
            s,
            p_head,
            i,
        ) by {
            assert(is_parent_step(g, s, p, i));
        }
        assert forall|i: int| 0 <= i < q_head.len() - 1 implies #[trigger] is_parent_step(
            g,
            s,
            q_head,
            i,
        ) by {
            assert(is_parent_step(g, s, q, i));
        }
        lemma_first_parent_path_unique(g, s, u, p_head, q_head);
        assert(p =~= p_head.push(t));
        assert(q =~= q_head.push(t));
    }
}

/// All shortest paths between two nodes have the hop distance as their number of edges.
pub proof fn lemma_hop_distance(g: Seq<Seq<usize>>, s: usize, t: usize, p: Seq<usize>)
    requires
        is_shortest_path(g, s, t, p),
    ensures
        p.len() == hop_distance(g, s, t) + 1,
{
    let c = choose|c: Seq<usize>| is_shortest_path(g, s, t, c);
    assert(connects(g, s, t, c));
    assert(connects(g, s, t, p));
}

/// Every node is at hop distance 0 from itself.
pub proof fn lemma_hop_distance_self(g: Seq<Seq<usize>>, s: usize)
    requires
        s < g.len(),
    ensures
        reachable(g, s, s),
        hop_distance(g, s, s) == 0,
{
    let p = seq![s];
    assert(connects(g, s, s, p));
    assert(is_shortest_path(g, s, s, p));
    lemma_hop_distance(g, s, s, p);
}

} // verus!
