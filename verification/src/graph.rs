//! The graph store: an adjacency list over dense node indices, with the
//! metrics that are read directly off it.

use vstd::prelude::*;

verus! {

/// The adjacency structure held by a list of rows: one neighbor sequence per node.
pub open spec fn rows_view(rows: Seq<Vec<usize>>) -> Seq<Seq<usize>> {
    Seq::new(rows.len(), |i: int| rows[i]@)
}

/// `v` occurs in the neighbor sequence of `u`, and both are nodes of `g`.
pub open spec fn has_edge(g: Seq<Seq<usize>>, u: usize, v: usize) -> bool {
    &&& u < g.len()
    &&& v < g.len()
    &&& g[u as int].contains(v)
}

/// Every neighbor entry names a node of the graph.
pub open spec fn closed(g: Seq<Seq<usize>>) -> bool {
    forall|u: int, i: int| 0 <= u < g.len() && 0 <= i < g[u].len() ==> #[trigger] g[u][i] < g.len()
}

/// No node lists the same neighbor twice.
pub open spec fn simple(g: Seq<Seq<usize>>) -> bool {
    forall|u: int| 0 <= u < g.len() ==> (#[trigger] g[u]).no_duplicates()
}

/// Whenever `v` is listed under `u`, `u` is listed under `v`.
pub open spec fn symmetric(g: Seq<Seq<usize>>) -> bool {
    forall|u: usize, v: usize| has_edge(g, u, v) ==> has_edge(g, v, u)
}

/// The invariant of an undirected graph built by edge insertion.
pub open spec fn well_formed(g: Seq<Seq<usize>>) -> bool {
    &&& closed(g)
    &&& simple(g)
    &&& symmetric(g)
}

/// `g` extended with isolated nodes until it has at least `n` nodes.
pub open spec fn grown(g: Seq<Seq<usize>>, n: int) -> Seq<Seq<usize>> {
    if n <= g.len() {
        g
    } else {
        g + Seq::new((n - g.len()) as nat, |i: int| Seq::<usize>::empty())
    }
}

/// `g` with `v` appended to the neighbor sequence of `u`, unless it is already listed.
pub open spec fn with_arc(g: Seq<Seq<usize>>, u: usize, v: usize) -> Seq<Seq<usize>> {
    if u < g.len() && !g[u as int].contains(v) {
        g.update(u as int, g[u as int].push(v))
    } else {
        g
    }
}

/// `g` after inserting the undirected edge between `a` and `b`.
pub open spec fn with_edge(g: Seq<Seq<usize>>, a: usize, b: usize) -> Seq<Seq<usize>> {
    let n: int = if a >= b { a + 1 } else { b + 1 };
    with_arc(with_arc(grown(g, n), a, b), b, a)
}

/// `g` after inserting the edges of `edges` one by one, first to last.
pub open spec fn with_edges(g: Seq<Seq<usize>>, edges: Seq<(usize, usize)>) -> Seq<Seq<usize>>
    decreases edges.len(),
{
    if edges.len() == 0 {
        g
    } else {
        let last = edges[edges.len() - 1];
        with_edge(with_edges(g, edges.drop_last()), last.0, last.1)
    }
}

/// The nodes two hops away from `v`: reached through some neighbor of `v`, and
/// neither `v` itself nor a neighbor of `v`.
pub open spec fn second_hop(g: Seq<Seq<usize>>, v: usize) -> Set<usize> {
    Set::new(
        |w: usize|
            {
                &&& w != v
                &&& w < g.len()
                &&& !g[v as int].contains(w)
                &&& exists|u: usize| #[trigger] has_edge(g, v, u) && has_edge(g, u, w)
            },
    )
}

/// `w` needs no further look: it is no node, or `v`, or a neighbor of `v`, or already counted.
spec fn covered(g: Seq<Seq<usize>>, v: usize, counted: Set<usize>, w: usize) -> bool {
    w < g.len() ==> w == v || g[v as int].contains(w) || counted.contains(w)
}

/// Whether `x` occurs in `row`.
fn row_contains(row: &Vec<usize>, x: usize) -> (found: bool)
    ensures
        found == row@.contains(x),
{
    let mut i: usize = 0;
    while i < row.len()
        invariant
            i <= row.len(),
            forall|j: int| 0 <= j < i ==> row@[j] != x,
        decreases row.len() - i,
    {
        if row[i] == x {
            return true;
        }
        i += 1;
    }
    false
}

/// An undirected, unweighted graph over the nodes `0..n`, held as one neighbor
/// sequence per node.
pub struct MyGraph {
    pub adjacency_list: Vec<Vec<usize>>,
}

impl MyGraph {
    /// The graph as a sequence of neighbor sequences, indexed by node.
    pub open spec fn view(&self) -> Seq<Seq<usize>> {
        rows_view(self.adjacency_list@)
    }

    /// The invariant that `new` establishes and `add_edge` preserves.
    pub open spec fn wf(&self) -> bool {
        well_formed(self@)
    }

    /// Creates a new empty graph.
    pub fn new() -> (g: MyGraph)
        ensures
            g@ == Seq::<Seq<usize>>::empty(),
            g.wf(),
    {
        MyGraph { adjacency_list: Vec::new() }
    }

    /// Builds the graph that holds the given edges, inserted first to last.
    pub fn from_edges(edges: &[(usize, usize)]) -> (g: MyGraph)
        requires
            forall|i: int|
                0 <= i < edges@.len() ==> (#[trigger] edges@[i]).0 < usize::MAX && edges@[i].1
                    < usize::MAX,
        ensures
            g@ == with_edges(Seq::empty(), edges@),
            g.wf(),
    {
        let mut g = MyGraph::new();
        let mut i: usize = 0;
        while i < edges.len()
            invariant
                i <= edges.len(),
                forall|i: int|
                    0 <= i < edges@.len() ==> (#[trigger] edges@[i]).0 < usize::MAX && edges@[i].1
                        < usize::MAX,
                g@ == with_edges(Seq::empty(), edges@.take(i as int)),
                g.wf(),
            decreases edges.len() - i,
        {
            let (src, dest) = edges[i];
            assert(edges@.take(i + 1).drop_last() =~= edges@.take(i as int));
            g.add_edge(src, dest);
            i += 1;
        }
        assert(edges@.take(i as int) =~= edges@);
        g
    }

    /// Lists `to` under `from`, unless it is already there.
    fn add_arc(&mut self, from: usize, to: usize)
        requires
            from < old(self)@.len(),
        ensures
            final(self)@ == with_arc(old(self)@, from, to),
    {
        if !row_contains(&self.adjacency_list[from], to) {
            self.adjacency_list[from].push(to);
            assert(self@ =~= with_arc(old(self)@, from, to));
        }
    }

    /// Adds an undirected edge, growing the node set to hold both endpoints.
    pub fn add_edge(&mut self, src: usize, dest: usize)
        requires
            src < usize::MAX,
            dest < usize::MAX,
        ensures
            final(self)@ == with_edge(old(self)@, src, dest),
            has_edge(final(self)@, src, dest),
            has_edge(final(self)@, dest, src),
            forall|x: usize, y: usize|
                has_edge(old(self)@, x, y) ==> has_edge(final(self)@, x, y),
            old(self).wf() ==> final(self).wf(),
    {
        let needed: usize = if src >= dest { src + 1 } else { dest + 1 };
        let ghost before = self@;
        while self.adjacency_list.len() < needed
            invariant
                self@ == grown(before, self@.len() as int),
                before.len() <= self@.len(),
                self@.len() <= needed || self@.len() == before.len(),
            decreases needed - self.adjacency_list.len(),
        {
            let ghost prev = self@;
            self.adjacency_list.push(Vec::new());
            assert(self@ =~= prev.push(Seq::<usize>::empty()));
            assert(self@ =~= grown(before, self@.len() as int));
        }
        assert(self@ =~= grown(before, needed as int));
        self.add_arc(src, dest);
        self.add_arc(dest, src);
        proof {
            lemma_with_edge_joins(old(self)@, src, dest);
            if old(self).wf() {
                lemma_with_edge_well_formed(old(self)@, src, dest);
            }
        }
    }

    /// The length of the neighbor sequence of `node`; 0 where `node` is no node of the graph.
    pub fn degree(&self, node: usize) -> (d: usize)
        ensures
            d == if node < self@.len() {
                self@[node as int].len()
            } else {
                0
            },
    {
        if node < self.adjacency_list.len() {
            self.adjacency_list[node].len()
        } else {
            0
        }
    }

    /// The neighbor sequence of `node`, in insertion order; empty where `node` is no
    /// node of the graph.
    pub fn neighbors(&self, node: usize) -> (row: &[usize])
        ensures
            row@ == if node < self@.len() {
                self@[node as int]
            } else {
                Seq::<usize>::empty()
            },
    {
        if node < self.adjacency_list.len() {
            self.adjacency_list[node].as_slice()
        } else {
            &[]
        }
    }

    /// Calculates the degree of each node in the graph.
    pub fn degree_of_node(&self) -> (degrees: Vec<usize>)
        ensures
            degrees.len() == self@.len(),
            forall|v: int| 0 <= v < self@.len() ==> degrees[v] == self@[v].len(),
    {
        let mut degrees: Vec<usize> = Vec::new();
        let mut vertex: usize = 0;
        while vertex < self.adjacency_list.len()
            invariant
                vertex <= self.adjacency_list.len(),
                degrees.len() == vertex,
                forall|v: int| 0 <= v < vertex ==> degrees[v] == self@[v].len(),
            decreases self.adjacency_list.len() - vertex,
        {
            degrees.push(self.adjacency_list[vertex].len());
            vertex += 1;
        }
        degrees
    }

    /// Counts the nodes two hops away from `vertex`, each once.
    fn second_hop_count(&self, vertex: usize) -> (count: usize)
        requires
            vertex < self@.len(),
        ensures
            second_hop(self@, vertex).finite(),
            count == second_hop(self@, vertex).len(),
    {
        let ghost g = self@;
        let n = self.adjacency_list.len();
        let neighbors = &self.adjacency_list[vertex];
        let mut visited: Vec<bool> = Vec::new();
        while visited.len() < n
            invariant
                visited.len() <= n,
                forall|w: int| 0 <= w < visited.len() ==> !visited[w],
            decreases n - visited.len(),
        {
            visited.push(false);
        }
        visited[vertex] = true;
        let mut count: usize = 0;
        let ghost mut counted: Set<usize> = Set::empty();
        let mut i: usize = 0;
        while i < neighbors.len()
            invariant
                g == self@,
                n == g.len(),
                vertex < n,
                neighbors@ == g[vertex as int],
                i <= neighbors.len(),
                visited.len() == n,
                forall|w: usize|
                    w < n ==> (#[trigger] visited[w as int] <==> w == vertex || counted.contains(w)
                        || neighbors@.take(i as int).contains(w)),
                counted.finite(),
                count == counted.len(),
                forall|w: usize| counted.contains(w) ==> second_hop(g, vertex).contains(w),
                forall|a: int, b: int|
                    0 <= a < i && neighbors@[a] < n && 0 <= b < g[neighbors@[a] as int].len()
                        ==> covered(g, vertex, counted, #[trigger] g[neighbors@[a] as int][b]),
            decreases neighbors.len() - i,
        {
            let neighbor = neighbors[i];
            proof {
                assert(neighbors@.take(i + 1) =~= neighbors@.take(i as int).push(neighbor));
                assert forall|w: usize|
                    neighbors@.take(i + 1).contains(w) == (neighbors@.take(i as int).contains(w)
                        || w == neighbor) by {
                    lemma_push_contains(neighbors@.take(i as int), neighbor, w);
                }
            }
            if neighbor < n {
                visited[neighbor] = true;
                let row = &self.adjacency_list[neighbor];
                let mut j: usize = 0;
                while j < row.len()
                    invariant
                        g == self@,
                        n == g.len(),
                        vertex < n,
                        neighbors@ == g[vertex as int],
                        i < neighbors.len(),
                        neighbor == neighbors@[i as int],
                        neighbor < n,
                        row@ == g[neighbor as int],
                        j <= row.len(),
                        visited.len() == n,
                        forall|w: usize|
                            w < n ==> (#[trigger] visited[w as int] <==> w == vertex
                                || counted.contains(w) || neighbors@.take(i + 1).contains(w)),
                        counted.finite(),
                        count == counted.len(),
                        forall|w: usize| counted.contains(w) ==> second_hop(g, vertex).contains(w),
                        forall|a: int, b: int|
                            0 <= a < i && neighbors@[a] < n && 0 <= b < g[neighbors@[a] as int].len()
                                ==> covered(
                                g,
                                vertex,
                                counted,
                                #[trigger] g[neighbors@[a] as int][b],
                            ),
                        forall|b: int|
                            0 <= b < j ==> covered(
                                g,
                                vertex,
                                counted,
                                #[trigger] g[neighbor as int][b],
                            ),
                    decreases row.len() - j,
                {
                    let second_hop_neighbor = row[j];
                    if second_hop_neighbor < n && !visited[second_hop_neighbor] && !row_contains(
                        neighbors,
                        second_hop_neighbor,
                    ) {
                        proof {
                            assert(has_edge(g, vertex, neighbor) && has_edge(
                                g,
                                neighbor,
                                second_hop_neighbor,
                            ));
                            assert(second_hop(g, vertex).contains(second_hop_neighbor));
                            lemma_bounded_set_len(counted.insert(second_hop_neighbor), n as nat);
                            counted = counted.insert(second_hop_neighbor);
                        }
                        count += 1;
                        visited[second_hop_neighbor] = true;
                    }
                    j += 1;
                }
            }
            i += 1;
        }
        proof {
            assert(neighbors@.take(i as int) =~= neighbors@);
            assert forall|w: usize| second_hop(g, vertex).contains(w) implies counted.contains(
                w,
            ) by {
                let u = choose|u: usize| #[trigger] has_edge(g, vertex, u) && has_edge(g, u, w);
                let a = choose|a: int| 0 <= a < neighbors@.len() && neighbors@[a] == u;
                let b = choose|b: int| 0 <= b < g[u as int].len() && g[u as int][b] == w;
                assert(covered(g, vertex, counted, g[neighbors@[a] as int][b]));
            }
            assert(counted =~= second_hop(g, vertex));
        }
        count
    }

    /// Calculates the number of neighbors at a distance of 2 for each vertex.
    pub fn neighbors_at_distance_2(&self) -> (counts: Vec<usize>)
        ensures
            counts.len() == self@.len(),
            forall|v: usize| v < self@.len() ==> #[trigger] second_hop(self@, v).finite(),
            forall|v: usize|
                v < self@.len() ==> #[trigger] counts[v as int] == second_hop(self@, v).len(),
    {
        let mut counts: Vec<usize> = Vec::new();
        let mut vertex: usize = 0;
        while vertex < self.adjacency_list.len()
            invariant
                vertex <= self.adjacency_list.len(),
                counts.len() == vertex,
                forall|v: usize| v < vertex ==> #[trigger] second_hop(self@, v).finite(),
                forall|v: usize|
                    v < vertex ==> #[trigger] counts[v as int] == second_hop(self@, v).len(),
            decreases self.adjacency_list.len() - vertex,
        {
            let count = self.second_hop_count(vertex);
            counts.push(count);
            vertex += 1;
        }
        counts
    }
}

/// A set of numbers below `n` is finite and has at most `n` elements.
proof fn lemma_bounded_set_len(s: Set<usize>, n: nat)
    requires
        forall|x: usize| s.contains(x) ==> x < n,
    ensures
        s.finite(),
        s.len() <= n,
    decreases n,
{
    if n == 0 {
        assert(s =~= Set::empty());
    } else if n - 1 > usize::MAX {
        lemma_bounded_set_len(s, (n - 1) as nat);
    } else {
        let top = (n - 1) as usize;
        let rest = s.remove(top);
        lemma_bounded_set_len(rest, (n - 1) as nat);
        if s.contains(top) {
            assert(s =~= rest.insert(top));
        } else {
            assert(s =~= rest);
        }
    }
}

/// Appending an element lists it, and keeps what was listed before.
proof fn lemma_push_contains(s: Seq<usize>, x: usize, y: usize)
    ensures
        s.push(x).contains(y) == (s.contains(y) || x == y),
{
    if s.contains(y) {
        let i = choose|i: int| 0 <= i < s.len() && s[i] == y;
        assert(s.push(x)[i] == y);
    }
    if x == y {
        assert(s.push(x)[s.len() as int] == y);
    }
}

/// Growing a graph adds isolated nodes and nothing else.
proof fn lemma_grown(g: Seq<Seq<usize>>, n: int)
    ensures
        grown(g, n).len() == if n <= g.len() { g.len() as int } else { n },
        forall|u: int| 0 <= u < g.len() ==> #[trigger] grown(g, n)[u] == g[u],
        forall|u: int| g.len() <= u < n ==> #[trigger] grown(g, n)[u] == Seq::<usize>::empty(),
{
}

/// Listing `v` under `u` adds the arc from `u` to `v` and nothing else.
proof fn lemma_with_arc(g: Seq<Seq<usize>>, u: usize, v: usize)
    requires
        u < g.len(),
        v < g.len(),
    ensures
        with_arc(g, u, v).len() == g.len(),
        forall|x: usize, y: usize|
            #[trigger] has_edge(with_arc(g, u, v), x, y) == (has_edge(g, x, y) || (x == u && y
                == v)),
        closed(g) ==> closed(with_arc(g, u, v)),
        simple(g) ==> simple(with_arc(g, u, v)),
{
    let h = with_arc(g, u, v);
    assert forall|x: usize, y: usize|
        has_edge(h, x, y) == (has_edge(g, x, y) || (x == u && y == v)) by {
        if x < g.len() && y < g.len() {
            if x == u && !g[u as int].contains(v) {
                lemma_push_contains(g[u as int], v, y);
            }
        }
    }
    if closed(g) {
        assert forall|x: int, i: int|
            0 <= x < h.len() && 0 <= i < h[x].len() implies #[trigger] h[x][i] < h.len() by {
            if x == u && i == g[u as int].len() {
            } else {
                assert(h[x][i] == g[x][i]);
            }
        }
    }
    if simple(g) {
        assert forall|x: int| 0 <= x < h.len() implies (#[trigger] h[x]).no_duplicates() by {
            assert(g[x].no_duplicates());
        }
    }
}

/// After an edge insertion each endpoint lists the other, and every earlier edge is still there.
pub proof fn lemma_with_edge_joins(g: Seq<Seq<usize>>, a: usize, b: usize)
    ensures
        has_edge(with_edge(g, a, b), a, b),
        has_edge(with_edge(g, a, b), b, a),
        forall|x: usize, y: usize| has_edge(g, x, y) ==> has_edge(with_edge(g, a, b), x, y),
        with_edge(g, a, b).len() >= g.len(),
        with_edge(g, a, b).len() > a,
        with_edge(g, a, b).len() > b,
{
    let n: int = if a >= b { a + 1 } else { b + 1 };
    let g0 = grown(g, n);
    let g1 = with_arc(g0, a, b);
    lemma_grown(g, n);
    lemma_with_arc(g0, a, b);
    lemma_with_arc(g1, b, a);
    let g2 = with_arc(g1, b, a);
    assert(has_edge(g1, a, b));
    assert(has_edge(g2, a, b));
    assert(has_edge(g2, b, a));
    assert forall|x: usize, y: usize| has_edge(g, x, y) implies has_edge(g2, x, y) by {
        assert(has_edge(g0, x, y));
        assert(has_edge(g1, x, y));
    }
}

/// Once a list of edges has been inserted, each of them joins its endpoints in both
/// directions, and the graph is well formed if it was before.
pub proof fn lemma_with_edges_joins(g: Seq<Seq<usize>>, edges: Seq<(usize, usize)>, i: int)
    requires
        0 <= i < edges.len(),
    ensures
        has_edge(with_edges(g, edges), edges[i].0, edges[i].1),
        has_edge(with_edges(g, edges), edges[i].1, edges[i].0),
        well_formed(g) ==> well_formed(with_edges(g, edges)),
    decreases edges.len(),
{
    let last = edges[edges.len() - 1];
    let before = with_edges(g, edges.drop_last());
    lemma_with_edge_joins(before, last.0, last.1);
    if i < edges.len() - 1 {
        lemma_with_edges_joins(g, edges.drop_last(), i);
    } else if edges.len() > 1 {
        lemma_with_edges_joins(g, edges.drop_last(), 0);
    }
    if well_formed(g) {
        lemma_with_edge_well_formed(before, last.0, last.1);
    }
}

/// Inserting an edge that is already there changes nothing, whichever endpoint is named first.
pub proof fn lemma_with_edge_idempotent(g: Seq<Seq<usize>>, a: usize, b: usize)
    ensures
        with_edge(with_edge(g, a, b), a, b) == with_edge(g, a, b),
        with_edge(with_edge(g, a, b), b, a) == with_edge(g, a, b),
{
    lemma_with_edge_joins(g, a, b);
}

/// A node two hops away from `v` is neither `v` nor a neighbor of `v`, and some
/// neighbor of `v` leads to it.
pub proof fn lemma_second_hop_excludes(g: Seq<Seq<usize>>, v: usize, w: usize)
    requires
        v < g.len(),
        second_hop(g, v).contains(w),
    ensures
        w != v,
        !has_edge(g, v, w),
        exists|u: usize| #[trigger] has_edge(g, v, u) && has_edge(g, u, w),
{
}

/// The arcs of a graph after an edge insertion: the old ones and the new edge in both directions.
pub proof fn lemma_with_edge(g: Seq<Seq<usize>>, a: usize, b: usize)
    requires
        closed(g),
    ensures
        with_edge(g, a, b).len() == if a < g.len() && b < g.len() {
            g.len() as int
        } else if a >= b {
            a + 1
        } else {
            b + 1
        },
        forall|x: usize, y: usize|
            #[trigger] has_edge(with_edge(g, a, b), x, y) == (has_edge(g, x, y) || (x == a && y == b)
                || (x == b && y == a)),
        closed(with_edge(g, a, b)),
        simple(g) ==> simple(with_edge(g, a, b)),
{
    let n: int = if a >= b { a + 1 } else { b + 1 };
    let g0 = grown(g, n);
    let g1 = with_arc(g0, a, b);
    lemma_grown(g, n);
    assert forall|x: usize, y: usize| has_edge(g0, x, y) == has_edge(g, x, y) by {
        if has_edge(g0, x, y) {
            assert(x < g.len());
            let i = choose|i: int| 0 <= i < g[x as int].len() && g[x as int][i] == y;
            assert(g[x as int][i] < g.len());
        }
    }
    assert(closed(g0)) by {
        assert forall|x: int, i: int|
            0 <= x < g0.len() && 0 <= i < g0[x].len() implies #[trigger] g0[x][i] < g0.len() by {
            assert(g0[x][i] == g[x][i]);
        }
    }
    if simple(g) {
        assert forall|x: int| 0 <= x < g0.len() implies (#[trigger] g0[x]).no_duplicates() by {
            if x < g.len() {
                assert(g[x].no_duplicates());
            }
        }
    }
    lemma_with_arc(g0, a, b);
    lemma_with_arc(g1, b, a);
}

/// Inserting an edge into a well-formed graph leaves it well formed.
pub proof fn lemma_with_edge_well_formed(g: Seq<Seq<usize>>, a: usize, b: usize)
    requires
        well_formed(g),
    ensures
        well_formed(with_edge(g, a, b)),
{
    lemma_with_edge(g, a, b);
    let h = with_edge(g, a, b);
    assert forall|x: usize, y: usize| has_edge(h, x, y) implies has_edge(h, y, x) by {
        if has_edge(g, x, y) {
            assert(has_edge(g, y, x));
        }
    }
}

} // verus!
