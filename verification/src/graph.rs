//! Directed graphs on the vertices `0..n`, and what the algorithms ask of them.

use vstd::prelude::*;

pub mod connectivity;

verus! {

/// A vertex identifier.
pub type Node = u32;

/// What the algorithms need from a directed graph: its number of vertices
/// and, for each vertex, the list of its out-neighbours.
pub trait AdjacencyList {
    /// The representation is consistent.
    spec fn wf(&self) -> bool;

    /// The number of vertices; the vertices are `0..order()`.
    spec fn order(&self) -> nat;

    /// Whether the graph has the edge from `u` to `v`.
    spec fn has_edge(&self, u: int, v: int) -> bool;

    /// The number of vertices.
    fn len(&self) -> (r: usize)
        requires
            self.wf(),
        ensures
            r == self.order(),
    ;

    /// The number of vertices, as a vertex identifier.
    fn number_of_nodes(&self) -> (r: Node)
        requires
            self.wf(),
        ensures
            r == self.order(),
    ;

    /// The out-neighbours of `u`.
    fn out_neighbors(&self, u: Node) -> (r: Vec<Node>)
        requires
            self.wf(),
            u < self.order(),
        ensures
            forall|k: int| 0 <= k < r@.len() ==> #[trigger] r@[k] < self.order(),
            forall|w: int|
                0 <= w < self.order() ==> (#[trigger] self.has_edge(u as int, w) <==> r@.contains(
                    w as Node,
                )),
    ;
}

/// `rank` numbers the vertices so that every edge between two vertices that
/// are not in `removed` leads to a smaller number.
pub open spec fn is_numbering<G: AdjacencyList>(
    g: &G,
    removed: Set<int>,
    rank: spec_fn(int) -> nat,
) -> bool {
    forall|u: int, w: int|
        0 <= u < g.order() && 0 <= w < g.order() && #[trigger] g.has_edge(u, w) && !removed.contains(
            u,
        ) && !removed.contains(w) ==> rank(u) > rank(w)
}

/// The graph has no cycle once the vertices in `removed` are taken out: what
/// is left can be numbered so that every edge leads downwards.
pub open spec fn acyclic_without<G: AdjacencyList>(g: &G, removed: Set<int>) -> bool {
    exists|rank: spec_fn(int) -> nat| is_numbering(g, removed, rank)
}

/// `walk` follows edges of the graph and avoids the vertices in `removed`.
pub open spec fn is_walk<G: AdjacencyList>(g: &G, removed: Set<int>, walk: Seq<int>) -> bool {
    &&& walk.len() >= 1
    &&& forall|i: int|
        0 <= i < walk.len() ==> 0 <= #[trigger] walk[i] < g.order() && !removed.contains(walk[i])
    &&& forall|i: int| 0 <= i < walk.len() - 1 ==> g.has_edge(#[trigger] walk[i], walk[i + 1])
}

/// Along a walk of at least one edge the numbering falls.
pub proof fn lemma_walk_descends<G: AdjacencyList>(
    g: &G,
    removed: Set<int>,
    rank: spec_fn(int) -> nat,
    walk: Seq<int>,
)
    requires
        is_numbering(g, removed, rank),
        is_walk(g, removed, walk),
        walk.len() >= 2,
    ensures
        rank(walk[0]) > rank(walk[walk.len() - 1]),
    decreases walk.len(),
{
    let last = walk.len() - 1;
    assert(g.has_edge(walk[last - 1], walk[last - 1 + 1]));
    if walk.len() > 2 {
        let shorter = walk.take(last);
        assert forall|i: int| 0 <= i < shorter.len() - 1 implies g.has_edge(
            #[trigger] shorter[i],
            shorter[i + 1],
        ) by {
            assert(g.has_edge(walk[i], walk[i + 1]));
        }
        lemma_walk_descends(g, removed, rank, shorter);
    }
}

/// A graph that is acyclic without `removed` has no closed walk that avoids
/// `removed`: no walk of at least one edge ends where it began.
pub proof fn lemma_no_closed_walk<G: AdjacencyList>(g: &G, removed: Set<int>, walk: Seq<int>)
    requires
        acyclic_without(g, removed),
        is_walk(g, removed, walk),
        walk.len() >= 2,
    ensures
        walk[0] != walk[walk.len() - 1],
{
    let rank = choose|rank: spec_fn(int) -> nat| is_numbering(g, removed, rank);
    lemma_walk_descends(g, removed, rank, walk);
}

/// There is a walk from `a` to `b`, possibly of no edge at all.
pub open spec fn reaches<G: AdjacencyList>(g: &G, a: int, b: int) -> bool {
    exists|walk: Seq<int>|
        #[trigger] is_walk(g, Set::<int>::empty(), walk) && walk[0] == a && walk[walk.len() - 1] == b
}

/// Every vertex reaches itself.
pub proof fn lemma_reach_self<G: AdjacencyList>(g: &G, a: int)
    requires
        0 <= a < g.order(),
    ensures
        reaches(g, a, a),
{
    let walk = seq![a];
    assert(is_walk(g, Set::<int>::empty(), walk) && walk[0] == a && walk[walk.len() - 1] == a);
}

/// An edge is a walk.
pub proof fn lemma_reach_edge<G: AdjacencyList>(g: &G, a: int, b: int)
    requires
        0 <= a < g.order(),
        0 <= b < g.order(),
        g.has_edge(a, b),
    ensures
        reaches(g, a, b),
{
    let walk = seq![a, b];
    assert(is_walk(g, Set::<int>::empty(), walk) && walk[0] == a && walk[walk.len() - 1] == b);
}

/// Walks can be joined.
pub proof fn lemma_reach_trans<G: AdjacencyList>(g: &G, a: int, b: int, c: int)
    requires
        reaches(g, a, b),
        reaches(g, b, c),
    ensures
        reaches(g, a, c),
{
    let first = choose|walk: Seq<int>|
        #[trigger] is_walk(g, Set::<int>::empty(), walk) && walk[0] == a && walk[walk.len() - 1] == b;
    let second = choose|walk: Seq<int>|
        #[trigger] is_walk(g, Set::<int>::empty(), walk) && walk[0] == b && walk[walk.len() - 1] == c;
    let walk = first + second.drop_first();
    assert forall|i: int| 0 <= i < walk.len() - 1 implies g.has_edge(#[trigger] walk[i], walk[i + 1]) by {
        if i < first.len() - 1 {
            assert(g.has_edge(first[i], first[i + 1]));
        } else {
            let j = i - first.len() + 1;
            assert(g.has_edge(second[j], second[j + 1]));
            if i == first.len() - 1 {
                assert(walk[i] == second[0]);
            } else {
                assert(walk[i] == second[j]);
            }
            assert(walk[i + 1] == second[j + 1]);
        }
    }
    assert forall|i: int| 0 <= i < walk.len() implies 0 <= #[trigger] walk[i] < g.order()
        && !Set::<int>::empty().contains(walk[i]) by {
        if i < first.len() {
            assert(walk[i] == first[i]);
        } else {
            assert(walk[i] == second[i - first.len() + 1]);
        }
    }
    assert(is_walk(g, Set::<int>::empty(), walk) && walk[0] == a && walk[walk.len() - 1] == c);
}

/// The number of vertices that a list of edges spans: one more than the
/// largest endpoint among its first `k` edges, or zero without edges.
pub open spec fn span_of(edges: Seq<(Node, Node)>, k: nat) -> nat
    decreases k,
{
    if k == 0 {
        0
    } else {
        let rest = span_of(edges, (k - 1) as nat);
        let (u, v) = edges[k - 1];
        let m = if u > v { u } else { v };
        if rest > m { rest } else { (m + 1) as nat }
    }
}

/// Every endpoint of the first `k` edges lies below their span.
pub proof fn lemma_span_bounds(edges: Seq<(Node, Node)>, k: nat)
    requires
        k <= edges.len(),
    ensures
        forall|i: int| 0 <= i < k ==> (#[trigger] edges[i]).0 < span_of(edges, k) && edges[i].1 < span_of(edges, k),
        span_of(edges, k) <= u32::MAX + 1,
    decreases k,
{
    if k > 0 {
        lemma_span_bounds(edges, (k - 1) as nat);
    }
}

/// A graph that keeps, for every vertex, the list of its out-neighbours.
pub struct AdjListMatrix {
    out: Vec<Vec<Node>>,
}

impl AdjListMatrix {
    /// The graph with `n` vertices and no edges.
    pub fn new(n: usize) -> (r: Self)
        requires
            n <= u32::MAX,
        ensures
            r.wf(),
            r.order() == n,
            forall|u: int, v: int| !r.has_edge(u, v),
    {
        let mut out: Vec<Vec<Node>> = Vec::new();
        while out.len() < n
            invariant
                out@.len() <= n,
                forall|i: int| 0 <= i < out@.len() ==> (#[trigger] out@[i])@.len() == 0,
            decreases n - out@.len(),
        {
            out.push(Vec::new());
        }
        AdjListMatrix { out }
    }

    /// Adds the edge from `u` to `v`.
    pub fn add_edge(&mut self, u: Node, v: Node)
        requires
            old(self).wf(),
            u < old(self).order(),
            v < old(self).order(),
        ensures
            final(self).wf(),
            final(self).order() == old(self).order(),
            forall|a: int, b: int|
                final(self).has_edge(a, b) <==> (old(self).has_edge(a, b) || (a == u && b == v)),
    {
        let mut row: Vec<Node> = Vec::new();
        let ghost before = self.out@;
        let ghost old_row = self.out@[u as int]@;
        let n = self.out[u as usize].len();
        let mut k: usize = 0;
        while k < n
            invariant
                self.out@ == before,
                u < before.len(),
                n == before[u as int]@.len(),
                k <= n,
                row@ == before[u as int]@.take(k as int),
            decreases n - k,
        {
            row.push(self.out[u as usize][k]);
            assert(before[u as int]@.take(k + 1) == before[u as int]@.take(k as int).push(
                before[u as int]@[k as int],
            ));
            k += 1;
        }
        assert(row@ == old_row) by {
            assert(old_row.take(n as int) == old_row);
        }
        row.push(v);
        self.out.set(u as usize, row);
        proof {
            assert forall|a: int, k: int|
                0 <= a < self.rows().len() && 0 <= k < self.rows()[a].len() implies #[trigger] self.rows()[a][k]
                < self.rows().len() by {
                if a == u {
                    if k < old_row.len() {
                        assert(self.rows()[a][k] == old(self).rows()[a][k]);
                    }
                } else {
                    assert(self.rows()[a][k] == old(self).rows()[a][k]);
                }
            }
            assert forall|a: int, b: int|
                self.has_edge(a, b) <==> (old(self).has_edge(a, b) || (a == u && b == v)) by {
                if 0 <= a < before.len() && 0 <= b < before.len() {
                    if a == u {
                        let new_row = old_row.push(v);
                        assert(self.out@[a]@ == new_row);
                        if old_row.contains(b as Node) {
                            let i = choose|i: int| 0 <= i < old_row.len() && old_row[i] == b as Node;
                            assert(new_row[i] == b as Node);
                        }
                        if b == v {
                            assert(new_row[old_row.len() as int] == v);
                        }
                    } else {
                        assert(self.out@[a] == before[a]);
                    }
                }
            }
        }
    }

    /// The graph spanned by a list of edges: its vertices run up to the
    /// largest endpoint that occurs, and its edges are those listed.
    pub fn from(edges: &[(Node, Node)]) -> (r: Self)
        requires
            forall|i: int| 0 <= i < edges@.len() ==> (#[trigger] edges@[i]).0 < u32::MAX && edges@[i].1 < u32::MAX,
        ensures
            r.wf(),
            r.order() == span_of(edges@, edges@.len()),
            forall|u: int, v: int|
                r.has_edge(u, v) <==> (0 <= u <= u32::MAX && 0 <= v <= u32::MAX && edges@.contains(
                    (u as Node, v as Node),
                )),
    {
        let mut n: usize = 0;
        let mut k: usize = 0;
        while k < edges.len()
            invariant
                k <= edges@.len(),
                n == span_of(edges@, k as nat),
                n <= u32::MAX,
                forall|i: int| 0 <= i < edges@.len() ==> (#[trigger] edges@[i]).0 < u32::MAX && edges@[i].1 < u32::MAX,
            decreases edges@.len() - k,
        {
            let (u, v) = edges[k];
            let m = if u > v { u } else { v };
            if n <= m as usize {
                n = m as usize + 1;
            }
            k += 1;
        }
        let mut g = AdjListMatrix::new(n);
        proof {
            lemma_span_bounds(edges@, edges@.len());
        }
        let mut k: usize = 0;
        while k < edges.len()
            invariant
                k <= edges@.len(),
                g.wf(),
                g.order() == n,
                n == span_of(edges@, edges@.len()),
                forall|i: int| 0 <= i < edges@.len() ==> (#[trigger] edges@[i]).0 < n && edges@[i].1 < n,
                forall|u: int, v: int|
                    g.has_edge(u, v) <==> (0 <= u <= u32::MAX && 0 <= v <= u32::MAX && edges@.take(
                        k as int,
                    ).contains((u as Node, v as Node))),
            decreases edges@.len() - k,
        {
            let (a, b) = edges[k];
            let ghost before = g;
            g.add_edge(a, b);
            proof {
                let done = edges@.take(k as int);
                let next = edges@.take(k + 1);
                assert(next == done.push(edges@[k as int]));
                assert forall|u: int, v: int|
                    g.has_edge(u, v) <==> (0 <= u <= u32::MAX && 0 <= v <= u32::MAX && next.contains(
                        (u as Node, v as Node),
                    )) by {
                    if 0 <= u <= u32::MAX && 0 <= v <= u32::MAX {
                        let e = (u as Node, v as Node);
                        if done.contains(e) {
                            let i = choose|i: int| 0 <= i < done.len() && done[i] == e;
                            assert(next[i] == e);
                        }
                        if u == a && v == b {
                            assert(next[k as int] == e);
                        }
                        if next.contains(e) {
                            let i = choose|i: int| 0 <= i < next.len() && next[i] == e;
                            if i < k {
                                assert(done[i] == e);
                            }
                        }
                    }
                }
            }
            k += 1;
        }
        assert(edges@.take(k as int) == edges@);
        g
    }
}

impl AdjacencyList for AdjListMatrix {
    open spec fn wf(&self) -> bool {
        &&& self.rows().len() <= u32::MAX
        &&& forall|u: int, k: int|
            0 <= u < self.rows().len() && 0 <= k < self.rows()[u].len() ==> #[trigger] self.rows()[u][k]
                < self.rows().len()
    }

    open spec fn order(&self) -> nat {
        self.rows().len()
    }

    open spec fn has_edge(&self, u: int, v: int) -> bool {
        0 <= u < self.rows().len() && 0 <= v < self.rows().len() && self.rows()[u].contains(v as Node)
    }

    fn len(&self) -> (r: usize) {
        self.out.len()
    }

    fn number_of_nodes(&self) -> (r: Node) {
        self.out.len() as Node
    }

    fn out_neighbors(&self, u: Node) -> (r: Vec<Node>) {
        let mut row: Vec<Node> = Vec::new();
        let n = self.out[u as usize].len();
        let mut k: usize = 0;
        while k < n
            invariant
                u < self.out@.len(),
                n == self.out@[u as int]@.len(),
                k <= n,
                row@ == self.out@[u as int]@.take(k as int),
            decreases n - k,
        {
            row.push(self.out[u as usize][k]);
            assert(self.out@[u as int]@.take(k + 1) == self.out@[u as int]@.take(k as int).push(
                self.out@[u as int]@[k as int],
            ));
            k += 1;
        }
        assert(self.out@[u as int]@.take(n as int) == self.out@[u as int]@);
        assert(row@ == self.rows()[u as int]);
        row
    }
}

impl AdjListMatrix {
    /// The out-neighbour lists, one per vertex.
    pub closed spec fn rows(&self) -> Seq<Seq<Node>> {
        Seq::new(self.out@.len(), |u: int| self.out@[u]@)
    }
}

} // verus!
