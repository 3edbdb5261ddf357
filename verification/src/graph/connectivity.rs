//! Strongly connected components by a depth-first search that keeps, for
//! every vertex, its discovery index and the lowest index it can reach.
//!
//! Proved here: the components are non-empty, list vertices of the graph
//! only, list none twice and miss none; the vertices of each reach each
//! other; and every edge leads from its component into the same or an
//! earlier one, so that vertices which reach each other share a component.

use crate::bitset::{max_len, BitSet};
use crate::graph::{
    acyclic_without, is_numbering, is_walk, lemma_reach_edge, lemma_reach_self, lemma_reach_trans,
    lemma_walk_descends, reaches, AdjacencyList, Node,
};
use vstd::prelude::*;
use vstd::set_lib::*;

verus! {

/// The first sequence is an initial stretch of the second.
pub open spec fn is_prefix<A>(a: Seq<A>, b: Seq<A>) -> bool {
    a.len() <= b.len() && forall|k: int| 0 <= k < a.len() ==> a[k] == b[k]
}

/// Every component is non-empty and holds vertices below `n` only.
pub open spec fn components_within(comps: Seq<Vec<Node>>, n: nat) -> bool {
    forall|i: int|
        0 <= i < comps.len() ==> (#[trigger] comps[i])@.len() > 0 && forall|k: int|
            0 <= k < comps[i]@.len() ==> comps[i]@[k] < n
}

/// The vertex `u` is listed in one of the components.
pub open spec fn occurs(comps: Seq<Vec<Node>>, u: Node) -> bool {
    exists|i: int, k: int|
        0 <= i < comps.len() && 0 <= k < comps[i]@.len() && #[trigger] comps[i]@[k] == u
}

/// No vertex is listed twice, in one component or in two.
pub open spec fn all_distinct(comps: Seq<Vec<Node>>) -> bool {
    forall|i: int, k: int, j: int, l: int|
        0 <= i < comps.len() && 0 <= k < comps[i]@.len() && 0 <= j < comps.len() && 0 <= l
            < comps[j]@.len() && #[trigger] comps[i]@[k] == #[trigger] comps[j]@[l] ==> i == j && k
            == l
}

/// The vertices of `part` are listed once each, are discovered, and are
/// neither on the stack nor in a component.
pub open spec fn apart(
    part: Seq<Node>,
    stack: Seq<Node>,
    comps: Seq<Vec<Node>>,
    indices: Seq<Option<Node>>,
) -> bool {
    &&& part.no_duplicates()
    &&& forall|x: int|
        0 <= x < part.len() ==> !stack.contains(#[trigger] part[x]) && !occurs(comps, part[x])
            && part[x] < indices.len() && indices[part[x] as int].is_some()
}

/// The discovery index of the vertex at position `k` of the stack.
pub open spec fn index_at(stack: Seq<Node>, indices: Seq<Option<Node>>, k: int) -> int {
    indices[stack[k] as int].unwrap() as int
}

/// The vertex at position `k` of the stack reaches the one at position `l`.
pub open spec fn linked<G: AdjacencyList>(g: &G, stack: Seq<Node>, k: int, l: int) -> bool {
    reaches(g, stack[k] as int, stack[l] as int)
}

/// The vertex at position `p` of the stack reaches one strictly below it.
pub open spec fn settled<G: AdjacencyList>(g: &G, stack: Seq<Node>, p: int) -> bool {
    exists|q: int| 0 <= q < p && #[trigger] linked(g, stack, p, q)
}

/// Each vertex of `comp` reaches each other.
pub open spec fn strongly_connected<G: AdjacencyList>(g: &G, comp: Seq<Node>) -> bool {
    forall|a: int, b: int|
        0 <= a < comp.len() && 0 <= b < comp.len() ==> #[trigger] reaches(
            g,
            comp[a] as int,
            comp[b] as int,
        )
}

/// Every component is strongly connected.
pub open spec fn all_connected<G: AdjacencyList>(g: &G, comps: Seq<Vec<Node>>) -> bool {
    forall|i: int| 0 <= i < comps.len() ==> strongly_connected(g, (#[trigger] comps[i])@)
}

/// The vertex `u` is listed in one of the first `m` components.
pub open spec fn occurs_before(comps: Seq<Vec<Node>>, u: Node, m: int) -> bool {
    exists|i: int, k: int|
        0 <= i < m && i < comps.len() && 0 <= k < comps[i]@.len() && #[trigger] comps[i]@[k] == u
}

/// Every edge that leaves a vertex of a component ends in that component or
/// in an earlier one.
pub open spec fn edges_lead_back<G: AdjacencyList>(g: &G, comps: Seq<Vec<Node>>) -> bool {
    forall|i: int, k: int, y: Node|
        0 <= i < comps.len() && 0 <= k < comps[i]@.len() && y < g.order() && #[trigger] g.has_edge(
            comps[i]@[k] as int,
            y as int,
        ) ==> occurs_before(comps, y, i + 1)
}

/// The vertex `y` is in a component, or on the stack with a discovery index
/// of at least `floor`.
pub open spec fn seen(
    stack: Seq<Node>,
    indices: Seq<Option<Node>>,
    comps: Seq<Vec<Node>>,
    y: Node,
    floor: int,
) -> bool {
    occurs(comps, y) || (stack.contains(y) && y < indices.len() && indices[y as int].is_some()
        && indices[y as int].unwrap() >= floor)
}

/// Every out-neighbour of `x` is in a component, or on the stack with a
/// discovery index of at least `floor`.
pub open spec fn placed<G: AdjacencyList>(
    g: &G,
    stack: Seq<Node>,
    indices: Seq<Option<Node>>,
    comps: Seq<Vec<Node>>,
    x: Node,
    floor: int,
) -> bool {
    forall|y: Node|
        y < g.order() && #[trigger] g.has_edge(x as int, y as int) ==> seen(
            stack,
            indices,
            comps,
            y,
            floor,
        )
}

/// What is seen stays seen while the stack and the components only grow
/// and the floor only falls.
proof fn lemma_seen_stable(
    stack1: Seq<Node>,
    indices1: Seq<Option<Node>>,
    comps1: Seq<Vec<Node>>,
    stack2: Seq<Node>,
    indices2: Seq<Option<Node>>,
    comps2: Seq<Vec<Node>>,
    y: Node,
    floor1: int,
    floor2: int,
)
    requires
        seen(stack1, indices1, comps1, y, floor1),
        floor2 <= floor1,
        is_prefix(stack1, stack2),
        is_prefix(comps1, comps2),
        indices1.len() == indices2.len(),
        forall|u: int| 0 <= u < indices1.len() && indices1[u].is_some() ==> indices2[u] == indices1[u],
    ensures
        seen(stack2, indices2, comps2, y, floor2),
{
    if occurs(comps1, y) {
        let (i, k) = choose|i: int, k: int|
            0 <= i < comps1.len() && 0 <= k < comps1[i]@.len() && #[trigger] comps1[i]@[k] == y;
        assert(comps2[i] == comps1[i]);
        assert(comps2[i]@[k] == y);
    } else {
        let q = stack1.index_of(y);
        assert(stack2[q] == y);
    }
}

/// What holds of the out-neighbours of `x` keeps holding while the stack
/// and the components only grow and the floor only falls.
proof fn lemma_placed_stable<G: AdjacencyList>(
    g: &G,
    stack1: Seq<Node>,
    indices1: Seq<Option<Node>>,
    comps1: Seq<Vec<Node>>,
    stack2: Seq<Node>,
    indices2: Seq<Option<Node>>,
    comps2: Seq<Vec<Node>>,
    x: Node,
    floor1: int,
    floor2: int,
)
    requires
        placed(g, stack1, indices1, comps1, x, floor1),
        floor2 <= floor1,
        is_prefix(stack1, stack2),
        is_prefix(comps1, comps2),
        indices1.len() == indices2.len(),
        forall|u: int| 0 <= u < indices1.len() && indices1[u].is_some() ==> indices2[u] == indices1[u],
    ensures
        placed(g, stack2, indices2, comps2, x, floor2),
{
    assert forall|y: Node| y < g.order() && #[trigger] g.has_edge(x as int, y as int) implies seen(
        stack2,
        indices2,
        comps2,
        y,
        floor2,
    ) by {
        lemma_seen_stable(stack1, indices1, comps1, stack2, indices2, comps2, y, floor1, floor2);
    }
}

/// The low-link of the vertex at position `p` of the stack is the discovery
/// index of a vertex at or below that position, which it reaches.
pub open spec fn points_down<G: AdjacencyList>(
    g: &G,
    stack: Seq<Node>,
    indices: Seq<Option<Node>>,
    low_links: Seq<Node>,
    p: int,
) -> bool {
    exists|q: int|
        0 <= q <= p && low_links[stack[p] as int] == index_at(stack, indices, q) && linked(
            g,
            stack,
            p,
            q,
        )
}

/// Every discovered vertex is on the stack, in a component, or in `part`.
pub open spec fn covered(
    indices: Seq<Option<Node>>,
    stack: Seq<Node>,
    comps: Seq<Vec<Node>>,
    part: Seq<Node>,
) -> bool {
    forall|u: int|
        0 <= u < indices.len() && u <= u32::MAX && (#[trigger] indices[u]).is_some()
            ==> stack.contains(u as Node) || occurs(comps, u as Node) || part.contains(u as Node)
}

/// Every vertex below `n` is listed in a component.
pub open spec fn all_listed(comps: Seq<Vec<Node>>, n: nat) -> bool {
    forall|u: Node| u < n ==> #[trigger] occurs(comps, u)
}

/// The vertices that carry a discovery index.
pub open spec fn discovered(indices: Seq<Option<Node>>) -> Set<int> {
    Set::new(|u: int| 0 <= u < indices.len() && indices[u].is_some())
}

/// The state of one decomposition run.
pub struct StronglyConnected<'a, T: AdjacencyList> {
    graph: &'a T,
    idx: Node,
    stack: Vec<Node>,
    indices: Vec<Option<Node>>,
    low_links: Vec<Node>,
    on_stack: BitSet,
    components: Vec<Vec<Node>>,
}

/// The discovered vertices are finite in number, at most `indices.len()`,
/// and fewer while some vertex is undiscovered.
proof fn lemma_discovered_bounds(indices: Seq<Option<Node>>)
    ensures
        discovered(indices).finite(),
        discovered(indices).len() <= indices.len(),
        forall|v: int|
            0 <= v < indices.len() && indices[v].is_none() ==> discovered(indices).len()
                < indices.len(),
{
    let all = set_int_range(0, indices.len() as int);
    lemma_int_range(0, indices.len() as int);
    assert(discovered(indices).subset_of(all));
    lemma_len_subset(discovered(indices), all);
    assert forall|v: int| 0 <= v < indices.len() && indices[v].is_none() implies discovered(
        indices,
    ).len() < indices.len() by {
        let more = discovered(indices).insert(v);
        assert(more.subset_of(all));
        lemma_len_subset(more, all);
    }
}

impl<'a, T: AdjacencyList> StronglyConnected<'a, T> {
    /// The graph that is decomposed.
    pub closed spec fn graph(&self) -> &T {
        self.graph
    }

    /// The bookkeeping is consistent: one entry per vertex, only vertices on
    /// the stack and in the components, and the next discovery index equal
    /// to the number of discovered vertices.
    pub closed spec fn inv(&self) -> bool {
        self.steady() && covered(self.indices@, self.stack@, self.components@, Seq::empty())
    }

    /// No vertex is on the stack: no search is under way.
    pub closed spec fn idle(&self) -> bool {
        self.stack@.len() == 0
    }

    /// All of the invariant but that every discovered vertex has a place:
    /// while a component is being closed, its vertices are in neither the
    /// stack nor the components.
    pub closed spec fn steady(&self) -> bool {
        let n = self.graph.order();
        &&& self.graph.wf()
        &&& n <= u32::MAX
        &&& self.indices@.len() == n
        &&& self.low_links@.len() == n
        &&& self.on_stack@.len() == n
        &&& self.on_stack.wf()
        &&& self.idx == discovered(self.indices@).len()
        &&& forall|k: int| 0 <= k < self.stack@.len() ==> #[trigger] self.stack@[k] < n
        &&& components_within(self.components@, n)
        &&& all_distinct(self.components@)
        &&& apart(self.stack@, Seq::empty(), self.components@, self.indices@)
        &&& forall|i: int, k: int|
            0 <= i < self.components@.len() && 0 <= k < self.components@[i]@.len()
                ==> self.indices@[(#[trigger] self.components@[i]@[k]) as int].is_some()
        &&& forall|u: int|
            0 <= u < n && (#[trigger] self.indices@[u]).is_some() ==> self.indices@[u].unwrap()
                < self.idx
        &&& forall|k: int, l: int|
            0 <= k < l < self.stack@.len() ==> #[trigger] index_at(self.stack@, self.indices@, k)
                < #[trigger] index_at(self.stack@, self.indices@, l)
        &&& forall|p: int|
            0 <= p < self.stack@.len() ==> #[trigger] points_down(
                self.graph,
                self.stack@,
                self.indices@,
                self.low_links@,
                p,
            )
        &&& forall|u: int|
            0 <= u < n ==> #[trigger] self.on_stack@[u] == self.stack@.contains(u as Node)
        &&& forall|k: int, l: int|
            0 <= k < l < self.stack@.len() ==> #[trigger] linked(self.graph, self.stack@, k, l)
        &&& all_connected(self.graph, self.components@)
        &&& edges_lead_back(self.graph, self.components@)
    }

    /// A fresh run on `graph`, with no vertex discovered yet.
    pub fn new(graph: &'a T) -> (r: Self)
        requires
            graph.wf(),
            graph.order() <= max_len(),
        ensures
            r.inv(),
            r.idle(),
            r.graph() == graph,
    {
        let n = graph.len();
        let bound = graph.number_of_nodes();
        let mut indices: Vec<Option<Node>> = Vec::new();
        let mut low_links: Vec<Node> = Vec::new();
        while indices.len() < n
            invariant
                indices@.len() == low_links@.len(),
                indices@.len() <= n,
                forall|k: int| 0 <= k < indices@.len() ==> (#[trigger] indices@[k]).is_none(),
            decreases n - indices@.len(),
        {
            indices.push(None);
            low_links.push(0);
        }
        proof {
            assert(discovered(indices@) =~= Set::<int>::empty());
        }
        Self {
            graph,
            idx: 0,
            stack: Vec::new(),
            indices,
            low_links,
            on_stack: BitSet::new(n),
            components: Vec::new(),
        }
    }

    /// Runs the search from every vertex that is still undiscovered and
    /// returns the components in the order in which their roots were closed.
    pub fn find(self) -> (r: Vec<Vec<Node>>)
        requires
            self.inv(),
            self.idle(),
        ensures
            components_within(r@, self.graph().order()),
            all_distinct(r@),
            all_listed(r@, self.graph().order()),
            all_connected(self.graph(), r@),
            edges_lead_back(self.graph(), r@),
    {
        let mut run = self;
        let n = run.graph.len();
        let mut v: usize = 0;
        while v < n
            invariant
                run.inv(),
                run.idle(),
                run.graph == self.graph,
                n == self.graph.order(),
                v <= n,
                forall|u: int| 0 <= u < v ==> (#[trigger] run.indices@[u]).is_some(),
            decreases n - v,
        {
            if run.indices[v].is_none() {
                let ghost before = run.indices@;
                run.sc(v as Node);
                assert forall|u: int| 0 <= u < v + 1 implies (#[trigger] run.indices@[u]).is_some() by {
                    if u < v {
                        assert(before[u].is_some());
                    }
                }
            }
            v += 1;
        }
        proof {
            assert forall|u: Node| u < n implies #[trigger] occurs(run.components@, u) by {
                assert(run.indices@[u as int].is_some());
                assert(!run.stack@.contains(u));
                assert(!Seq::<Node>::empty().contains(u));
            }
        }
        run.components
    }

    /// Discovers `v` and all that is reachable from it and undiscovered, and
    /// closes every component whose root is found on the way.
    #[verifier::rlimit(100)]
    fn sc(&mut self, v: Node)
        requires
            old(self).inv(),
            v < old(self).graph.order(),
            old(self).indices@[v as int].is_none(),
            forall|k: int|
                0 <= k < old(self).stack@.len() ==> reaches(
                    old(self).graph,
                    (#[trigger] old(self).stack@[k]) as int,
                    v as int,
                ),
        ensures
            final(self).inv(),
            final(self).graph == old(self).graph,
            final(self).idx > old(self).idx,
            final(self).indices@[v as int].is_some(),
            forall|u: int|
                0 <= u < old(self).indices@.len() && old(self).indices@[u].is_some()
                    ==> final(self).indices@[u] == old(self).indices@[u],
            is_prefix(old(self).stack@, final(self).stack@),
            final(self).indices@[v as int] == Some(old(self).idx),
            (final(self).stack@ == old(self).stack@ && final(self).low_links@[v as int] == old(
                self,
            ).idx) || is_prefix(old(self).stack@.push(v), final(self).stack@),
            old(self).stack@.len() == 0 ==> final(self).stack@.len() == 0,
            forall|p: int|
                old(self).stack@.len() <= p < final(self).stack@.len() ==> #[trigger] settled(
                    final(self).graph,
                    final(self).stack@,
                    p,
                ),
            forall|p: int|
                old(self).stack@.len() <= p < final(self).stack@.len() ==> placed(
                    final(self).graph,
                    final(self).stack@,
                    final(self).indices@,
                    final(self).components@,
                    #[trigger] final(self).stack@[p],
                    final(self).low_links@[v as int] as int,
                ),
            is_prefix(old(self).components@, final(self).components@),
            final(self).low_links@[v as int] <= old(self).idx,
            forall|u: int|
                0 <= u < old(self).indices@.len() && old(self).indices@[u].is_some()
                    ==> final(self).low_links@[u] == old(self).low_links@[u],
        decreases old(self).graph.order() - old(self).idx,
    {
        let ghost n = self.graph.order();
        proof {
            lemma_discovered_bounds(self.indices@);
        }
        let my_index = self.idx;
        let base = self.stack.len();
        let ghost before = self.indices@;
        let ghost stack0 = self.stack@;
        let ghost low0 = self.low_links@;
        let ghost marks0 = self.on_stack@;
        self.indices.set(v as usize, Some(my_index));
        self.low_links.set(v as usize, my_index);
        self.idx += 1;
        self.stack.push(v);
        self.on_stack.set_bit(v as usize);
        proof {
            assert(discovered(self.indices@) =~= discovered(before).insert(v as int));
            lemma_discovered_bounds(before);
            assert(self.stack@ == stack0.push(v));
            assert(self.components@ == old(self).components@);
            assert forall|x: int| 0 <= x < stack0.len() implies #[trigger] stack0[x] != v by {
                assert(before[stack0[x] as int].is_some());
            }
            assert forall|x: int| 0 <= x < self.stack@.len() implies !occurs(
                self.components@,
                #[trigger] self.stack@[x],
            ) && self.indices@[self.stack@[x] as int].is_some() by {
                if x < stack0.len() {
                    assert(!occurs(old(self).components@, stack0[x]));
                } else {
                    if occurs(self.components@, v) {
                        let (i, k) = choose|i: int, k: int|
                            0 <= i < self.components@.len() && 0 <= k < self.components@[i]@.len()
                                && #[trigger] self.components@[i]@[k] == v;
                        assert(before[self.components@[i]@[k] as int].is_some());
                    }
                }
            }
            assert(self.stack@.no_duplicates());
            assert forall|k: int, l: int| 0 <= k < l < self.stack@.len() implies #[trigger] index_at(
                self.stack@,
                self.indices@,
                k,
            ) < #[trigger] index_at(self.stack@, self.indices@, l) by {
                assert(stack0[k] != v);
                assert(before[stack0[k] as int].is_some());
                assert(index_at(self.stack@, self.indices@, k) == index_at(stack0, before, k));
                if l < stack0.len() {
                    assert(stack0[l] != v);
                    assert(index_at(self.stack@, self.indices@, l) == index_at(stack0, before, l));
                }
            }
            assert forall|p: int| 0 <= p < self.stack@.len() implies #[trigger] points_down(
                self.graph,
                self.stack@,
                self.indices@,
                self.low_links@,
                p,
            ) by {
                if p < stack0.len() {
                    assert(points_down(self.graph, stack0, before, low0, p));
                    let q = choose|q: int|
                        0 <= q <= p && low0[stack0[p] as int] == index_at(stack0, before, q)
                            && linked(self.graph, stack0, p, q);
                    assert(stack0[p] != v && stack0[q] != v);
                    assert(index_at(self.stack@, self.indices@, q) == index_at(stack0, before, q));
                    assert(linked(self.graph, self.stack@, p, q));
                } else {
                    assert(index_at(self.stack@, self.indices@, p) == my_index);
                    lemma_reach_self(self.graph, v as int);
                    assert(linked(self.graph, self.stack@, p, p));
                }
            }
            assert forall|k: int, l: int| 0 <= k < l < self.stack@.len() implies #[trigger] linked(
                self.graph,
                self.stack@,
                k,
                l,
            ) by {
                if l < stack0.len() {
                    assert(linked(self.graph, stack0, k, l));
                } else {
                    assert(reaches(self.graph, stack0[k] as int, v as int));
                }
            }
            assert forall|u: int| 0 <= u < n implies #[trigger] self.on_stack@[u]
                == self.stack@.contains(u as Node) by {
                assert(marks0[u] == stack0.contains(u as Node));
                if u == v {
                    assert(self.stack@[stack0.len() as int] == v);
                } else if stack0.contains(u as Node) {
                    let x = stack0.index_of(u as Node);
                    assert(self.stack@[x] == u as Node);
                } else if self.stack@.contains(u as Node) {
                    let x = self.stack@.index_of(u as Node);
                    assert(stack0[x] == u as Node);
                }
            }
            assert forall|u: int|
                0 <= u < self.indices@.len() && u <= u32::MAX && (
                #[trigger] self.indices@[u]).is_some() implies self.stack@.contains(u as Node)
                || occurs(self.components@, u as Node) || Seq::<Node>::empty().contains(
                u as Node,
            ) by {
                if u == v {
                    assert(self.stack@[stack0.len() as int] == v);
                } else {
                    assert(before[u].is_some());
                    if stack0.contains(u as Node) {
                        let x = stack0.index_of(u as Node);
                        assert(self.stack@[x] == u as Node);
                    }
                }
            }
        }

        let neighbors = self.graph.out_neighbors(v);
        let mut k: usize = 0;
        while k < neighbors.len()
            invariant
                self.inv(),
                self.graph == old(self).graph,
                n == self.graph.order(),
                v < n,
                self.idx > old(self).idx,
                my_index == old(self).idx,
                before.len() == n,
                self.indices@.len() == n,
                self.indices@[v as int] == Some(my_index),
                forall|u: int|
                    0 <= u < before.len() && before[u].is_some() ==> self.indices@[u] == before[u],
                base == old(self).stack@.len(),
                is_prefix(old(self).stack@.push(v), self.stack@),
                forall|i: int| 0 <= i < neighbors@.len() ==> #[trigger] neighbors@[i] < n,
                forall|i: int|
                    0 <= i < neighbors@.len() ==> self.graph.has_edge(
                        v as int,
                        (#[trigger] neighbors@[i]) as int,
                    ),
                forall|p: int|
                    base < p < self.stack@.len() ==> #[trigger] settled(self.graph, self.stack@, p),
                forall|p: int|
                    base < p < self.stack@.len() ==> placed(
                        self.graph,
                        self.stack@,
                        self.indices@,
                        self.components@,
                        #[trigger] self.stack@[p],
                        self.low_links@[v as int] as int,
                    ),
                forall|i: int|
                    0 <= i < k ==> seen(
                        self.stack@,
                        self.indices@,
                        self.components@,
                        #[trigger] neighbors@[i],
                        self.low_links@[v as int] as int,
                    ),
                is_prefix(old(self).components@, self.components@),
                forall|u: int|
                    0 <= u < before.len() && u != v && before[u].is_some() ==> self.low_links@[u]
                        == old(self).low_links@[u],
                self.low_links@[v as int] <= my_index,
                forall|y: Node|
                    y < n && self.graph.has_edge(v as int, y as int) ==> neighbors@.contains(y),
            decreases neighbors@.len() - k,
        {
            let w = neighbors[k];
            if self.indices[w as usize].is_none() {
                let ghost mid = self.indices@;
                let ghost mid_stack = self.stack@;
                let ghost mid_idx = self.idx;
                let ghost mid_comps = self.components@;
                let ghost mid_low = self.low_links@;
                proof {
                    lemma_discovered_bounds(mid);
                    assert(mid_stack[base as int] == old(self).stack@.push(v)[base as int]);
                    lemma_all_reach(self.graph, mid_stack, base as int, w as int);
                }
                self.sc(w);
                proof {
                    assert forall|p: int| base < p < self.stack@.len() implies #[trigger] settled(
                        self.graph,
                        self.stack@,
                        p,
                    ) by {
                        if p < mid_stack.len() {
                            assert(settled(self.graph, mid_stack, p));
                            let q = choose|q: int|
                                0 <= q < p && #[trigger] linked(self.graph, mid_stack, p, q);
                            assert(linked(self.graph, self.stack@, p, q));
                        }
                    }
                }
                assert forall|u: int| 0 <= u < before.len() && before[u].is_some() implies self.indices@[u]
                    == before[u] by {
                    assert(mid[u] == before[u]);
                }
                assert(self.indices@[v as int] == mid[v as int]);
                assert(is_prefix(old(self).stack@.push(v), self.stack@)) by {
                    assert forall|i: int| 0 <= i <= base implies old(self).stack@.push(v)[i]
                        == self.stack@[i] by {
                        assert(mid_stack[i] == self.stack@[i]);
                    }
                }
                let low_v = self.low_links[v as usize];
                let low_w = self.low_links[w as usize];
                if low_w < low_v {
                    let ghost was = self.low_links@;
                    let ghost now_stack = self.stack@;
                    proof {
                        assert(now_stack[base as int] == old(self).stack@.push(v)[base as int]);
                        assert(points_down(self.graph, now_stack, self.indices@, was, base as int));
                        let qv = choose|q: int|
                            0 <= q <= base && was[now_stack[base as int] as int] == index_at(
                                now_stack,
                                self.indices@,
                                q,
                            );
                        if qv < base {
                            assert(index_at(now_stack, self.indices@, qv) < index_at(
                                now_stack,
                                self.indices@,
                                base as int,
                            ));
                        }
                        assert(low_v <= my_index);
                        assert(now_stack != mid_stack);
                        let pw = mid_stack.len() as int;
                        assert(now_stack[pw] == mid_stack.push(w)[pw]);
                        assert(points_down(self.graph, now_stack, self.indices@, was, pw));
                        let qw = choose|q: int|
                            0 <= q <= pw && was[now_stack[pw] as int] == index_at(
                                now_stack,
                                self.indices@,
                                q,
                            ) && linked(self.graph, now_stack, pw, q);
                        lemma_reach_edge(self.graph, v as int, w as int);
                        lemma_reach_trans(self.graph, v as int, w as int, now_stack[qw] as int);
                        assert(linked(self.graph, now_stack, base as int, qw));
                        if qw > qv {
                            assert(index_at(now_stack, self.indices@, qv) < index_at(
                                now_stack,
                                self.indices@,
                                qw,
                            ));
                        }
                        assert(qw <= qv);
                    }
                    self.low_links.set(v as usize, low_w);
                    proof {
                        lemma_low_update(
                            self.graph,
                            now_stack,
                            self.indices@,
                            was,
                            self.low_links@,
                            base as int,
                            v,
                            low_w,
                        );
                    }
                }
                proof {
                    let floor = self.low_links@[v as int] as int;
                    assert(floor <= mid_low[v as int]);
                    assert(floor <= self.low_links@[w as int]);
                    assert forall|p: int| base < p < self.stack@.len() implies placed(
                        self.graph,
                        self.stack@,
                        self.indices@,
                        self.components@,
                        #[trigger] self.stack@[p],
                        floor,
                    ) by {
                        if p < mid_stack.len() {
                            assert(self.stack@[p] == mid_stack[p]);
                            lemma_placed_stable(
                                self.graph,
                                mid_stack,
                                mid,
                                mid_comps,
                                self.stack@,
                                self.indices@,
                                self.components@,
                                mid_stack[p],
                                mid_low[v as int] as int,
                                floor,
                            );
                        } else {
                            lemma_placed_stable(
                                self.graph,
                                self.stack@,
                                self.indices@,
                                self.components@,
                                self.stack@,
                                self.indices@,
                                self.components@,
                                self.stack@[p],
                                low_w as int,
                                floor,
                            );
                        }
                    }
                    assert forall|i: int| 0 <= i < k + 1 implies seen(
                        self.stack@,
                        self.indices@,
                        self.components@,
                        #[trigger] neighbors@[i],
                        floor,
                    ) by {
                        if i < k {
                            lemma_seen_stable(
                                mid_stack,
                                mid,
                                mid_comps,
                                self.stack@,
                                self.indices@,
                                self.components@,
                                neighbors@[i],
                                mid_low[v as int] as int,
                                floor,
                            );
                        } else {
                            if self.stack@ == mid_stack {
                                assert(!mid_stack.contains(w)) by {
                                    if mid_stack.contains(w) {
                                        let q = mid_stack.index_of(w);
                                        assert(mid[mid_stack[q] as int].is_some());
                                    }
                                }
                                assert(self.indices@[w as int].is_some());
                                assert(occurs(self.components@, w));
                            } else {
                                let pw = mid_stack.len() as int;
                                assert(self.stack@[pw] == mid_stack.push(w)[pw]);
                            }
                        }
                    }
                    assert(is_prefix(old(self).components@, self.components@)) by {
                        assert forall|i: int| 0 <= i < old(self).components@.len() implies old(
                            self,
                        ).components@[i] == self.components@[i] by {
                            assert(mid_comps[i] == self.components@[i]);
                        }
                    }
                }
            } else if self.on_stack.at(w as usize) {
                let low_v = self.low_links[v as usize];
                let ghost was_low = self.low_links@;
                match self.indices[w as usize] {
                    Some(index_w) => {
                        if index_w < low_v {
                            let ghost was = self.low_links@;
                            let ghost now_stack = self.stack@;
                            proof {
                                assert(now_stack[base as int] == old(self).stack@.push(v)[base as int]);
                                assert(points_down(self.graph, now_stack, self.indices@, was, base as int));
                                let qv = choose|q: int|
                                    0 <= q <= base && was[now_stack[base as int] as int]
                                        == index_at(now_stack, self.indices@, q);
                                assert(now_stack.contains(w));
                                let pw = now_stack.index_of(w);
                                assert(index_at(now_stack, self.indices@, pw) == index_w);
                                lemma_reach_edge(self.graph, v as int, w as int);
                                assert(linked(self.graph, now_stack, base as int, pw));
                                if pw > qv {
                                    assert(index_at(now_stack, self.indices@, qv) < index_at(
                                        now_stack,
                                        self.indices@,
                                        pw,
                                    ));
                                }
                                assert(pw <= qv);
                            }
                            self.low_links.set(v as usize, index_w);
                            proof {
                                lemma_low_update(
                                    self.graph,
                                    now_stack,
                                    self.indices@,
                                    was,
                                    self.low_links@,
                                    base as int,
                                    v,
                                    index_w,
                                );
                            }
                        }
                    },
                    None => {},
                }
                proof {
                    let floor = self.low_links@[v as int] as int;
                    assert(self.stack@.contains(w));
                    lemma_steps_on(
                        self.graph,
                        self.stack@,
                        self.indices@,
                        self.components@,
                        neighbors@,
                        k as int,
                        base as int,
                        was_low[v as int] as int,
                        floor,
                    );
                }
            } else {
                proof {
                    assert(self.indices@[w as int].is_some());
                    assert(!self.stack@.contains(w));
                    assert(occurs(self.components@, w));
                    lemma_steps_on(
                        self.graph,
                        self.stack@,
                        self.indices@,
                        self.components@,
                        neighbors@,
                        k as int,
                        base as int,
                        self.low_links@[v as int] as int,
                        self.low_links@[v as int] as int,
                    );
                }
            }
            k += 1;
        }
        proof {
            assert(placed(
                self.graph,
                self.stack@,
                self.indices@,
                self.components@,
                v,
                self.low_links@[v as int] as int,
            )) by {
                assert forall|y: Node|
                    y < self.graph.order() && #[trigger] self.graph.has_edge(
                        v as int,
                        y as int,
                    ) implies seen(
                    self.stack@,
                    self.indices@,
                    self.components@,
                    y,
                    self.low_links@[v as int] as int,
                ) by {
                    let i = neighbors@.index_of(y);
                    assert(neighbors@[i] == y);
                }
            }
        }

        if self.low_links[v as usize] == my_index {
            let mut component: Vec<Node> = Vec::new();
            assert(self.stack@[base as int] == old(self).stack@.push(v)[base as int]);
            let ghost full0 = self.stack@;
            let ghost comps0 = self.components@;
            let ghost low_end = self.low_links@;
            let ghost ind0 = self.indices@;
            proof {
                assert forall|p: int| base <= p < full0.len() implies placed(
                    self.graph,
                    full0,
                    ind0,
                    comps0,
                    #[trigger] full0[p],
                    my_index as int,
                ) by {
                    if p == base {
                    } else {
                        assert(placed(
                            self.graph,
                            self.stack@,
                            self.indices@,
                            self.components@,
                            self.stack@[p],
                            self.low_links@[v as int] as int,
                        ));
                    }
                }
                assert forall|q: int| 0 <= q < base implies #[trigger] index_at(full0, ind0, q)
                    < my_index by {
                    assert(index_at(full0, ind0, q) < index_at(full0, ind0, base as int));
                }
            }
            proof {
                assert forall|p: int| base <= p < self.stack@.len() implies reaches(
                    self.graph,
                    v as int,
                    (#[trigger] self.stack@[p]) as int,
                ) && reaches(self.graph, self.stack@[p] as int, v as int) by {
                    lemma_reaches_base(self.graph, self.stack@, base as int, p);
                    if p > base {
                        assert(linked(self.graph, self.stack@, base as int, p));
                    } else {
                        lemma_reach_self(self.graph, v as int);
                    }
                }
            }
            loop
                invariant_except_break
                    is_prefix(old(self).stack@.push(v), self.stack@),
                invariant
                    self.steady(),
                    covered(self.indices@, self.stack@, self.components@, component@),
                    self.graph == old(self).graph,
                    n == self.graph.order(),
                    v < n,
                    before.len() == n,
                    self.indices@.len() == n,
                    self.idx > old(self).idx,
                    self.indices@[v as int] == Some(my_index),
                    self.low_links@[v as int] == my_index,
                    forall|u: int|
                        0 <= u < before.len() && before[u].is_some() ==> self.indices@[u]
                            == before[u],
                    base == old(self).stack@.len(),
                    forall|i: int| 0 <= i < component@.len() ==> #[trigger] component@[i] < n,
                    apart(component@, self.stack@, self.components@, self.indices@),
                    forall|p: int|
                        base <= p < self.stack@.len() ==> reaches(
                            self.graph,
                            v as int,
                            (#[trigger] self.stack@[p]) as int,
                        ) && reaches(self.graph, self.stack@[p] as int, v as int),
                    forall|x: int|
                        0 <= x < component@.len() ==> reaches(
                            self.graph,
                            v as int,
                            (#[trigger] component@[x]) as int,
                        ) && reaches(self.graph, component@[x] as int, v as int),
                    self.components@ == comps0,
                    self.low_links@ == low_end,
                    self.indices@ == ind0,
                    is_prefix(self.stack@, full0),
                    forall|p: int|
                        base <= p < full0.len() ==> placed(
                            self.graph,
                            full0,
                            ind0,
                            comps0,
                            #[trigger] full0[p],
                            my_index as int,
                        ),
                    forall|p: int|
                        base <= p < full0.len() ==> p < self.stack@.len() || component@.contains(
                            #[trigger] full0[p],
                        ),
                    forall|i: int|
                        0 <= i < component@.len() ==> placed(
                            self.graph,
                            full0,
                            ind0,
                            comps0,
                            #[trigger] component@[i],
                            my_index as int,
                        ),
                ensures
                    self.components@ == comps0,
                    self.low_links@ == low_end,
                    self.indices@ == ind0,
                    forall|p: int|
                        base <= p < full0.len() ==> p < self.stack@.len() || component@.contains(
                            #[trigger] full0[p],
                        ),
                    forall|i: int|
                        0 <= i < component@.len() ==> placed(
                            self.graph,
                            full0,
                            ind0,
                            comps0,
                            #[trigger] component@[i],
                            my_index as int,
                        ),
                    forall|x: int|
                        0 <= x < component@.len() ==> reaches(
                            self.graph,
                            v as int,
                            (#[trigger] component@[x]) as int,
                        ) && reaches(self.graph, component@[x] as int, v as int),
                    apart(component@, self.stack@, self.components@, self.indices@),
                    self.steady(),
                    covered(self.indices@, self.stack@, self.components@, component@),
                    self.graph == old(self).graph,
                    self.idx > old(self).idx,
                    self.indices@[v as int] == Some(my_index),
                    self.low_links@[v as int] == my_index,
                    forall|u: int|
                        0 <= u < before.len() && before[u].is_some() ==> self.indices@[u]
                            == before[u],
                    self.stack@ == old(self).stack@,
                    component@.len() > 0,
                    forall|i: int| 0 <= i < component@.len() ==> #[trigger] component@[i] < n,
                decreases self.stack@.len(),
            {
                let ghost full = self.stack@;
                let ghost marks = self.on_stack@;
                assert(full[base as int] == old(self).stack@.push(v)[base as int]);
                let w = match self.stack.pop() {
                    Some(w) => w,
                    None => v,
                };
                assert(w == full[full.len() - 1]);
                self.on_stack.unset_bit(w as usize);
                let ghost part = component@;
                component.push(w);
                proof {
                    assert(self.stack@ == full.drop_last());
                    assert(w == full0[full.len() - 1]);
                    assert forall|p: int| base <= p < full0.len() implies p < self.stack@.len()
                        || component@.contains(#[trigger] full0[p]) by {
                        if p >= self.stack@.len() {
                            if p == full.len() - 1 {
                                assert(component@[part.len() as int] == full0[p]);
                            } else {
                                assert(part.contains(full0[p]));
                                let x = part.index_of(full0[p]);
                                assert(component@[x] == full0[p]);
                            }
                        }
                    }
                    assert forall|i: int| 0 <= i < component@.len() implies placed(
                        self.graph,
                        full0,
                        ind0,
                        comps0,
                        #[trigger] component@[i],
                        my_index as int,
                    ) by {
                        if i < part.len() {
                            assert(component@[i] == part[i]);
                        } else {
                            assert(component@[i] == full0[full.len() - 1]);
                        }
                    }
                    assert forall|x: int| 0 <= x < part.len() implies part[x] != w by {
                        assert(!full.contains(part[x]));
                    }
                    assert(component@.no_duplicates());
                    assert forall|x: int| 0 <= x < component@.len() implies !self.stack@.contains(
                        #[trigger] component@[x],
                    ) && !occurs(self.components@, component@[x]) && component@[x]
                        < self.indices@.len() && self.indices@[component@[x] as int].is_some() by {
                        if x < part.len() {
                            assert(component@[x] == part[x]);
                            assert(!full.contains(part[x]));
                            if self.stack@.contains(part[x]) {
                                let q = self.stack@.index_of(part[x]);
                                assert(full[q] == part[x]);
                            }
                        } else {
                            assert(component@[x] == w);
                            if self.stack@.contains(w) {
                                let q = self.stack@.index_of(w);
                                assert(full[q] == full[full.len() - 1]);
                            }
                        }
                    }
                    assert forall|a: int, b: int| 0 <= a < b < self.stack@.len() implies #[trigger] index_at(
                        self.stack@,
                        self.indices@,
                        a,
                    ) < #[trigger] index_at(self.stack@, self.indices@, b) by {
                        assert(index_at(self.stack@, self.indices@, a) == index_at(
                            full,
                            self.indices@,
                            a,
                        ));
                        assert(index_at(self.stack@, self.indices@, b) == index_at(
                            full,
                            self.indices@,
                            b,
                        ));
                    }
                    assert forall|p: int| 0 <= p < self.stack@.len() implies #[trigger] points_down(
                self.graph,
                self.stack@,
                        self.indices@,
                        self.low_links@,
                        p,
                    ) by {
                        assert(points_down(self.graph, full, self.indices@, self.low_links@, p));
                        let q = choose|q: int|
                            0 <= q <= p && self.low_links@[full[p] as int] == index_at(
                                full,
                                self.indices@,
                                q,
                            ) && linked(self.graph, full, p, q);
                        assert(index_at(self.stack@, self.indices@, q) == index_at(
                            full,
                            self.indices@,
                            q,
                        ));
                        assert(linked(self.graph, self.stack@, p, q));
                    }
                    assert forall|a: int, b: int| 0 <= a < b < self.stack@.len() implies #[trigger] linked(
                        self.graph,
                        self.stack@,
                        a,
                        b,
                    ) by {
                        assert(linked(self.graph, full, a, b));
                    }
                    assert forall|p: int| base <= p < self.stack@.len() implies reaches(
                        self.graph,
                        v as int,
                        (#[trigger] self.stack@[p]) as int,
                    ) && reaches(self.graph, self.stack@[p] as int, v as int) by {
                        assert(self.stack@[p] == full[p]);
                    }
                    assert forall|x: int| 0 <= x < component@.len() implies reaches(
                        self.graph,
                        v as int,
                        (#[trigger] component@[x]) as int,
                    ) && reaches(self.graph, component@[x] as int, v as int) by {
                        if x < part.len() {
                            assert(component@[x] == part[x]);
                        } else {
                            assert(component@[x] == full[full.len() - 1]);
                        }
                    }
                    assert forall|u: int| 0 <= u < n implies #[trigger] self.on_stack@[u]
                        == self.stack@.contains(u as Node) by {
                        assert(marks[u] == full.contains(u as Node));
                        if self.stack@.contains(u as Node) {
                            let x = self.stack@.index_of(u as Node);
                            assert(full[x] == u as Node);
                        } else if full.contains(u as Node) {
                            let x = full.index_of(u as Node);
                            if x < full.len() - 1 {
                                assert(self.stack@[x] == u as Node);
                            }
                        }
                    }
                    assert forall|u: int|
                        0 <= u < self.indices@.len() && u <= u32::MAX && (
                        #[trigger] self.indices@[u]).is_some() implies self.stack@.contains(
                        u as Node,
                    ) || occurs(self.components@, u as Node) || component@.contains(u as Node) by {
                        if full.contains(u as Node) {
                            let x = full.index_of(u as Node);
                            if x < full.len() - 1 {
                                assert(self.stack@[x] == u as Node);
                            } else {
                                assert(component@[part.len() as int] == u as Node);
                            }
                        } else if part.contains(u as Node) {
                            let x = part.index_of(u as Node);
                            assert(component@[x] == u as Node);
                        }
                    }
                }
                assert(is_prefix(old(self).stack@, self.stack@)) by {
                    assert forall|i: int| 0 <= i < base implies old(self).stack@[i]
                        == self.stack@[i] by {
                        assert(old(self).stack@.push(v)[i] == full[i]);
                    }
                }
                if w == v {
                    proof {
                        assert(full[base as int] == full[full.len() - 1]);
                        assert(self.stack@ =~= old(self).stack@);
                    }
                    break ;
                }
                assert(full.len() - 1 != base);
                assert(is_prefix(old(self).stack@.push(v), self.stack@)) by {
                    assert forall|i: int| 0 <= i <= base implies old(self).stack@.push(v)[i]
                        == self.stack@[i] by {
                        assert(old(self).stack@.push(v)[i] == full[i]);
                    }
                }
            }
            let ghost closed = self.components@;
            self.components.push(component);
            proof {
                let now = self.components@;
                assert(closed == comps0);
                assert forall|i: int, k: int, y: Node|
                    0 <= i < now.len() && 0 <= k < now[i]@.len() && y < self.graph.order()
                        && #[trigger] self.graph.has_edge(
                        now[i]@[k] as int,
                        y as int,
                    ) implies occurs_before(now, y, i + 1) by {
                    if i < closed.len() {
                        assert(now[i] == closed[i]);
                        assert(self.graph.has_edge(closed[i]@[k] as int, y as int));
                        assert(occurs_before(closed, y, i + 1));
                        let (i2, k2) = choose|i2: int, k2: int|
                            0 <= i2 < i + 1 && i2 < closed.len() && 0 <= k2 < closed[i2]@.len()
                                && #[trigger] closed[i2]@[k2] == y;
                        assert(now[i2] == closed[i2]);
                        assert(now[i2]@[k2] == y);
                    } else {
                        let x = component@[k];
                        assert(placed(self.graph, full0, ind0, comps0, component@[k], my_index as int));
                        assert(seen(full0, ind0, comps0, y, my_index as int));
                        if occurs(comps0, y) {
                            let (i2, k2) = choose|i2: int, k2: int|
                                0 <= i2 < comps0.len() && 0 <= k2 < comps0[i2]@.len()
                                    && #[trigger] comps0[i2]@[k2] == y;
                            assert(now[i2] == closed[i2]);
                            assert(now[i2]@[k2] == y);
                        } else {
                            let q = full0.index_of(y);
                            assert(index_at(full0, ind0, q) >= my_index);
                            assert(q >= base);
                            assert(component@.contains(full0[q]));
                            let k2 = component@.index_of(y);
                            assert(now[closed.len() as int]@[k2] == y);
                        }
                    }
                }
                assert(is_prefix(old(self).components@, now)) by {
                    assert forall|i: int| 0 <= i < old(self).components@.len() implies old(
                        self,
                    ).components@[i] == now[i] by {
                        assert(closed[i] == now[i]);
                    }
                }
                assert forall|i: int| 0 <= i < now.len() implies strongly_connected(
                    self.graph,
                    (#[trigger] now[i])@,
                ) by {
                    if i < closed.len() {
                        assert(now[i] == closed[i]);
                    } else {
                        assert forall|a: int, b: int|
                            0 <= a < component@.len() && 0 <= b < component@.len() implies #[trigger] reaches(
                            self.graph,
                            component@[a] as int,
                            component@[b] as int,
                        ) by {
                            lemma_reach_trans(
                                self.graph,
                                component@[a] as int,
                                v as int,
                                component@[b] as int,
                            );
                        }
                    }
                }
                assert forall|i: int, k: int|
                    0 <= i < now.len() && 0 <= k < now[i]@.len() implies self.indices@[(
                #[trigger] now[i]@[k]) as int].is_some() by {
                    if i < closed.len() {
                        assert(now[i] == closed[i]);
                    }
                }
                assert forall|i: int, k: int, j: int, l: int|
                    0 <= i < now.len() && 0 <= k < now[i]@.len() && 0 <= j < now.len() && 0 <= l
                        < now[j]@.len() && #[trigger] now[i]@[k] == #[trigger] now[j]@[l] implies i
                    == j && k == l by {
                    if i < closed.len() && j < closed.len() {
                        assert(now[i] == closed[i] && now[j] == closed[j]);
                    } else if i < closed.len() {
                        assert(now[i] == closed[i]);
                        assert(closed[i]@[k] == component@[l]);
                        assert(occurs(closed, component@[l]));
                    } else if j < closed.len() {
                        assert(now[j] == closed[j]);
                        assert(closed[j]@[l] == component@[k]);
                        assert(occurs(closed, component@[k]));
                    }
                }
                assert forall|x: int| 0 <= x < self.stack@.len() implies !occurs(
                    now,
                    #[trigger] self.stack@[x],
                ) by {
                    if occurs(now, self.stack@[x]) {
                        let (i, k) = choose|i: int, k: int|
                            0 <= i < now.len() && 0 <= k < now[i]@.len() && #[trigger] now[i]@[k]
                                == self.stack@[x];
                        if i < closed.len() {
                            assert(now[i] == closed[i]);
                            assert(occurs(closed, self.stack@[x]));
                        } else {
                            assert(self.stack@.contains(component@[k]));
                        }
                    }
                }
                assert forall|u: int|
                    0 <= u < self.indices@.len() && u <= u32::MAX && (
                    #[trigger] self.indices@[u]).is_some() implies self.stack@.contains(u as Node)
                    || occurs(now, u as Node) || Seq::<Node>::empty().contains(u as Node) by {
                    if occurs(closed, u as Node) {
                        let (i, k) = choose|i: int, k: int|
                            0 <= i < closed.len() && 0 <= k < closed[i]@.len()
                                && #[trigger] closed[i]@[k] == u as Node;
                        assert(now[i] == closed[i]);
                        assert(now[i]@[k] == u as Node);
                    } else if component@.contains(u as Node) {
                        let x = component@.index_of(u as Node);
                        assert(now[closed.len() as int]@[x] == u as Node);
                    }
                }
            }
        } else {
            assert(is_prefix(old(self).stack@, self.stack@)) by {
                assert forall|i: int| 0 <= i < base implies old(self).stack@[i] == self.stack@[i] by {
                    assert(old(self).stack@.push(v)[i] == self.stack@[i]);
                }
            }
            proof {
                assert(self.stack@[base as int] == old(self).stack@.push(v)[base as int]);
                assert(points_down(
                    self.graph,
                    self.stack@,
                    self.indices@,
                    self.low_links@,
                    base as int,
                ));
                let q = choose|q: int|
                    0 <= q <= base && self.low_links@[self.stack@[base as int] as int] == index_at(
                        self.stack@,
                        self.indices@,
                        q,
                    ) && linked(self.graph, self.stack@, base as int, q);
                assert(q < base);
                assert(settled(self.graph, self.stack@, base as int));
            }
        }
    }
}

/// One more neighbour is seen, and what was seen or placed under the old
/// floor is so under the new one, which is no higher.
proof fn lemma_steps_on<G: AdjacencyList>(
    g: &G,
    stack: Seq<Node>,
    indices: Seq<Option<Node>>,
    comps: Seq<Vec<Node>>,
    neighbors: Seq<Node>,
    k: int,
    base: int,
    floor1: int,
    floor2: int,
)
    requires
        0 <= k < neighbors.len(),
        floor2 <= floor1,
        seen(stack, indices, comps, neighbors[k], floor2),
        forall|i: int| 0 <= i < k ==> seen(stack, indices, comps, #[trigger] neighbors[i], floor1),
        forall|p: int|
            base < p < stack.len() ==> placed(g, stack, indices, comps, #[trigger] stack[p], floor1),
    ensures
        forall|i: int| 0 <= i < k + 1 ==> seen(stack, indices, comps, #[trigger] neighbors[i], floor2),
        forall|p: int|
            base < p < stack.len() ==> placed(g, stack, indices, comps, #[trigger] stack[p], floor2),
{
    assert forall|i: int| 0 <= i < k + 1 implies seen(
        stack,
        indices,
        comps,
        #[trigger] neighbors[i],
        floor2,
    ) by {
        if i < k {
            lemma_seen_stable(stack, indices, comps, stack, indices, comps, neighbors[i], floor1, floor2);
        }
    }
    assert forall|p: int| base < p < stack.len() implies placed(
        g,
        stack,
        indices,
        comps,
        #[trigger] stack[p],
        floor2,
    ) by {
        lemma_placed_stable(g, stack, indices, comps, stack, indices, comps, stack[p], floor1, floor2);
    }
}

/// Changing the low-link of the vertex at position `base` to the discovery
/// index of a vertex at or below it, which it reaches, keeps every low-link
/// pointing down.
proof fn lemma_low_update<G: AdjacencyList>(
    g: &G,
    stack: Seq<Node>,
    indices: Seq<Option<Node>>,
    was: Seq<Node>,
    now: Seq<Node>,
    base: int,
    v: Node,
    value: Node,
)
    requires
        0 <= base < stack.len(),
        stack[base] == v,
        stack.no_duplicates(),
        0 <= v < was.len(),
        now == was.update(v as int, value),
        forall|p: int| 0 <= p < stack.len() ==> stack[p] < was.len(),
        forall|p: int| 0 <= p < stack.len() ==> #[trigger] points_down(g, stack, indices, was, p),
        exists|q: int|
            0 <= q <= base && value == index_at(stack, indices, q) && linked(g, stack, base, q),
    ensures
        forall|p: int| 0 <= p < stack.len() ==> #[trigger] points_down(g, stack, indices, now, p),
{
    assert forall|p: int| 0 <= p < stack.len() implies #[trigger] points_down(
        g,
        stack,
        indices,
        now,
        p,
    ) by {
        if p == base {
            let q = choose|q: int|
                0 <= q <= base && value == index_at(stack, indices, q) && linked(g, stack, base, q);
            assert(0 <= q <= p && now[stack[p] as int] == index_at(stack, indices, q) && linked(
                g,
                stack,
                p,
                q,
            ));
        } else {
            assert(points_down(g, stack, indices, was, p));
            let q = choose|q: int|
                0 <= q <= p && was[stack[p] as int] == index_at(stack, indices, q) && linked(
                    g,
                    stack,
                    p,
                    q,
                );
            assert(stack[p] != v);
            assert(0 <= q <= p && now[stack[p] as int] == index_at(stack, indices, q) && linked(
                g,
                stack,
                p,
                q,
            ));
        }
    }
}

/// Where every vertex above position `base` reaches one strictly below
/// itself, and every vertex reaches those above it, the vertex at position
/// `p` reaches the one at `base`.
proof fn lemma_reaches_base<G: AdjacencyList>(g: &G, stack: Seq<Node>, base: int, p: int)
    requires
        0 <= base <= p < stack.len(),
        forall|i: int| 0 <= i < stack.len() ==> #[trigger] stack[i] < g.order(),
        forall|k: int, l: int| 0 <= k < l < stack.len() ==> #[trigger] linked(g, stack, k, l),
        forall|x: int| base < x < stack.len() ==> #[trigger] settled(g, stack, x),
    ensures
        reaches(g, stack[p] as int, stack[base] as int),
    decreases p,
{
    if p == base {
        lemma_reach_self(g, stack[p] as int);
    } else {
        assert(settled(g, stack, p));
        let q = choose|q: int| 0 <= q < p && #[trigger] linked(g, stack, p, q);
        if q > base {
            lemma_reaches_base(g, stack, base, q);
            lemma_reach_trans(g, stack[p] as int, stack[q] as int, stack[base] as int);
        } else if q < base {
            assert(linked(g, stack, q, base));
            lemma_reach_trans(g, stack[p] as int, stack[q] as int, stack[base] as int);
        }
    }
}

/// With an edge from the vertex at `base` to `w`, every vertex of the stack
/// reaches `w`.
proof fn lemma_all_reach<G: AdjacencyList>(g: &G, stack: Seq<Node>, base: int, w: int)
    requires
        0 <= base < stack.len(),
        0 <= w < g.order(),
        g.has_edge(stack[base] as int, w),
        forall|i: int| 0 <= i < stack.len() ==> #[trigger] stack[i] < g.order(),
        forall|k: int, l: int| 0 <= k < l < stack.len() ==> #[trigger] linked(g, stack, k, l),
        forall|x: int| base < x < stack.len() ==> #[trigger] settled(g, stack, x),
    ensures
        forall|k: int| 0 <= k < stack.len() ==> reaches(g, (#[trigger] stack[k]) as int, w),
{
    lemma_reach_edge(g, stack[base] as int, w);
    assert forall|k: int| 0 <= k < stack.len() implies reaches(g, (#[trigger] stack[k]) as int, w) by {
        if k < base {
            assert(linked(g, stack, k, base));
            lemma_reach_trans(g, stack[k] as int, stack[base] as int, w);
        } else if k > base {
            lemma_reaches_base(g, stack, base, k);
            lemma_reach_trans(g, stack[k] as int, stack[base] as int, w);
        }
    }
}

/// In a graph without a cycle, components that are strongly connected and
/// together list every vertex exactly once are single vertices, as many as
/// the graph has.
pub proof fn lemma_acyclic_components<G: AdjacencyList>(g: &G, comps: Seq<Vec<Node>>)
    requires
        g.order() <= u32::MAX,
        acyclic_without(g, Set::<int>::empty()),
        components_within(comps, g.order()),
        all_distinct(comps),
        all_listed(comps, g.order()),
        all_connected(g, comps),
    ensures
        comps.len() == g.order(),
        forall|i: int| 0 <= i < comps.len() ==> (#[trigger] comps[i])@.len() == 1,
{
    let rank = choose|rank: spec_fn(int) -> nat| is_numbering(g, Set::<int>::empty(), rank);
    assert forall|i: int| 0 <= i < comps.len() implies (#[trigger] comps[i])@.len() == 1 by {
        if comps[i]@.len() >= 2 {
            let a = comps[i]@[0];
            let b = comps[i]@[1];
            assert(a != b);
            assert(strongly_connected(g, comps[i]@));
            assert(reaches(g, comps[i]@[0] as int, comps[i]@[1] as int));
            assert(reaches(g, comps[i]@[1] as int, comps[i]@[0] as int));
            let there = choose|walk: Seq<int>|
                #[trigger] is_walk(g, Set::<int>::empty(), walk) && walk[0] == a && walk[walk.len()
                    - 1] == b;
            let back = choose|walk: Seq<int>|
                #[trigger] is_walk(g, Set::<int>::empty(), walk) && walk[0] == b && walk[walk.len()
                    - 1] == a;
            lemma_walk_descends(g, Set::<int>::empty(), rank, there);
            lemma_walk_descends(g, Set::<int>::empty(), rank, back);
        }
    }
    let n = g.order() as int;
    let x = set_int_range(0, comps.len() as int);
    let y = set_int_range(0, n);
    let f = |i: int| comps[i]@[0] as int;
    lemma_int_range(0, comps.len() as int);
    lemma_int_range(0, n);
    assert(vstd::relations::injective_on(f, x)) by {
        assert forall|i: int, j: int|
            x.contains(i) && x.contains(j) && #[trigger] f(i) == #[trigger] f(j) implies i == j by {
            assert(comps[i]@[0] == comps[j]@[0]);
        }
    }
    assert(x.map(f) =~= y) by {
        assert forall|u: int| y.contains(u) implies x.map(f).contains(u) by {
            assert(occurs(comps, u as Node));
            let (i, k) = choose|i: int, k: int|
                0 <= i < comps.len() && 0 <= k < comps[i]@.len() && #[trigger] comps[i]@[k]
                    == u as Node;
            assert(comps[i]@.len() == 1);
            assert(k == 0);
            assert(x.contains(i) && f(i) == u);
        }
        assert forall|u: int| x.map(f).contains(u) implies y.contains(u) by {
            let i = choose|i: int| x.contains(i) && f(i) == u;
            assert(comps[i]@[0] < g.order());
        }
    }
    lemma_map_size(x, y, f);
}

/// A walk that starts in a component ends in that component or in an
/// earlier one.
pub proof fn lemma_walk_leads_back<G: AdjacencyList>(
    g: &G,
    comps: Seq<Vec<Node>>,
    walk: Seq<int>,
    i: int,
)
    requires
        g.order() <= u32::MAX,
        edges_lead_back(g, comps),
        is_walk(g, Set::<int>::empty(), walk),
        occurs_before(comps, walk[0] as Node, i + 1),
        i < comps.len(),
    ensures
        occurs_before(comps, walk[walk.len() - 1] as Node, i + 1),
    decreases walk.len(),
{
    if walk.len() >= 2 {
        let last = walk.len() - 1;
        let shorter = walk.take(last);
        assert forall|j: int| 0 <= j < shorter.len() - 1 implies g.has_edge(
            #[trigger] shorter[j],
            shorter[j + 1],
        ) by {
            assert(g.has_edge(walk[j], walk[j + 1]));
        }
        lemma_walk_leads_back(g, comps, shorter, i);
        let u = walk[last - 1] as Node;
        let (i2, k2) = choose|i2: int, k2: int|
            0 <= i2 < i + 1 && i2 < comps.len() && 0 <= k2 < comps[i2]@.len()
                && #[trigger] comps[i2]@[k2] == u;
        assert(g.has_edge(walk[last - 1], walk[last - 1 + 1]));
        assert(g.has_edge(comps[i2]@[k2] as int, (walk[last] as Node) as int));
        assert(occurs_before(comps, walk[last] as Node, i2 + 1));
        let (i3, k3) = choose|i3: int, k3: int|
            0 <= i3 < i2 + 1 && i3 < comps.len() && 0 <= k3 < comps[i3]@.len()
                && #[trigger] comps[i3]@[k3] == walk[last] as Node;
        assert(0 <= i3 < i + 1 && comps[i3]@[k3] == walk[last] as Node);
    }
}

/// Two vertices that reach each other are listed in the same component.
pub proof fn lemma_same_component<G: AdjacencyList>(
    g: &G,
    comps: Seq<Vec<Node>>,
    i: int,
    k: int,
    j: int,
    l: int,
)
    requires
        g.order() <= u32::MAX,
        all_distinct(comps),
        edges_lead_back(g, comps),
        0 <= i < comps.len(),
        0 <= k < comps[i]@.len(),
        0 <= j < comps.len(),
        0 <= l < comps[j]@.len(),
        reaches(g, comps[i]@[k] as int, comps[j]@[l] as int),
        reaches(g, comps[j]@[l] as int, comps[i]@[k] as int),
    ensures
        i == j,
{
    let a = comps[i]@[k];
    let b = comps[j]@[l];
    let there = choose|walk: Seq<int>|
        #[trigger] is_walk(g, Set::<int>::empty(), walk) && walk[0] == a && walk[walk.len() - 1] == b;
    let back = choose|walk: Seq<int>|
        #[trigger] is_walk(g, Set::<int>::empty(), walk) && walk[0] == b && walk[walk.len() - 1] == a;
    assert(occurs_before(comps, there[0] as Node, i + 1));
    lemma_walk_leads_back(g, comps, there, i);
    let (i2, k2) = choose|i2: int, k2: int|
        0 <= i2 < i + 1 && i2 < comps.len() && 0 <= k2 < comps[i2]@.len() && #[trigger] comps[i2]@[k2]
            == b;
    assert(comps[i2]@[k2] == comps[j]@[l]);
    assert(j <= i);
    assert(occurs_before(comps, back[0] as Node, j + 1));
    lemma_walk_leads_back(g, comps, back, j);
    let (i3, k3) = choose|i3: int, k3: int|
        0 <= i3 < j + 1 && i3 < comps.len() && 0 <= k3 < comps[i3]@.len() && #[trigger] comps[i3]@[k3]
            == a;
    assert(comps[i3]@[k3] == comps[i]@[k]);
}

/// Where every vertex reaches every other, as on a single cycle through
/// all vertices, there is one component, and it lists them all.
pub proof fn lemma_one_component<G: AdjacencyList>(g: &G, comps: Seq<Vec<Node>>)
    requires
        1 <= g.order() <= u32::MAX,
        components_within(comps, g.order()),
        all_distinct(comps),
        all_listed(comps, g.order()),
        edges_lead_back(g, comps),
        forall|a: int, b: int| 0 <= a < g.order() && 0 <= b < g.order() ==> reaches(g, a, b),
    ensures
        comps.len() == 1,
        comps[0]@.len() == g.order(),
{
    assert(occurs(comps, 0u32));
    assert(comps[0]@.len() > 0);
    assert(comps[0]@[0] < g.order());
    if comps.len() > 1 {
        assert(comps[1]@.len() > 0);
        assert(comps[1]@[0] < g.order());
        lemma_same_component(g, comps, 1, 0, 0, 0);
    }
    let n = g.order() as int;
    let x = set_int_range(0, comps[0]@.len() as int);
    let y = set_int_range(0, n);
    let f = |k: int| comps[0]@[k] as int;
    lemma_int_range(0, comps[0]@.len() as int);
    lemma_int_range(0, n);
    assert(vstd::relations::injective_on(f, x)) by {
        assert forall|k: int, l: int|
            x.contains(k) && x.contains(l) && #[trigger] f(k) == #[trigger] f(l) implies k == l by {
            assert(comps[0]@[k] == comps[0]@[l]);
        }
    }
    assert(x.map(f) =~= y) by {
        assert forall|u: int| y.contains(u) implies x.map(f).contains(u) by {
            assert(occurs(comps, u as Node));
            let (i, k) = choose|i: int, k: int|
                0 <= i < comps.len() && 0 <= k < comps[i]@.len() && #[trigger] comps[i]@[k]
                    == u as Node;
            assert(comps[i]@[k] < g.order());
            lemma_same_component(g, comps, i, k, 0, 0);
            assert(x.contains(k) && f(k) == u);
        }
        assert forall|u: int| x.map(f).contains(u) implies y.contains(u) by {
            let k = choose|k: int| x.contains(k) && f(k) == u;
            assert(comps[0]@[k] < g.order());
        }
    }
    lemma_map_size(x, y, f);
}

/// Strongly connected components for every graph that lists its
/// out-neighbours.
pub trait Connectivity: AdjacencyList + Sized {
    /// The strongly connected components, each a list of its vertices.
    fn strongly_connected_components(&self) -> (r: Vec<Vec<Node>>)
        requires
            self.wf(),
            self.order() <= max_len(),
        ensures
            components_within(r@, self.order()),
            all_distinct(r@),
            all_listed(r@, self.order()),
            all_connected(self, r@),
            edges_lead_back(self, r@),
    ;
}

impl<T: AdjacencyList + Sized> Connectivity for T {
    fn strongly_connected_components(&self) -> (r: Vec<Vec<Node>>) {
        let sc = StronglyConnected::new(self);
        sc.find()
    }
}

} // verus!
