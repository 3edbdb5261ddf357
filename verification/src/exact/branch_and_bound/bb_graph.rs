//! A graph of at most 64 vertices in which every vertex keeps its
//! out-neighbours as one machine word.

use crate::bitset::{
    bit_at, count_true, count_upto, lemma_bit_masks, lemma_bit_ops, lemma_count_bounds,
    lemma_count_monotone, lemma_count_update, lemma_lowest_set, word_bit,
};
use crate::exact::branch_and_bound::included;
use crate::graph::{acyclic_without, is_numbering, AdjacencyList, Node};
use bitintr::Pext;
use vstd::prelude::*;
use vstd::std_specs::bits::u64_trailing_zeros;

verus! {

/// The bits of a word as a sequence of 64 booleans.
pub open spec fn bits_of(w: u64) -> Seq<bool> {
    Seq::new(64, |j: int| word_bit(w, j))
}

/// The number of set bits of a word.
pub open spec fn popcount(w: u64) -> nat {
    count_true(bits_of(w))
}

/// Every set bit of `a` is set in `b`.
pub open spec fn mask_subset(a: u64, b: u64) -> bool {
    forall|j: int| 0 <= j < 64 && #[trigger] word_bit(a, j) ==> word_bit(b, j)
}

/// The word with only bit `v` set.
pub fn single(v: usize) -> (w: u64)
    requires
        v < 64,
    ensures
        forall|j: int| 0 <= j < 64 ==> #[trigger] word_bit(w, j) == (j == v),
{
    let s = v as u64;
    let w = 1u64 << s;
    proof {
        assert forall|j: int| 0 <= j < 64 implies #[trigger] word_bit(w, j) == (j == v) by {
            let ju = j as u64;
            assert((((1u64 << s) >> ju) & 1u64 == 1u64) <==> ju == s) by (bit_vector)
                requires
                    ju < 64,
                    s < 64,
            ;
        }
    }
    w
}

/// Whether bit `v` of `w` is set.
pub fn test_bit(w: u64, v: usize) -> (r: bool)
    requires
        v < 64,
    ensures
        r == word_bit(w, v as int),
{
    (w >> (v as u64)) & 1u64 == 1u64
}

/// The word with exactly the bits below `n` set.
pub fn low_bits(n: usize) -> (w: u64)
    requires
        n <= 64,
    ensures
        forall|j: int| 0 <= j < 64 ==> #[trigger] word_bit(w, j) == (j < n),
{
    if n == 64 {
        proof {
            assert forall|j: int| 0 <= j < 64 implies #[trigger] word_bit(u64::MAX, j) by {
                lemma_bit_ops(0, 0, j);
            }
        }
        u64::MAX
    } else {
        let r = n as u64;
        proof {
            lemma_bit_masks(u64::MAX, r, 0);
        }
        let w = u64::MAX & ((1u64 << r) - 1);
        proof {
            assert forall|j: int| 0 <= j < 64 implies #[trigger] word_bit(w, j) == (j < n) by {
                lemma_bit_masks(u64::MAX, r, j);
                lemma_bit_ops(0, 0, j);
            }
        }
        w
    }
}

/// A word is zero exactly when none of its bits is set.
pub proof fn lemma_zero_word(w: u64)
    ensures
        w == 0 <==> (forall|j: int| 0 <= j < 64 ==> !#[trigger] word_bit(w, j)),
{
    lemma_lowest_set(w);
    if w != 0 {
        assert(word_bit(w, u64_trailing_zeros(w) as int));
    }
}

/// Two words with the same bits are equal.
pub proof fn lemma_same_bits(a: u64, b: u64)
    requires
        forall|j: int| 0 <= j < 64 ==> #[trigger] word_bit(a, j) == word_bit(b, j),
    ensures
        a == b,
{
    let d = (a & !b) | (b & !a);
    assert(d == 0 ==> a == b) by (bit_vector)
        requires
            d == (a & !b) | (b & !a),
    ;
    lemma_zero_word(d);
    assert forall|j: int| 0 <= j < 64 implies !#[trigger] word_bit(d, j) by {
        lemma_bit_ops(a, b, j);
        lemma_bit_ops(b, a, j);
        lemma_bit_ops(a & !b, b & !a, j);
    }
}

/// A subset has at most as many bits, and fewer if it is a proper one.
pub proof fn lemma_popcount_subset(a: u64, b: u64)
    requires
        mask_subset(a, b),
    ensures
        popcount(a) <= popcount(b),
        popcount(b) <= 64,
        a != b ==> popcount(a) < popcount(b),
{
    lemma_count_bounds(bits_of(b), 64);
    assert forall|i: int| 0 <= i < 64 && bit_at(bits_of(a), i) implies bit_at(bits_of(b), i) by {
        assert(word_bit(a, i));
    }
    lemma_count_monotone(bits_of(a), bits_of(b), 64);
    if a != b {
        if forall|j: int| 0 <= j < 64 ==> #[trigger] word_bit(a, j) == word_bit(b, j) {
            lemma_same_bits(a, b);
        }
        let j = choose|j: int| 0 <= j < 64 && #[trigger] word_bit(a, j) != word_bit(b, j);
        assert(word_bit(b, j) && !word_bit(a, j));
        let mid = bits_of(b).update(j, false);
        lemma_count_update(bits_of(b), j, false, 64);
        assert forall|i: int| 0 <= i < 64 && bit_at(bits_of(a), i) implies bit_at(mid, i) by {
            assert(word_bit(a, i));
        }
        lemma_count_monotone(bits_of(a), mid, 64);
    }
}

/// Two disjoint words have, together, the bits of both.
pub proof fn lemma_popcount_disjoint(a: u64, b: u64, k: nat)
    requires
        a & b == 0,
        k <= 64,
    ensures
        count_upto(bits_of(a | b), k) == count_upto(bits_of(a), k) + count_upto(bits_of(b), k),
    decreases k,
{
    if k > 0 {
        lemma_popcount_disjoint(a, b, (k - 1) as nat);
        lemma_bit_ops(a, b, k - 1);
        lemma_zero_word(a & b);
        assert(!word_bit(a & b, k - 1));
    }
}

/// The bits of `x` at the set positions of `mask` below `k`, in ascending
/// order of position.
pub open spec fn packed(x: u64, mask: u64, k: nat) -> Seq<bool>
    decreases k,
{
    if k == 0 {
        Seq::empty()
    } else {
        let rest = packed(x, mask, (k - 1) as nat);
        if word_bit(mask, k - 1) {
            rest.push(word_bit(x, k - 1))
        } else {
            rest
        }
    }
}

/// The low bits of `r` are the bits of `x` that `mask` selects, in order,
/// and its other bits are unset.
pub open spec fn is_packed(r: u64, x: u64, mask: u64) -> bool {
    forall|j: int|
        0 <= j < 64 ==> #[trigger] word_bit(r, j) == (j < packed(x, mask, 64).len() && packed(
            x,
            mask,
            64,
        )[j])
}

/// The set positions of `mask` below `k`, in ascending order.
pub open spec fn positions(mask: u64, k: nat) -> Seq<int>
    decreases k,
{
    if k == 0 {
        Seq::empty()
    } else {
        let rest = positions(mask, (k - 1) as nat);
        if word_bit(mask, k - 1) {
            rest.push(k - 1)
        } else {
            rest
        }
    }
}

/// The packed bit at place `j` is the bit of `x` at the `j`-th set position
/// of the mask.
pub proof fn lemma_packed_positions(x: u64, mask: u64, k: nat)
    ensures
        packed(x, mask, k).len() == positions(mask, k).len(),
        forall|j: int|
            0 <= j < positions(mask, k).len() ==> #[trigger] packed(x, mask, k)[j] == word_bit(
                x,
                positions(mask, k)[j],
            ),
    decreases k,
{
    if k > 0 {
        lemma_packed_positions(x, mask, (k - 1) as nat);
    }
}

/// As many bits are packed as the mask selects.
pub proof fn lemma_packed_len(x: u64, mask: u64, k: nat)
    requires
        k <= 64,
    ensures
        packed(x, mask, k).len() == count_upto(bits_of(mask), k),
    decreases k,
{
    if k > 0 {
        lemma_packed_len(x, mask, (k - 1) as nat);
    }
}

/// `bitintr::Pext::pext` on 64-bit words: gathers the bits of `x` that
/// `mask` selects into the low end of the result, in order, and leaves the
/// rest zero. With all 64 bits selected the portable routine overflows,
/// which `requires` excludes.
#[verifier::external_body]
fn extract_bits(x: u64, mask: u64) -> (r: u64)
    requires
        mask != u64::MAX,
    ensures
        is_packed(r, x, mask),
{
    x.pext(mask)
}

/// A graph on the vertices `0..n`, `n <= 64`, of which some are active. For
/// every vertex one word holds its out-neighbours and one its in-neighbours;
/// only active vertices have or are neighbours.
pub struct IntGraph {
    out_masks: Vec<u64>,
    in_masks: Vec<u64>,
    active: u64,
}

/// The in-neighbour words that belong to the out-neighbour words `out`:
/// bit `u` of word `w` is bit `w` of `out[u]`.
fn transposed(out: &Vec<u64>) -> (r: Vec<u64>)
    requires
        out@.len() <= 64,
    ensures
        r@.len() == out@.len(),
        forall|w: int, j: int|
            0 <= w < out@.len() && 0 <= j < 64 ==> #[trigger] word_bit(r@[w], j) == (j < out@.len()
                && word_bit(out@[j], w)),
{
    let n = out.len();
    let mut r: Vec<u64> = Vec::new();
    let mut w: usize = 0;
    while w < n
        invariant
            n == out@.len(),
            n <= 64,
            w <= n,
            r@.len() == w,
            forall|a: int, j: int|
                0 <= a < w && 0 <= j < 64 ==> #[trigger] word_bit(r@[a], j) == (j < n && word_bit(
                    out@[j],
                    a,
                )),
        decreases n - w,
    {
        let mut m: u64 = 0;
        let mut u: usize = 0;
        proof {
            assert forall|j: int| 0 <= j < 64 implies !#[trigger] word_bit(0u64, j) by {
                lemma_bit_ops(0, 0, j);
            }
        }
        while u < n
            invariant
                n == out@.len(),
                n <= 64,
                w < n,
                u <= n,
                forall|j: int|
                    0 <= j < 64 ==> #[trigger] word_bit(m, j) == (j < u && word_bit(out@[j], w as int)),
            decreases n - u,
        {
            if test_bit(out[u], w) {
                let b = single(u);
                let ghost before = m;
                m = m | b;
                proof {
                    assert forall|j: int| 0 <= j < 64 implies #[trigger] word_bit(m, j) == (j < u + 1
                        && word_bit(out@[j], w as int)) by {
                        lemma_bit_ops(before, b, j);
                    }
                }
            }
            u += 1;
        }
        r.push(m);
        w += 1;
    }
    r
}

impl IntGraph {
    /// The neighbour words, one per vertex.
    pub closed spec fn masks(&self) -> Seq<u64> {
        self.out_masks@
    }

    /// The in-neighbour words, one per vertex.
    pub closed spec fn in_words(&self) -> Seq<u64> {
        self.in_masks@
    }

    /// The word of active vertices.
    pub closed spec fn active_mask(&self) -> u64 {
        self.active
    }

    /// At most 64 vertices, only vertices are active, every edge joins two
    /// active vertices, and the in-neighbour words mirror the out-neighbour
    /// words.
    pub open spec fn valid(&self) -> bool {
        &&& self.masks().len() <= 64
        &&& self.in_words().len() == self.masks().len()
        &&& forall|w: int, j: int|
            0 <= w < self.masks().len() && 0 <= j < 64 ==> #[trigger] word_bit(self.in_words()[w], j)
                == (j < self.masks().len() && word_bit(self.masks()[j], w))
        &&& forall|j: int|
            0 <= j < 64 && #[trigger] word_bit(self.active_mask(), j) ==> j < self.masks().len()
        &&& forall|u: int, j: int|
            0 <= u < self.masks().len() && 0 <= j < 64 && #[trigger] word_bit(self.masks()[u], j)
                ==> word_bit(self.active_mask(), u) && word_bit(self.active_mask(), j)
    }

    /// The word of active vertices.
    pub fn active(&self) -> (r: u64)
        ensures
            r == self.active_mask(),
    {
        self.active
    }

    /// The out-neighbours of `u` as a word.
    pub fn out_mask(&self, u: usize) -> (r: u64)
        requires
            u < self.masks().len(),
        ensures
            r == self.masks()[u as int],
    {
        self.out_masks[u]
    }

    /// The in-neighbours of `u` as a word.
    pub fn in_mask(&self, u: usize) -> (r: u64)
        requires
            u < self.masks().len(),
            self.valid(),
        ensures
            r == self.in_words()[u as int],
            forall|j: int| 0 <= j < 64 ==> #[trigger] word_bit(r, j) == self.has_edge(j, u as int),
    {
        self.in_masks[u]
    }

    /// Encodes a graph of at most 64 vertices, all of them active.
    pub fn from_graph<G: AdjacencyList>(graph: &G) -> (r: Self)
        requires
            graph.wf(),
            graph.order() <= 64,
        ensures
            r.valid(),
            r.order() == graph.order(),
            forall|j: int| 0 <= j < 64 ==> #[trigger] word_bit(r.active_mask(), j) == (j < graph.order()),
            forall|u: int, w: int| r.has_edge(u, w) == (0 <= u < graph.order() && 0 <= w < graph.order() && graph.has_edge(u, w)),
    {
        let n = graph.len();
        let active = low_bits(n);
        let mut out_masks: Vec<u64> = Vec::new();
        let mut u: usize = 0;
        while u < n
            invariant
                graph.wf(),
                n == graph.order(),
                n <= 64,
                u <= n,
                out_masks@.len() == u,
                forall|a: int, j: int|
                    0 <= a < u && 0 <= j < 64 ==> #[trigger] word_bit(out_masks@[a], j) == (j < n
                        && graph.has_edge(a, j)),
            decreases n - u,
        {
            let neighbors = graph.out_neighbors(u as Node);
            let mut m: u64 = 0;
            let mut k: usize = 0;
            proof {
                assert forall|j: int| 0 <= j < 64 implies !#[trigger] word_bit(0u64, j) by {
                    lemma_bit_ops(0, 0, j);
                }
            }
            while k < neighbors.len()
                invariant
                    k <= neighbors@.len(),
                    n <= 64,
                    forall|i: int| 0 <= i < neighbors@.len() ==> #[trigger] neighbors@[i] < n,
                    forall|j: int|
                        0 <= j < 64 ==> #[trigger] word_bit(m, j) == neighbors@.take(
                            k as int,
                        ).contains(j as Node),
                decreases neighbors@.len() - k,
            {
                let w = neighbors[k];
                let b = single(w as usize);
                let ghost before = m;
                m = m | b;
                proof {
                    let done = neighbors@.take(k as int);
                    let next = neighbors@.take(k + 1);
                    assert(next == done.push(w));
                    assert forall|j: int| 0 <= j < 64 implies #[trigger] word_bit(m, j)
                        == next.contains(j as Node) by {
                        lemma_bit_ops(before, b, j);
                        if done.contains(j as Node) {
                            let i = choose|i: int| 0 <= i < done.len() && done[i] == j as Node;
                            assert(next[i] == j as Node);
                        }
                        if j == w {
                            assert(next[k as int] == j as Node);
                        }
                        if next.contains(j as Node) {
                            let i = choose|i: int| 0 <= i < next.len() && next[i] == j as Node;
                            if i < k {
                                assert(done[i] == j as Node);
                            }
                        }
                    }
                }
                k += 1;
            }
            proof {
                assert(neighbors@.take(k as int) == neighbors@);
                assert forall|j: int| 0 <= j < 64 implies #[trigger] word_bit(m, j) == (j < n
                    && graph.has_edge(u as int, j)) by {
                    if neighbors@.contains(j as Node) {
                        let i = choose|i: int| 0 <= i < neighbors@.len() && neighbors@[i] == j as Node;
                        assert(neighbors@[i] < n);
                    }
                    if j < n {
                        assert(graph.has_edge(u as int, j) <==> neighbors@.contains(j as Node));
                    }
                }
            }
            out_masks.push(m);
            u += 1;
        }
        let in_masks = transposed(&out_masks);
        IntGraph { out_masks, in_masks, active }
    }

    /// The graph that is left when the vertices of `gone` are removed: they
    /// become inactive, and no edge leads to or from them any more.
    pub fn without(&self, gone: u64) -> (r: Self)
        requires
            self.valid(),
        ensures
            r.valid(),
            r.masks().len() == self.masks().len(),
            forall|j: int|
                0 <= j < 64 ==> #[trigger] word_bit(r.active_mask(), j) == (word_bit(
                    self.active_mask(),
                    j,
                ) && !word_bit(gone, j)),
            forall|u: int, j: int|
                0 <= u < self.masks().len() && 0 <= j < 64 ==> #[trigger] word_bit(r.masks()[u], j)
                    == (word_bit(self.masks()[u], j) && !word_bit(gone, u) && !word_bit(gone, j)),
    {
        let n = self.out_masks.len();
        let mut out_masks: Vec<u64> = Vec::new();
        let mut in_masks: Vec<u64> = Vec::new();
        let mut u: usize = 0;
        while u < n
            invariant
                n == self.out_masks@.len(),
                n == self.in_masks@.len(),
                n <= 64,
                u <= n,
                out_masks@.len() == u,
                in_masks@.len() == u,
                forall|a: int, j: int|
                    0 <= a < u && 0 <= j < 64 ==> #[trigger] word_bit(out_masks@[a], j) == (word_bit(
                        self.out_masks@[a],
                        j,
                    ) && !word_bit(gone, a) && !word_bit(gone, j)),
                forall|a: int, j: int|
                    0 <= a < u && 0 <= j < 64 ==> #[trigger] word_bit(in_masks@[a], j) == (word_bit(
                        self.in_masks@[a],
                        j,
                    ) && !word_bit(gone, a) && !word_bit(gone, j)),
            decreases n - u,
        {
            let old_mask = self.out_masks[u];
            let old_in = self.in_masks[u];
            let m = if test_bit(gone, u) { 0 } else { old_mask & !gone };
            let m_in = if test_bit(gone, u) { 0 } else { old_in & !gone };
            proof {
                assert forall|j: int| 0 <= j < 64 implies #[trigger] word_bit(m, j) == (word_bit(
                    old_mask,
                    j,
                ) && !word_bit(gone, u as int) && !word_bit(gone, j)) by {
                    lemma_bit_ops(old_mask, gone, j);
                }
                assert forall|j: int| 0 <= j < 64 implies #[trigger] word_bit(m_in, j) == (word_bit(
                    old_in,
                    j,
                ) && !word_bit(gone, u as int) && !word_bit(gone, j)) by {
                    lemma_bit_ops(old_in, gone, j);
                }
            }
            out_masks.push(m);
            in_masks.push(m_in);
            u += 1;
        }
        let active = self.active & !gone;
        proof {
            assert forall|j: int| 0 <= j < 64 implies #[trigger] word_bit(active, j) == (word_bit(
                self.active,
                j,
            ) && !word_bit(gone, j)) by {
                lemma_bit_ops(self.active, gone, j);
            }
        }
        let r = IntGraph { out_masks, in_masks, active };
        proof {
            assert forall|w: int, j: int|
                0 <= w < r.masks().len() && 0 <= j < 64 implies #[trigger] word_bit(
                r.in_words()[w],
                j,
            ) == (j < r.masks().len() && word_bit(r.masks()[j], w)) by {
                assert(word_bit(self.in_words()[w], j) == (j < self.masks().len() && word_bit(
                    self.masks()[j],
                    w,
                )));
            }
            assert forall|j: int| 0 <= j < 64 && #[trigger] word_bit(r.active_mask(), j) implies j
                < r.masks().len() by {
                assert(word_bit(self.active_mask(), j));
            }
            assert forall|u: int, j: int|
                0 <= u < r.masks().len() && 0 <= j < 64 && #[trigger] word_bit(
                    r.masks()[u],
                    j,
                ) implies word_bit(r.active_mask(), u) && word_bit(r.active_mask(), j) by {
                assert(word_bit(self.masks()[u], j));
            }
        }
        r
    }

    /// Removes the vertex `v`: it becomes inactive and is cleared from every
    /// out-neighbour and in-neighbour word.
    pub fn remove_vertex(&mut self, v: usize)
        requires
            old(self).valid(),
            v < 64,
        ensures
            final(self).valid(),
            final(self).masks().len() == old(self).masks().len(),
            forall|j: int|
                0 <= j < 64 ==> #[trigger] word_bit(final(self).active_mask(), j) == (word_bit(
                    old(self).active_mask(),
                    j,
                ) && j != v),
            forall|u: int, j: int|
                0 <= u < old(self).masks().len() && 0 <= j < 64 ==> #[trigger] word_bit(
                    final(self).masks()[u],
                    j,
                ) == (word_bit(old(self).masks()[u], j) && u != v && j != v),
    {
        let gone = single(v);
        let next = self.without(gone);
        *self = next;
    }

    /// Whether the vertex `v` has an edge to itself.
    pub fn has_self_loop(&self, v: usize) -> (r: bool)
        requires
            v < self.masks().len(),
            self.valid(),
        ensures
            r == self.has_edge(v as int, v as int),
    {
        test_bit(self.out_masks[v], v)
    }
}

impl AdjacencyList for IntGraph {
    open spec fn wf(&self) -> bool {
        self.valid()
    }

    open spec fn order(&self) -> nat {
        self.masks().len()
    }

    open spec fn has_edge(&self, u: int, v: int) -> bool {
        0 <= u < self.masks().len() && 0 <= v < self.masks().len() && word_bit(self.masks()[u], v)
    }

    fn len(&self) -> (r: usize) {
        self.out_masks.len()
    }

    fn number_of_nodes(&self) -> (r: Node) {
        self.out_masks.len() as Node
    }

    fn out_neighbors(&self, u: Node) -> (r: Vec<Node>) {
        let n = self.out_masks.len();
        let m = self.out_masks[u as usize];
        let mut r: Vec<Node> = Vec::new();
        let mut j: usize = 0;
        while j < n
            invariant
                n == self.out_masks@.len(),
                n <= 64,
                j <= n,
                forall|k: int| 0 <= k < r@.len() ==> #[trigger] r@[k] < j && word_bit(m, r@[k] as int),
                forall|w: int| 0 <= w < j && word_bit(m, w) ==> r@.contains(w as Node),
            decreases n - j,
        {
            if test_bit(m, j) {
                let ghost before = r@;
                r.push(j as Node);
                proof {
                    assert forall|w: int| 0 <= w < j + 1 && word_bit(m, w) implies r@.contains(
                        w as Node,
                    ) by {
                        if w < j {
                            let i = choose|i: int| 0 <= i < before.len() && before[i] == w as Node;
                            assert(r@[i] == w as Node);
                        } else {
                            assert(r@[before.len() as int] == w as Node);
                        }
                    }
                }
            }
            j += 1;
        }
        proof {
            assert forall|w: int| 0 <= w < self.order() implies (#[trigger] self.has_edge(
                u as int,
                w,
            ) <==> r@.contains(w as Node)) by {
                if r@.contains(w as Node) {
                    let i = choose|i: int| 0 <= i < r@.len() && r@[i] == w as Node;
                    assert(word_bit(m, r@[i] as int));
                }
            }
        }
        r
    }
}

/// Where every vertex of `rest` has an out-neighbour in `rest`, no numbering
/// can fall along every edge: from any vertex of `rest` one could descend
/// for ever.
proof fn lemma_descent(g: &IntGraph, rest: u64, rank: spec_fn(int) -> nat, x: int)
    requires
        g.valid(),
        0 <= x < 64,
        word_bit(rest, x),
        mask_subset(rest, g.active_mask()),
        forall|y: int|
            0 <= y < g.masks().len() && word_bit(rest, y) ==> (#[trigger] g.masks()[y]) & rest != 0,
    ensures
        !is_numbering(g, Set::<int>::empty(), rank),
    decreases rank(x),
{
    if is_numbering(g, Set::<int>::empty(), rank) {
        assert(word_bit(g.active_mask(), x));
        let m = g.masks()[x] & rest;
        lemma_lowest_set(m);
        let w = u64_trailing_zeros(m) as int;
        lemma_bit_ops(g.masks()[x], rest, w);
        assert(word_bit(g.masks()[x], w));
        assert(g.has_edge(x, w));
        lemma_descent(g, rest, rank, w);
    }
}

impl IntGraph {
    /// Whether the graph has no cycle. Vertices without an out-neighbour
    /// among those that are left are taken away one by one; the graph is
    /// acyclic exactly when this takes all of them away.
    pub fn is_acyclic(&self) -> (r: bool)
        requires
            self.valid(),
        ensures
            r == acyclic_without(self, Set::<int>::empty()),
    {
        let n = self.out_masks.len();
        let mut rest = self.active;
        let ghost mut rank: Seq<nat> = Seq::new(64, |i: int| 0nat);
        let ghost mut steps: nat = 0;
        loop
            invariant
                self.valid(),
                n == self.out_masks@.len(),
                mask_subset(rest, self.active),
                rank.len() == 64,
                forall|u: int| 0 <= u < 64 ==> #[trigger] rank[u] <= steps,
                forall|u: int, w: int|
                    #[trigger] self.has_edge(u, w) && !word_bit(rest, u) ==> !word_bit(rest, w)
                        && rank[w] < rank[u],
            decreases popcount(rest),
        {
            let mut u: usize = 0;
            let mut found = false;
            while u < n && !found
                invariant
                    n == self.out_masks@.len(),
                    n <= 64,
                    u <= n,
                    found ==> u < n && word_bit(rest, u as int) && self.out_masks@[u as int] & rest
                        == 0,
                    forall|y: int|
                        0 <= y < u && word_bit(rest, y) ==> (#[trigger] self.out_masks@[y]) & rest
                            != 0,
                decreases n - u + if found { 0int } else { 1int },
            {
                if test_bit(rest, u) && self.out_masks[u] & rest == 0 {
                    found = true;
                } else {
                    u += 1;
                }
            }
            if !found {
                if rest == 0 {
                    proof {
                        lemma_zero_word(rest);
                        let f = |u: int| if 0 <= u < 64 { rank[u] } else { 0nat };
                        assert(is_numbering(self, Set::<int>::empty(), f)) by {
                            assert forall|a: int, b: int|
                                0 <= a < self.order() && 0 <= b < self.order()
                                    && #[trigger] self.has_edge(a, b) implies f(a) > f(b) by {
                                assert(!word_bit(rest, a));
                            }
                        }
                    }
                    return true;
                }
                proof {
                    lemma_lowest_set(rest);
                    let x = u64_trailing_zeros(rest) as int;
                    assert forall|rk: spec_fn(int) -> nat|
                        !is_numbering(self, Set::<int>::empty(), rk) by {
                        lemma_descent(self, rest, rk, x);
                    }
                }
                return false;
            }
            let b = single(u);
            let ghost before = rest;
            let ghost old_rank = rank;
            rest = rest & !b;
            proof {
                rank = rank.update(u as int, steps + 1);
                steps = steps + 1;
                lemma_zero_word(self.out_masks@[u as int] & before);
                assert forall|j: int| 0 <= j < 64 implies #[trigger] word_bit(rest, j) == (word_bit(
                    before,
                    j,
                ) && j != u) by {
                    lemma_bit_ops(before, b, j);
                }
                assert(mask_subset(rest, before));
                assert(word_bit(before, u as int) && !word_bit(rest, u as int));
                lemma_popcount_subset(rest, before);
                assert forall|a: int, c: int|
                    #[trigger] self.has_edge(a, c) && !word_bit(rest, a) implies !word_bit(rest, c)
                    && rank[c] < rank[a] by {
                    if a == u {
                        lemma_bit_ops(self.out_masks@[u as int], before, c);
                        assert(!word_bit(self.out_masks@[u as int] & before, c));
                        assert(!word_bit(before, c));
                        assert(old_rank[c] <= steps - 1);
                    } else {
                        assert(!word_bit(before, a));
                        assert(!word_bit(before, c) && old_rank[c] < old_rank[a]);
                    }
                }
            }
        }
    }
}

impl IntGraph {
    /// The part of the graph on `verts`, renumbered: the vertices of
    /// `verts` become `0, 1, ..` in ascending order, and every neighbour
    /// word is packed accordingly. The list gives the old vertex of each
    /// new one.
    pub fn compacted(&self, verts: u64) -> (r: (IntGraph, Vec<Node>))
        requires
            self.valid(),
            verts != u64::MAX,
        ensures
            r.0.valid(),
            r.0.order() == r.1@.len(),
            r.1@.len() == popcount(verts),
            forall|j: int| 0 <= j < 64 ==> #[trigger] word_bit(r.0.active_mask(), j) == (j < r.1@.len()),
            forall|a: int, b: int| 0 <= a < b < r.1@.len() ==> r.1@[a] < r.1@[b],
            forall|k: int|
                0 <= k < r.1@.len() ==> #[trigger] r.1@[k] < 64 && word_bit(verts, r.1@[k] as int),
            forall|k: int|
                0 <= k < r.1@.len() ==> is_packed(
                    #[trigger] r.0.masks()[k],
                    if r.1@[k] < self.masks().len() {
                        self.masks()[r.1@[k] as int]
                    } else {
                        0
                    },
                    verts,
                ),
            forall|j: int| 0 <= j < 64 && word_bit(verts, j) ==> r.1@.contains(j as Node),
            forall|a: int, b: int|
                #[trigger] r.0.has_edge(a, b) == (0 <= a < r.1@.len() && 0 <= b < r.1@.len()
                    && self.has_edge(r.1@[a] as int, r.1@[b] as int)),
    {
        let ids = included(verts);
        let n = self.out_masks.len();
        let count = ids.len();
        proof {
            lemma_count_bounds(bits_of(verts), 64);
        }
        let active = low_bits(count);
        let mut out_masks: Vec<u64> = Vec::new();
        let mut k: usize = 0;
        while k < count
            invariant
                k <= count,
                count == ids@.len(),
                count == popcount(verts),
                count <= 64,
                n == self.out_masks@.len(),
                verts != u64::MAX,
                out_masks@.len() == k,
                forall|i: int| 0 <= i < ids@.len() ==> #[trigger] ids@[i] < 64,
                forall|i: int|
                    0 <= i < k ==> is_packed(
                        #[trigger] out_masks@[i],
                        if ids@[i] < n {
                            self.out_masks@[ids@[i] as int]
                        } else {
                            0
                        },
                        verts,
                    ),
            decreases count - k,
        {
            let old_id = ids[k] as usize;
            let x = if old_id < n { self.out_masks[old_id] } else { 0 };
            out_masks.push(extract_bits(x, verts));
            k += 1;
        }
        let in_masks = transposed(&out_masks);
        let r = IntGraph { out_masks, in_masks, active };
        proof {
            assert forall|u: int, j: int|
                0 <= u < r.masks().len() && 0 <= j < 64 && #[trigger] word_bit(
                    r.masks()[u],
                    j,
                ) implies word_bit(r.active_mask(), u) && word_bit(r.active_mask(), j) by {
                let x = if ids@[u] < n { self.out_masks@[ids@[u] as int] } else { 0 };
                assert(is_packed(r.masks()[u], x, verts));
                lemma_packed_len(x, verts, 64);
            }
            assert forall|a: int, b: int|
                #[trigger] r.has_edge(a, b) == (0 <= a < ids@.len() && 0 <= b < ids@.len()
                    && self.has_edge(ids@[a] as int, ids@[b] as int)) by {
                if 0 <= a < ids@.len() && 0 <= b < ids@.len() {
                    let x = if ids@[a] < n { self.out_masks@[ids@[a] as int] } else { 0 };
                    assert(is_packed(r.masks()[a], x, verts));
                    lemma_packed_positions(x, verts, 64);
                    assert(ids@[b] as int == positions(verts, 64)[b]);
                    assert(word_bit(r.masks()[a], b) == word_bit(x, ids@[b] as int));
                    lemma_bit_ops(0, 0, ids@[b] as int);
                    if ids@[a] < n && word_bit(x, ids@[b] as int) {
                        assert(word_bit(self.active_mask(), ids@[b] as int));
                    }
                }
            }
        }
        (r, ids)
    }
}

} // verus!
