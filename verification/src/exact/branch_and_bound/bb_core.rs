//! What the search computes, and why each of its steps keeps that.

use crate::bitset::{bit_at, lemma_bit_ops, lemma_count_extremes, lemma_count_update, word_bit};
use crate::exact::branch_and_bound::bb_graph::{
    bits_of, lemma_popcount_disjoint, lemma_popcount_subset, lemma_same_bits, lemma_zero_word,
    mask_subset, popcount, IntGraph,
};
use crate::graph::connectivity::{
    all_connected, all_distinct, all_listed, components_within, edges_lead_back, occurs,
    occurs_before, strongly_connected,
};
use crate::graph::{acyclic_without, is_numbering, is_walk, reaches, AdjacencyList, Node};
use vstd::prelude::*;

verus! {

/// No bit is set in both words.
pub open spec fn disjoint_masks(a: u64, b: u64) -> bool {
    forall|j: int| 0 <= j < 64 ==> !(#[trigger] word_bit(a, j) && word_bit(b, j))
}

/// `rank` falls along every edge between two vertices of `verts` that are
/// not in `s`.
pub open spec fn numbers_in(g: &IntGraph, verts: u64, s: u64, rank: spec_fn(int) -> nat) -> bool {
    forall|u: int, w: int|
        #[trigger] g.has_edge(u, w) && word_bit(verts, u) && word_bit(verts, w) && !word_bit(s, u)
            && !word_bit(s, w) ==> rank(u) > rank(w)
}

/// The vertices of `verts` that are not in `s` span no cycle.
pub open spec fn acyclic_in(g: &IntGraph, verts: u64, s: u64) -> bool {
    exists|rank: spec_fn(int) -> nat| numbers_in(g, verts, s, rank)
}

/// `t` is a set of vertices of `verts`, none of them forbidden, whose
/// removal leaves `verts` without a cycle.
pub open spec fn feasible(g: &IntGraph, verts: u64, forbidden: u64, t: u64) -> bool {
    mask_subset(t, verts) && disjoint_masks(t, forbidden) && acyclic_in(g, verts, t)
}

/// Every feasible set has at least `bound` vertices.
pub open spec fn least(g: &IntGraph, verts: u64, forbidden: u64, bound: nat) -> bool {
    forall|t: u64| #[trigger] feasible(g, verts, forbidden, t) ==> popcount(t) >= bound
}

/// `r` is what the search owes: a feasible set of fewer than `limit`
/// vertices that no feasible set undercuts, with its size; or nothing, where
/// every feasible set has `limit` vertices or more.
pub open spec fn answers(
    g: &IntGraph,
    verts: u64,
    forbidden: u64,
    limit: nat,
    r: Option<(u64, usize)>,
) -> bool {
    match r {
        Some((s, c)) => feasible(g, verts, forbidden, s) && c == popcount(s) && c < limit
            && least(g, verts, forbidden, c as nat),
        None => least(g, verts, forbidden, limit),
    }
}

/// Two words are disjoint exactly when their conjunction is zero.
pub proof fn lemma_disjoint_zero(a: u64, b: u64)
    ensures
        disjoint_masks(a, b) <==> a & b == 0,
{
    lemma_zero_word(a & b);
    if a & b == 0 {
        assert forall|j: int| 0 <= j < 64 implies !(#[trigger] word_bit(a, j) && word_bit(b, j)) by {
            lemma_bit_ops(a, b, j);
            assert(!word_bit(a & b, j));
        }
    }
    if disjoint_masks(a, b) {
        assert forall|j: int| 0 <= j < 64 implies !#[trigger] word_bit(a & b, j) by {
            lemma_bit_ops(a, b, j);
        }
    }
}

/// A word without bits is zero and has no bits to count, and conversely.
pub proof fn lemma_popcount_zero(t: u64)
    ensures
        popcount(t) == 0 <==> t == 0,
{
    lemma_zero_word(t);
    lemma_count_extremes(bits_of(t), 64);
    if t == 0 {
        assert forall|i: int| 0 <= i < 64 implies !bit_at(bits_of(t), i) by {
            assert(!word_bit(t, i));
        }
    }
    if popcount(t) == 0 {
        assert forall|j: int| 0 <= j < 64 implies !#[trigger] word_bit(t, j) by {
            assert(!bit_at(bits_of(t), j));
        }
    }
}

/// The bits of `t` inside two disjoint words add up.
pub proof fn lemma_count_parts(t: u64, a: u64, b: u64)
    requires
        disjoint_masks(a, b),
    ensures
        popcount(t & (a | b)) == popcount(t & a) + popcount(t & b),
        popcount(t & (a | b)) <= popcount(t),
{
    let x = t & a;
    let y = t & b;
    assert forall|j: int| 0 <= j < 64 implies !(#[trigger] word_bit(x, j) && word_bit(y, j)) by {
        lemma_bit_ops(t, a, j);
        lemma_bit_ops(t, b, j);
    }
    lemma_disjoint_zero(x, y);
    lemma_popcount_disjoint(x, y, 64);
    assert forall|j: int| 0 <= j < 64 implies #[trigger] word_bit(x | y, j) == word_bit(
        t & (a | b),
        j,
    ) by {
        lemma_bit_ops(t, a, j);
        lemma_bit_ops(t, b, j);
        lemma_bit_ops(x, y, j);
        lemma_bit_ops(a, b, j);
        lemma_bit_ops(t, a | b, j);
    }
    lemma_same_bits(x | y, t & (a | b));
    assert forall|j: int| 0 <= j < 64 && #[trigger] word_bit(t & (a | b), j) implies word_bit(t, j) by {
        lemma_bit_ops(t, a | b, j);
    }
    lemma_popcount_subset(t & (a | b), t);
}

/// A word that holds `part` has the bits of `part` and those beside it.
pub proof fn lemma_count_with(t: u64, part: u64)
    requires
        mask_subset(part, t),
    ensures
        popcount(t) == popcount(t & !part) + popcount(part),
{
    let x = t & !part;
    assert forall|j: int| 0 <= j < 64 implies !(#[trigger] word_bit(x, j) && word_bit(part, j)) by {
        lemma_bit_ops(t, part, j);
    }
    lemma_disjoint_zero(x, part);
    lemma_popcount_disjoint(x, part, 64);
    assert forall|j: int| 0 <= j < 64 implies #[trigger] word_bit(x | part, j) == word_bit(t, j) by {
        lemma_bit_ops(t, part, j);
        lemma_bit_ops(x, part, j);
    }
    lemma_same_bits(x | part, t);
}

/// The encoded graph cut down to `verts` is acyclic exactly when `verts`
/// spans no cycle.
pub proof fn lemma_sub_acyclic(g: &IntGraph, sub: &IntGraph, verts: u64)
    requires
        g.valid(),
        sub.masks().len() == g.masks().len(),
        forall|u: int, j: int|
            0 <= u < g.masks().len() && 0 <= j < 64 ==> #[trigger] word_bit(sub.masks()[u], j) == (
            word_bit(g.masks()[u], j) && !word_bit(!verts, u) && !word_bit(!verts, j)),
    ensures
        acyclic_without(sub, Set::<int>::empty()) == acyclic_in(g, verts, 0),
{
    assert forall|rank: spec_fn(int) -> nat|
        is_numbering(sub, Set::<int>::empty(), rank) == numbers_in(g, verts, 0, rank) by {
        if is_numbering(sub, Set::<int>::empty(), rank) {
            assert forall|u: int, w: int|
                #[trigger] g.has_edge(u, w) && word_bit(verts, u) && word_bit(verts, w)
                    && !word_bit(0, u) && !word_bit(0, w) implies rank(u) > rank(w) by {
                lemma_bit_ops(verts, verts, u);
                lemma_bit_ops(verts, verts, w);
                assert(word_bit(sub.masks()[u], w));
                assert(sub.has_edge(u, w));
            }
        }
        if numbers_in(g, verts, 0, rank) {
            assert forall|u: int, w: int|
                0 <= u < sub.order() && 0 <= w < sub.order() && #[trigger] sub.has_edge(u, w)
                    && !Set::<int>::empty().contains(u) && !Set::<int>::empty().contains(
                    w,
                ) implies rank(u) > rank(w) by {
                lemma_bit_ops(verts, verts, u);
                lemma_bit_ops(verts, verts, w);
                lemma_bit_ops(0, 0, u);
                lemma_bit_ops(0, 0, w);
                assert(word_bit(sub.masks()[u], w));
                assert(g.has_edge(u, w));
            }
        }
    }
    if acyclic_without(sub, Set::<int>::empty()) {
        let rank = choose|rank: spec_fn(int) -> nat| is_numbering(sub, Set::<int>::empty(), rank);
        assert(numbers_in(g, verts, 0, rank));
    }
    if acyclic_in(g, verts, 0) {
        let rank = choose|rank: spec_fn(int) -> nat| numbers_in(g, verts, 0, rank);
        assert(is_numbering(sub, Set::<int>::empty(), rank));
    }
}

/// Where `verts` spans a cycle, every feasible set has a vertex.
pub proof fn lemma_needs_one(g: &IntGraph, verts: u64, forbidden: u64)
    requires
        !acyclic_in(g, verts, 0),
    ensures
        least(g, verts, forbidden, 1),
{
    assert forall|t: u64| #[trigger] feasible(g, verts, forbidden, t) implies popcount(t) >= 1 by {
        if popcount(t) == 0 {
            lemma_popcount_zero(t);
        }
    }
}

/// The empty set is feasible for vertices that span no cycle, and nothing
/// undercuts it.
pub proof fn lemma_nothing_needed(g: &IntGraph, verts: u64, forbidden: u64, limit: nat)
    requires
        acyclic_in(g, verts, 0),
        limit > 0,
    ensures
        answers(g, verts, forbidden, limit, Some((0u64, 0usize))),
{
    lemma_popcount_zero(0);
    lemma_zero_word(0);
}

/// A vertex with an edge to itself is in every feasible set.
pub proof fn lemma_loops_taken(g: &IntGraph, verts: u64, forbidden: u64, loops: u64, t: u64)
    requires
        forall|j: int|
            0 <= j < 64 ==> #[trigger] word_bit(loops, j) == (word_bit(verts, j) && g.has_edge(j, j)),
        feasible(g, verts, forbidden, t),
    ensures
        mask_subset(loops, t),
{
    let rank = choose|rank: spec_fn(int) -> nat| numbers_in(g, verts, t, rank);
    assert forall|j: int| 0 <= j < 64 && #[trigger] word_bit(loops, j) implies word_bit(t, j) by {
        if !word_bit(t, j) {
            assert(g.has_edge(j, j));
            assert(rank(j) > rank(j));
        }
    }
}

/// Taking the self-looped vertices and solving the rest solves the whole.
pub proof fn lemma_forced_step(
    g: &IntGraph,
    verts: u64,
    forbidden: u64,
    loops: u64,
    rest: u64,
    limit: nat,
    k: usize,
    inner: Option<(u64, usize)>,
    outer: Option<(u64, usize)>,
)
    requires
        g.valid(),
        forall|j: int|
            0 <= j < 64 ==> #[trigger] word_bit(loops, j) == (word_bit(verts, j) && g.has_edge(j, j)),
        forall|j: int|
            0 <= j < 64 ==> #[trigger] word_bit(rest, j) == (word_bit(verts, j) && !word_bit(
                loops,
                j,
            )),
        disjoint_masks(loops, forbidden),
        k == popcount(loops),
        k < limit,
        answers(g, rest, forbidden, (limit - k) as nat, inner),
        match inner {
            Some((s, c)) => c + k <= usize::MAX && Some((s | loops, (c + k) as usize)) == outer,
            None => outer.is_none(),
        },
    ensures
        answers(g, verts, forbidden, limit, outer),
{
    let inner_bound: nat = match inner {
        Some((s, c)) => c as nat,
        None => (limit - k) as nat,
    };
    assert forall|t: u64| #[trigger] feasible(g, verts, forbidden, t) implies popcount(t)
        >= inner_bound + k by {
        lemma_loops_taken(g, verts, forbidden, loops, t);
        let t2 = t & !loops;
        assert forall|j: int| 0 <= j < 64 implies #[trigger] word_bit(t2, j) == (word_bit(t, j)
            && !word_bit(loops, j)) by {
            lemma_bit_ops(t, loops, j);
        }
        let rank = choose|rank: spec_fn(int) -> nat| numbers_in(g, verts, t, rank);
        assert(numbers_in(g, rest, t2, rank)) by {
            assert forall|u: int, w: int|
                #[trigger] g.has_edge(u, w) && word_bit(rest, u) && word_bit(rest, w) && !word_bit(
                    t2,
                    u,
                ) && !word_bit(t2, w) implies rank(u) > rank(w) by {
                assert(word_bit(t2, u) == (word_bit(t, u) && !word_bit(loops, u)));
                assert(word_bit(t2, w) == (word_bit(t, w) && !word_bit(loops, w)));
            }
        }
        assert(mask_subset(t2, rest));
        assert(disjoint_masks(t2, forbidden));
        assert(feasible(g, rest, forbidden, t2));
        lemma_count_with(t, loops);
    }
    match inner {
        Some((s, c)) => {
            let s2 = s | loops;
            assert forall|j: int| 0 <= j < 64 implies #[trigger] word_bit(s2, j) == (word_bit(s, j)
                || word_bit(loops, j)) by {
                lemma_bit_ops(s, loops, j);
            }
            assert(mask_subset(s2, verts)) by {
                assert forall|j: int| 0 <= j < 64 && #[trigger] word_bit(s2, j) implies word_bit(
                    verts,
                    j,
                ) by {
                    if word_bit(s, j) {
                        assert(word_bit(rest, j));
                    }
                }
            }
            assert(mask_subset(loops, s2));
            lemma_count_with(s2, loops);
            assert forall|j: int| 0 <= j < 64 implies #[trigger] word_bit(s2 & !loops, j)
                == word_bit(s, j) by {
                lemma_bit_ops(s2, loops, j);
                if word_bit(s, j) {
                    assert(word_bit(rest, j));
                }
            }
            lemma_same_bits(s2 & !loops, s);
            let rank = choose|rank: spec_fn(int) -> nat| numbers_in(g, rest, s, rank);
            assert(numbers_in(g, verts, s2, rank)) by {
                assert forall|u: int, w: int|
                    #[trigger] g.has_edge(u, w) && word_bit(verts, u) && word_bit(verts, w)
                        && !word_bit(s2, u) && !word_bit(s2, w) implies rank(u) > rank(w) by {
                    assert(word_bit(s2, u) == (word_bit(s, u) || word_bit(loops, u)));
                    assert(word_bit(s2, w) == (word_bit(s, w) || word_bit(loops, w)));
                    assert(word_bit(rest, u) && word_bit(rest, w));
                }
            }
            assert(disjoint_masks(s2, forbidden));
        },
        None => {},
    }
}

/// A word with a single bit has one bit.
pub proof fn lemma_popcount_single(b: u64, v: int)
    requires
        0 <= v < 64,
        forall|j: int| 0 <= j < 64 ==> #[trigger] word_bit(b, j) == (j == v),
    ensures
        popcount(b) == 1,
{
    let zero = bits_of(b).update(v, false);
    lemma_count_update(bits_of(b), v, false, 64);
    lemma_count_extremes(zero, 64);
    assert forall|i: int| 0 <= i < 64 implies !bit_at(zero, i) by {
        if i != v {
            assert(!word_bit(b, i));
        }
    }
}

/// Branching on `v` is exhaustive: the better of the answer with `v` and
/// the answer without it is the answer.
pub proof fn lemma_branch_result(
    g: &IntGraph,
    verts: u64,
    forbidden: u64,
    v: int,
    b: u64,
    rest: u64,
    more: u64,
    limit: nat,
    with_v: Option<(u64, usize)>,
    bound: nat,
    without_v: Option<(u64, usize)>,
    result: Option<(u64, usize)>,
)
    requires
        g.valid(),
        0 <= v < 64,
        word_bit(verts, v),
        !word_bit(forbidden, v),
        forall|j: int| 0 <= j < 64 ==> #[trigger] word_bit(b, j) == (j == v),
        forall|j: int| 0 <= j < 64 ==> #[trigger] word_bit(rest, j) == (word_bit(verts, j) && j != v),
        forall|j: int|
            0 <= j < 64 ==> #[trigger] word_bit(more, j) == (word_bit(forbidden, j) || j == v),
        limit > 1,
        answers(g, rest, forbidden, (limit - 1) as nat, with_v),
        bound == match with_v {
            Some((s, c)) => c + 1,
            None => limit as int,
        },
        answers(g, verts, more, bound, without_v),
        match without_v {
            Some(x) => result == Some(x),
            None => match with_v {
                Some((s, c)) => c + 1 <= usize::MAX && result == Some((s | b, (c + 1) as usize)),
                None => result.is_none(),
            },
        },
    ensures
        answers(g, verts, forbidden, limit, result),
{
    let lower: nat = match without_v {
        Some((s2, c2)) => c2 as nat,
        None => bound,
    };
    lemma_popcount_single(b, v);
    assert forall|t: u64| #[trigger] feasible(g, verts, forbidden, t) implies popcount(t)
        >= lower by {
        if word_bit(t, v) {
            let t2 = t & !b;
            assert forall|j: int| 0 <= j < 64 implies #[trigger] word_bit(t2, j) == (word_bit(t, j)
                && j != v) by {
                lemma_bit_ops(t, b, j);
            }
            let rank = choose|rank: spec_fn(int) -> nat| numbers_in(g, verts, t, rank);
            assert(numbers_in(g, rest, t2, rank)) by {
                assert forall|u: int, w: int|
                    #[trigger] g.has_edge(u, w) && word_bit(rest, u) && word_bit(rest, w)
                        && !word_bit(t2, u) && !word_bit(t2, w) implies rank(u) > rank(w) by {
                    assert(word_bit(t2, u) == (word_bit(t, u) && u != v));
                    assert(word_bit(t2, w) == (word_bit(t, w) && w != v));
                }
            }
            assert(mask_subset(t2, rest));
            assert(disjoint_masks(t2, forbidden));
            assert(feasible(g, rest, forbidden, t2));
            assert(mask_subset(b, t));
            lemma_count_with(t, b);
        } else {
            assert(disjoint_masks(t, more));
            assert(feasible(g, verts, more, t));
        }
    }
    match without_v {
        Some((s2, c2)) => {
            assert(disjoint_masks(s2, forbidden)) by {
                assert forall|j: int| 0 <= j < 64 implies !(#[trigger] word_bit(s2, j) && word_bit(
                    forbidden,
                    j,
                )) by {
                    if word_bit(forbidden, j) {
                        assert(word_bit(more, j));
                    }
                }
            }
        },
        None => {
            match with_v {
                Some((s, c)) => {
                    let s2 = s | b;
                    assert forall|j: int| 0 <= j < 64 implies #[trigger] word_bit(s2, j) == (
                    word_bit(s, j) || j == v) by {
                        lemma_bit_ops(s, b, j);
                    }
                    assert(mask_subset(s2, verts)) by {
                        assert forall|j: int| 0 <= j < 64 && #[trigger] word_bit(
                            s2,
                            j,
                        ) implies word_bit(verts, j) by {
                            if word_bit(s, j) {
                                assert(word_bit(rest, j));
                            }
                        }
                    }
                    assert(mask_subset(b, s2));
                    lemma_count_with(s2, b);
                    assert forall|j: int| 0 <= j < 64 implies #[trigger] word_bit(s2 & !b, j)
                        == word_bit(s, j) by {
                        lemma_bit_ops(s2, b, j);
                        if word_bit(s, j) {
                            assert(word_bit(rest, j));
                        }
                    }
                    lemma_same_bits(s2 & !b, s);
                    let rank = choose|rank: spec_fn(int) -> nat| numbers_in(g, rest, s, rank);
                    assert(numbers_in(g, verts, s2, rank)) by {
                        assert forall|u: int, w: int|
                            #[trigger] g.has_edge(u, w) && word_bit(verts, u) && word_bit(verts, w)
                                && !word_bit(s2, u) && !word_bit(s2, w) implies rank(u) > rank(
                            w,
                        ) by {
                            assert(word_bit(s2, u) == (word_bit(s, u) || u == v));
                            assert(word_bit(s2, w) == (word_bit(s, w) || w == v));
                            assert(word_bit(rest, u) && word_bit(rest, w));
                        }
                    }
                    assert(disjoint_masks(s2, forbidden)) by {
                        assert forall|j: int| 0 <= j < 64 implies !(#[trigger] word_bit(s2, j)
                            && word_bit(forbidden, j)) by {
                            assert(word_bit(s2, j) == (word_bit(s, j) || j == v));
                        }
                    }
                },
                None => {},
            }
        },
    }
}

/// No edge leads from `done` to a vertex of `verts` outside `done`.
pub open spec fn closed_in(g: &IntGraph, verts: u64, done: u64) -> bool {
    forall|u: int, w: int|
        #[trigger] g.has_edge(u, w) && word_bit(done, u) && word_bit(verts, w) ==> word_bit(done, w)
}

/// Every edge from `part` into `verts` ends in `done` or in `part`.
pub open spec fn edges_stay(g: &IntGraph, verts: u64, done: u64, part: u64) -> bool {
    forall|u: int, w: int|
        #[trigger] g.has_edge(u, w) && word_bit(part, u) && word_bit(verts, w) ==> word_bit(done, w)
            || word_bit(part, w)
}

/// The components solved so far: `done` is closed under edges, `taken`
/// makes it acyclic, and every feasible set has spent at least `committed`
/// vertices on it.
pub open spec fn split_so_far(
    g: &IntGraph,
    verts: u64,
    forbidden: u64,
    done: u64,
    taken: u64,
    committed: nat,
) -> bool {
    &&& mask_subset(done, verts)
    &&& mask_subset(taken, done)
    &&& disjoint_masks(taken, forbidden)
    &&& committed == popcount(taken)
    &&& acyclic_in(g, done, taken)
    &&& closed_in(g, verts, done)
    &&& forall|t: u64| #[trigger] feasible(g, verts, forbidden, t) ==> popcount(t & done) >= committed
}

/// The largest of the first `k` values of `rank`.
pub open spec fn max_rank(rank: spec_fn(int) -> nat, k: nat) -> nat
    decreases k,
{
    if k == 0 {
        0
    } else {
        let rest = max_rank(rank, (k - 1) as nat);
        if rank(k - 1) > rest { rank(k - 1) } else { rest }
    }
}

/// None of the first `k` values exceeds the largest of them.
pub proof fn lemma_max_rank(rank: spec_fn(int) -> nat, k: nat)
    ensures
        forall|i: int| 0 <= i < k ==> #[trigger] rank(i) <= max_rank(rank, k),
    decreases k,
{
    if k > 0 {
        lemma_max_rank(rank, (k - 1) as nat);
    }
}

/// Before any component is solved, nothing is done and nothing is owed.
pub proof fn lemma_split_start(g: &IntGraph, verts: u64, forbidden: u64)
    requires
        g.valid(),
    ensures
        split_so_far(g, verts, forbidden, 0, 0, 0),
{
    lemma_zero_word(0);
    lemma_popcount_zero(0);
    let rank = |u: int| 0nat;
    assert(numbers_in(g, 0, 0, rank));
}

/// A feasible set, cut down to a part of the vertices, is feasible there.
pub proof fn lemma_part_feasible(g: &IntGraph, verts: u64, forbidden: u64, part: u64, t: u64)
    requires
        g.valid(),
        mask_subset(part, verts),
        feasible(g, verts, forbidden, t),
    ensures
        feasible(g, part, forbidden, t & part),
{
    let t2 = t & part;
    assert forall|j: int| 0 <= j < 64 implies #[trigger] word_bit(t2, j) == (word_bit(t, j)
        && word_bit(part, j)) by {
        lemma_bit_ops(t, part, j);
    }
    let rank = choose|rank: spec_fn(int) -> nat| numbers_in(g, verts, t, rank);
    assert(numbers_in(g, part, t2, rank)) by {
        assert forall|u: int, w: int|
            #[trigger] g.has_edge(u, w) && word_bit(part, u) && word_bit(part, w) && !word_bit(
                t2,
                u,
            ) && !word_bit(t2, w) implies rank(u) > rank(w) by {
            assert(word_bit(t2, u) == (word_bit(t, u) && word_bit(part, u)));
            assert(word_bit(t2, w) == (word_bit(t, w) && word_bit(part, w)));
        }
    }
    assert(disjoint_masks(t2, forbidden));
}

/// A component whose edges stay within it and what is done, solved by
/// itself, extends what is done.
pub proof fn lemma_split_step(
    g: &IntGraph,
    verts: u64,
    forbidden: u64,
    done: u64,
    taken: u64,
    committed: nat,
    part: u64,
    s: u64,
    k: nat,
)
    requires
        g.valid(),
        split_so_far(g, verts, forbidden, done, taken, committed),
        mask_subset(part, verts),
        disjoint_masks(part, done),
        edges_stay(g, verts, done, part),
        feasible(g, part, forbidden, s),
        k == popcount(s),
        least(g, part, forbidden, k),
    ensures
        split_so_far(g, verts, forbidden, done | part, taken | s, committed + k),
        taken & s == 0,
{
    let done2 = done | part;
    let taken2 = taken | s;
    assert forall|j: int| 0 <= j < 64 implies #[trigger] word_bit(done2, j) == (word_bit(done, j)
        || word_bit(part, j)) by {
        lemma_bit_ops(done, part, j);
    }
    assert forall|j: int| 0 <= j < 64 implies #[trigger] word_bit(taken2, j) == (word_bit(taken, j)
        || word_bit(s, j)) by {
        lemma_bit_ops(taken, s, j);
    }
    assert(disjoint_masks(taken, s)) by {
        assert forall|j: int| 0 <= j < 64 implies !(#[trigger] word_bit(taken, j) && word_bit(s, j)) by {
            if word_bit(taken, j) && word_bit(s, j) {
                assert(word_bit(part, j));
                assert(word_bit(done, j));
            }
        }
    }
    lemma_disjoint_zero(taken, s);
    lemma_popcount_disjoint(taken, s, 64);
    assert(mask_subset(done2, verts));
    assert(mask_subset(taken2, done2)) by {
        assert forall|j: int| 0 <= j < 64 && #[trigger] word_bit(taken2, j) implies word_bit(
            done2,
            j,
        ) by {
            assert(word_bit(taken2, j) == (word_bit(taken, j) || word_bit(s, j)));
            assert(word_bit(done2, j) == (word_bit(done, j) || word_bit(part, j)));
        }
    }
    assert(disjoint_masks(taken2, forbidden));
    let rank_done = choose|rank: spec_fn(int) -> nat| numbers_in(g, done, taken, rank);
    let rank_part = choose|rank: spec_fn(int) -> nat| numbers_in(g, part, s, rank);
    let top = max_rank(rank_done, 64);
    lemma_max_rank(rank_done, 64);
    let rank = |u: int| if word_bit(part, u) { (rank_part(u) + top + 1) as nat } else { rank_done(u) };
    assert(numbers_in(g, done2, taken2, rank)) by {
        assert forall|u: int, w: int|
            #[trigger] g.has_edge(u, w) && word_bit(done2, u) && word_bit(done2, w) && !word_bit(
                taken2,
                u,
            ) && !word_bit(taken2, w) implies rank(u) > rank(w) by {
            assert(word_bit(done2, u) == (word_bit(done, u) || word_bit(part, u)));
            assert(word_bit(done2, w) == (word_bit(done, w) || word_bit(part, w)));
            assert(word_bit(taken2, u) == (word_bit(taken, u) || word_bit(s, u)));
            assert(word_bit(taken2, w) == (word_bit(taken, w) || word_bit(s, w)));
            if word_bit(part, u) {
                if word_bit(part, w) {
                } else {
                    assert(rank_done(w) <= top);
                }
            } else {
                assert(word_bit(done, u));
                assert(word_bit(verts, w));
                assert(word_bit(done, w));
                assert(!word_bit(part, w));
            }
        }
    }
    assert(closed_in(g, verts, done2)) by {
        assert forall|u: int, w: int|
            #[trigger] g.has_edge(u, w) && word_bit(done2, u) && word_bit(verts, w) implies word_bit(
            done2,
            w,
        ) by {
            assert(word_bit(done2, u) == (word_bit(done, u) || word_bit(part, u)));
            assert(word_bit(done2, w) == (word_bit(done, w) || word_bit(part, w)));
        }
    }
    assert forall|t: u64| #[trigger] feasible(g, verts, forbidden, t) implies popcount(t & done2)
        >= committed + k by {
        lemma_part_feasible(g, verts, forbidden, part, t);
        assert(disjoint_masks(done, part));
        lemma_count_parts(t, done, part);
    }
}

/// Where a component by itself needs `sub_limit` vertices or more, the
/// whole needs those beyond what is committed.
pub proof fn lemma_split_fail(
    g: &IntGraph,
    verts: u64,
    forbidden: u64,
    done: u64,
    taken: u64,
    committed: nat,
    part: u64,
    sub_limit: nat,
)
    requires
        g.valid(),
        split_so_far(g, verts, forbidden, done, taken, committed),
        mask_subset(part, verts),
        disjoint_masks(part, done),
        least(g, part, forbidden, sub_limit),
    ensures
        least(g, verts, forbidden, committed + sub_limit),
{
    assert forall|t: u64| #[trigger] feasible(g, verts, forbidden, t) implies popcount(t)
        >= committed + sub_limit by {
        lemma_part_feasible(g, verts, forbidden, part, t);
        assert(disjoint_masks(done, part));
        lemma_count_parts(t, done, part);
    }
}

/// Once all of `verts` is done, what was taken is the answer.
pub proof fn lemma_split_done(
    g: &IntGraph,
    verts: u64,
    forbidden: u64,
    taken: u64,
    committed: usize,
    limit: nat,
)
    requires
        split_so_far(g, verts, forbidden, verts, taken, committed as nat),
        committed < limit,
    ensures
        answers(g, verts, forbidden, limit, Some((taken, committed))),
{
    assert forall|t: u64| #[trigger] feasible(g, verts, forbidden, t) implies popcount(t)
        >= committed by {
        assert forall|j: int| 0 <= j < 64 implies #[trigger] word_bit(t & verts, j) == word_bit(t, j) by {
            lemma_bit_ops(t, verts, j);
        }
        lemma_same_bits(t & verts, t);
    }
}

/// A single vertex without an edge to itself needs nothing removed.
pub proof fn lemma_singleton(g: &IntGraph, part: u64, v: int, forbidden: u64)
    requires
        g.valid(),
        0 <= v < 64,
        forall|j: int| 0 <= j < 64 ==> #[trigger] word_bit(part, j) == (j == v),
        !g.has_edge(v, v),
    ensures
        feasible(g, part, forbidden, 0),
        popcount(0) == 0,
        least(g, part, forbidden, 0),
{
    lemma_zero_word(0);
    lemma_popcount_zero(0);
    let rank = |u: int| 0nat;
    assert(numbers_in(g, part, 0, rank));
}

/// Where `verts` spans a cycle and each of its vertices is forbidden, no
/// set is feasible.
pub proof fn lemma_no_candidates(g: &IntGraph, verts: u64, forbidden: u64, limit: nat)
    requires
        !acyclic_in(g, verts, 0),
        verts & !forbidden == 0,
    ensures
        least(g, verts, forbidden, limit),
{
    lemma_zero_word(verts & !forbidden);
    assert forall|t: u64| #[trigger] feasible(g, verts, forbidden, t) implies popcount(t)
        >= limit by {
        assert forall|j: int| 0 <= j < 64 implies !#[trigger] word_bit(t, j) by {
            lemma_bit_ops(verts, forbidden, j);
            assert(!word_bit(verts & !forbidden, j));
        }
        lemma_zero_word(t);
    }
}

/// Where a self-looped vertex is forbidden, no set is feasible.
pub proof fn lemma_forced_forbidden(
    g: &IntGraph,
    verts: u64,
    forbidden: u64,
    loops: u64,
    limit: nat,
)
    requires
        forall|j: int|
            0 <= j < 64 ==> #[trigger] word_bit(loops, j) == (word_bit(verts, j) && g.has_edge(j, j)),
        !disjoint_masks(loops, forbidden),
    ensures
        least(g, verts, forbidden, limit),
{
    assert forall|t: u64| #[trigger] feasible(g, verts, forbidden, t) implies popcount(t)
        >= limit by {
        lemma_loops_taken(g, verts, forbidden, loops, t);
        let j = choose|j: int| 0 <= j < 64 && #[trigger] word_bit(loops, j) && word_bit(forbidden, j);
        assert(word_bit(t, j));
    }
}

/// Every feasible set has at least as many vertices as there are
/// self-looped ones.
pub proof fn lemma_forced_many(g: &IntGraph, verts: u64, forbidden: u64, loops: u64)
    requires
        forall|j: int|
            0 <= j < 64 ==> #[trigger] word_bit(loops, j) == (word_bit(verts, j) && g.has_edge(j, j)),
    ensures
        least(g, verts, forbidden, popcount(loops)),
{
    assert forall|t: u64| #[trigger] feasible(g, verts, forbidden, t) implies popcount(t)
        >= popcount(loops) by {
        lemma_loops_taken(g, verts, forbidden, loops, t);
        lemma_popcount_subset(loops, t);
    }
}

/// One of the first `k` vertices of `comp` stands for the vertex `u`, where
/// `ids` gives the vertex that each one stands for.
pub open spec fn holds(comp: Seq<Node>, ids: Seq<int>, u: int, k: int) -> bool {
    exists|j: int| 0 <= j < k && j < comp.len() && ids[(#[trigger] comp[j]) as int] == u
}

/// One of the first `m` words has the bit `u`.
pub open spec fn covered_by(r: Seq<u64>, u: int, m: int) -> bool {
    exists|i: int| 0 <= i < m && i < r.len() && #[trigger] word_bit(r[i], u)
}

/// `walk` follows edges of the graph through vertices of `verts`.
pub open spec fn walk_in(g: &IntGraph, verts: u64, walk: Seq<int>) -> bool {
    &&& walk.len() >= 1
    &&& forall|x: int|
        0 <= x < walk.len() ==> 0 <= #[trigger] walk[x] < g.order() && word_bit(verts, walk[x])
    &&& forall|x: int| 0 <= x < walk.len() - 1 ==> g.has_edge(#[trigger] walk[x], walk[x + 1])
}

/// There is a walk from `u` to `w` through vertices of `verts`.
pub open spec fn joined(g: &IntGraph, verts: u64, u: int, w: int) -> bool {
    exists|walk: Seq<int>|
        #[trigger] walk_in(g, verts, walk) && walk[0] == u && walk[walk.len() - 1] == w
}

/// The words are the strongly connected components of the part of the graph
/// on `verts`, earlier ones first along every edge: none is empty, no two
/// share a vertex, together they hold exactly the vertices of the graph in
/// `verts`, every edge within `verts` leads into the same or an earlier
/// word, and within a word every vertex reaches every other.
pub open spec fn is_split(g: &IntGraph, verts: u64, r: Seq<u64>) -> bool {
    &&& forall|i: int| 0 <= i < r.len() ==> #[trigger] r[i] != 0
    &&& forall|i: int, j: int|
        0 <= i < j < r.len() ==> disjoint_masks(#[trigger] r[i], #[trigger] r[j])
    &&& forall|u: int|
        0 <= u < 64 ==> #[trigger] covered_by(r, u, r.len() as int) == (word_bit(verts, u) && u
            < g.order())
    &&& forall|i: int, u: int, w: int|
        0 <= i < r.len() && 0 <= u < 64 && 0 <= w < 64 && #[trigger] word_bit(r[i], u) && word_bit(
            verts,
            w,
        ) && #[trigger] g.has_edge(u, w) ==> covered_by(r, w, i + 1)
    &&& forall|i: int, u: int, w: int|
        0 <= i < r.len() && 0 <= u < 64 && 0 <= w < 64 && #[trigger] word_bit(r[i], u)
            && #[trigger] word_bit(r[i], w) ==> joined(g, verts, u, w)
}

/// The components of a renumbered part, written as words of the vertices
/// they stand for, are the components of the part.
pub proof fn lemma_split(
    g: &IntGraph,
    verts: u64,
    h: &IntGraph,
    comps: Seq<Vec<Node>>,
    ids: Seq<int>,
    r: Seq<u64>,
)
    requires
        g.valid(),
        h.valid(),
        ids.len() == h.order(),
        forall|a: int|
            0 <= a < ids.len() ==> 0 <= #[trigger] ids[a] < 64 && word_bit(verts, ids[a]) && ids[a]
                < g.order(),
        forall|a: int, b: int| 0 <= a < b < ids.len() ==> ids[a] < ids[b],
        forall|j: int|
            0 <= j < 64 && word_bit(verts, j) && j < g.order() ==> exists|a: int|
                0 <= a < ids.len() && #[trigger] ids[a] == j,
        forall|a: int, b: int|
            #[trigger] h.has_edge(a, b) == (0 <= a < ids.len() && 0 <= b < ids.len() && g.has_edge(
                ids[a],
                ids[b],
            )),
        components_within(comps, h.order()),
        all_distinct(comps),
        all_listed(comps, h.order()),
        all_connected(h, comps),
        edges_lead_back(h, comps),
        r.len() == comps.len(),
        forall|i: int, u: int|
            0 <= i < r.len() && 0 <= u < 64 ==> #[trigger] word_bit(r[i], u) == holds(
                comps[i]@,
                ids,
                u,
                comps[i]@.len() as int,
            ),
    ensures
        is_split(g, verts, r),
{
    assert forall|i: int| 0 <= i < r.len() implies #[trigger] r[i] != 0 by {
        let a = comps[i]@[0];
        assert(comps[i]@.len() > 0);
        assert(a < h.order());
        let u = ids[a as int];
        assert(holds(comps[i]@, ids, u, comps[i]@.len() as int));
        assert(word_bit(r[i], u));
        lemma_zero_word(r[i]);
    }
    assert forall|i: int, j: int| 0 <= i < j < r.len() implies disjoint_masks(
        #[trigger] r[i],
        #[trigger] r[j],
    ) by {
        assert forall|u: int| 0 <= u < 64 implies !(#[trigger] word_bit(r[i], u) && word_bit(r[j], u)) by {
            if word_bit(r[i], u) && word_bit(r[j], u) {
                assert(holds(comps[i]@, ids, u, comps[i]@.len() as int));
                assert(holds(comps[j]@, ids, u, comps[j]@.len() as int));
                let k = choose|k: int|
                    0 <= k < comps[i]@.len() && k < comps[i]@.len() && ids[(
                    #[trigger] comps[i]@[k]) as int] == u;
                let l = choose|l: int|
                    0 <= l < comps[j]@.len() && l < comps[j]@.len() && ids[(
                    #[trigger] comps[j]@[l]) as int] == u;
                let a = comps[i]@[k] as int;
                let b = comps[j]@[l] as int;
                assert(a < h.order() && b < h.order());
                if a < b {
                    assert(ids[a] < ids[b]);
                }
                if b < a {
                    assert(ids[b] < ids[a]);
                }
                assert(comps[i]@[k] == comps[j]@[l]);
            }
        }
    }
    assert forall|u: int| 0 <= u < 64 implies #[trigger] covered_by(r, u, r.len() as int) == (
    word_bit(verts, u) && u < g.order()) by {
        if covered_by(r, u, r.len() as int) {
            let i = choose|i: int| 0 <= i < r.len() && i < r.len() && #[trigger] word_bit(r[i], u);
            assert(holds(comps[i]@, ids, u, comps[i]@.len() as int));
            let k = choose|k: int|
                0 <= k < comps[i]@.len() && k < comps[i]@.len() && ids[(
                #[trigger] comps[i]@[k]) as int] == u;
            assert(comps[i]@[k] < h.order());
        }
        if word_bit(verts, u) && u < g.order() {
            let a = choose|a: int| 0 <= a < ids.len() && #[trigger] ids[a] == u;
            assert(occurs(comps, a as Node));
            let (i, k) = choose|i: int, k: int|
                0 <= i < comps.len() && 0 <= k < comps[i]@.len() && #[trigger] comps[i]@[k]
                    == a as Node;
            assert(ids[comps[i]@[k] as int] == u);
            assert(holds(comps[i]@, ids, u, comps[i]@.len() as int));
            assert(word_bit(r[i], u));
        }
    }
    assert forall|i: int, u: int, w: int|
        0 <= i < r.len() && 0 <= u < 64 && 0 <= w < 64 && #[trigger] word_bit(r[i], u) && word_bit(
            verts,
            w,
        ) && #[trigger] g.has_edge(u, w) implies covered_by(r, w, i + 1) by {
        assert(holds(comps[i]@, ids, u, comps[i]@.len() as int));
        let k = choose|k: int|
            0 <= k < comps[i]@.len() && k < comps[i]@.len() && ids[(#[trigger] comps[i]@[k]) as int]
                == u;
        let a = comps[i]@[k] as int;
        assert(a < h.order());
        let b = choose|b: int| 0 <= b < ids.len() && #[trigger] ids[b] == w;
        assert(h.has_edge(a, b));
        assert(h.has_edge(comps[i]@[k] as int, (b as Node) as int));
        assert(occurs_before(comps, b as Node, i + 1));
        let (j, l) = choose|j: int, l: int|
            0 <= j < i + 1 && j < comps.len() && 0 <= l < comps[j]@.len() && #[trigger] comps[j]@[l]
                == b as Node;
        assert(ids[comps[j]@[l] as int] == w);
        assert(holds(comps[j]@, ids, w, comps[j]@.len() as int));
        assert(word_bit(r[j], w));
    }
    assert forall|i: int, u: int, w: int|
        0 <= i < r.len() && 0 <= u < 64 && 0 <= w < 64 && #[trigger] word_bit(r[i], u)
            && #[trigger] word_bit(r[i], w) implies joined(g, verts, u, w) by {
        assert(holds(comps[i]@, ids, u, comps[i]@.len() as int));
        assert(holds(comps[i]@, ids, w, comps[i]@.len() as int));
        let k = choose|k: int|
            0 <= k < comps[i]@.len() && k < comps[i]@.len() && ids[(#[trigger] comps[i]@[k]) as int]
                == u;
        let l = choose|l: int|
            0 <= l < comps[i]@.len() && l < comps[i]@.len() && ids[(#[trigger] comps[i]@[l]) as int]
                == w;
        assert(strongly_connected(h, comps[i]@));
        assert(reaches(h, comps[i]@[k] as int, comps[i]@[l] as int));
        let inner = choose|walk: Seq<int>|
            #[trigger] is_walk(h, Set::<int>::empty(), walk) && walk[0] == comps[i]@[k] as int
                && walk[walk.len() - 1] == comps[i]@[l] as int;
        let outer = Seq::new(inner.len(), |x: int| ids[inner[x]]);
        assert forall|x: int| 0 <= x < outer.len() - 1 implies g.has_edge(
            #[trigger] outer[x],
            outer[x + 1],
        ) by {
            assert(h.has_edge(inner[x], inner[x + 1]));
        }
        assert(walk_in(g, verts, outer) && outer[0] == u && outer[outer.len() - 1] == w);
    }
}

} // verus!
