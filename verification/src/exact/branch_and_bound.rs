//! Branch and bound for the minimum directed feedback vertex set.

use crate::bitset::{
    count_upto, lemma_bit_ops, lemma_count_bounds, lemma_lowest_set, word_bit,
};
use crate::exact::branch_and_bound::bb_core::{
    acyclic_in, answers, disjoint_masks, edges_stay, feasible, holds, is_split, lemma_split,
    lemma_popcount_single,
    lemma_popcount_zero, numbers_in, lemma_branch_result, lemma_disjoint_zero,
    lemma_forced_forbidden, lemma_forced_many, lemma_forced_step, lemma_needs_one,
    lemma_no_candidates, lemma_nothing_needed, lemma_singleton, lemma_split_done,
    lemma_split_fail, lemma_split_start, lemma_split_step, lemma_sub_acyclic, split_so_far,
};
use crate::exact::branch_and_bound::bb_graph::{
    bits_of, lemma_popcount_disjoint, lemma_popcount_subset, lemma_zero_word, low_bits,
    mask_subset, popcount, positions, single, test_bit, IntGraph,
};
use crate::exact::branch_and_bound::bb_stats::{not_less, BBStats};
use crate::graph::connectivity::{components_within, Connectivity};
use crate::graph::{acyclic_without, is_numbering, AdjacencyList, Node};
use vstd::prelude::*;

pub mod bb_core;
pub mod bb_graph;
pub mod bb_stats;

verus! {

/// The number of set bits of a word.
pub fn count_bits(w: u64) -> (r: usize)
    ensures
        r == popcount(w),
        r <= 64,
{
    let mut c: usize = 0;
    let mut j: usize = 0;
    while j < 64
        invariant
            j <= 64,
            c == count_upto(bits_of(w), j as nat),
            c <= j,
        decreases 64 - j,
    {
        if test_bit(w, j) {
            c += 1;
        }
        j += 1;
    }
    c
}

/// The vertices of `verts` that have an edge to themselves.
pub fn self_loops(g: &IntGraph, verts: u64) -> (r: u64)
    requires
        g.valid(),
    ensures
        forall|j: int|
            0 <= j < 64 ==> #[trigger] word_bit(r, j) == (word_bit(verts, j) && g.has_edge(j, j)),
{
    let n = g.len();
    let mut r: u64 = 0;
    let mut v: usize = 0;
    proof {
        assert forall|j: int| 0 <= j < 64 implies !#[trigger] word_bit(0u64, j) by {
            lemma_bit_ops(0, 0, j);
        }
    }
    while v < n
        invariant
            g.valid(),
            n == g.order(),
            v <= n,
            forall|j: int|
                0 <= j < 64 ==> #[trigger] word_bit(r, j) == (j < v && word_bit(verts, j)
                    && g.has_edge(j, j)),
        decreases n - v,
    {
        if test_bit(verts, v) && g.has_self_loop(v) {
            let b = single(v);
            let ghost before = r;
            r = r | b;
            proof {
                assert forall|j: int| 0 <= j < 64 implies #[trigger] word_bit(r, j) == (j < v + 1
                    && word_bit(verts, j) && g.has_edge(j, j)) by {
                    lemma_bit_ops(before, b, j);
                }
            }
        }
        v += 1;
    }
    r
}

/// The vertex that each vertex of a renumbered part stands for: the entry
/// of the list, or, without a list, itself.
pub open spec fn id_list(ids: Option<&Vec<Node>>) -> Seq<int> {
    match ids {
        Some(list) => Seq::new(list@.len(), |a: int| list@[a] as int),
        None => Seq::new(64, |a: int| a),
    }
}

/// Each component as a word. With a list of old vertices, the vertices of
/// the components are positions in that list; without one, they stand for
/// themselves.
fn masks_of_components(comps: &Vec<Vec<Node>>, ids: Option<&Vec<Node>>) -> (r: Vec<u64>)
    requires
        match ids {
            Some(list) => components_within(comps@, list@.len()) && forall|i: int|
                0 <= i < list@.len() ==> #[trigger] list@[i] < 64,
            None => components_within(comps@, 64),
        },
    ensures
        r@.len() == comps@.len(),
        forall|i: int, u: int|
            0 <= i < r@.len() && 0 <= u < 64 ==> #[trigger] word_bit(r@[i], u) == holds(
                comps@[i]@,
                id_list(ids),
                u,
                comps@[i]@.len() as int,
            ),
{
    let mut r: Vec<u64> = Vec::new();
    let mut i: usize = 0;
    while i < comps.len()
        invariant
            i <= comps@.len(),
            r@.len() == i,
            match ids {
                Some(list) => components_within(comps@, list@.len()) && forall|i: int|
                    0 <= i < list@.len() ==> #[trigger] list@[i] < 64,
                None => components_within(comps@, 64),
            },
            forall|a: int, u: int|
                0 <= a < i && 0 <= u < 64 ==> #[trigger] word_bit(r@[a], u) == holds(
                    comps@[a]@,
                    id_list(ids),
                    u,
                    comps@[a]@.len() as int,
                ),
        decreases comps@.len() - i,
    {
        let mut m: u64 = 0;
        let mut k: usize = 0;
        proof {
            assert forall|u: int| 0 <= u < 64 implies #[trigger] word_bit(m, u) == holds(
                comps@[i as int]@,
                id_list(ids),
                u,
                0,
            ) by {
                lemma_bit_ops(0, 0, u);
            }
        }
        while k < comps[i].len()
            invariant
                i < comps@.len(),
                k <= comps@[i as int]@.len(),
                match ids {
                    Some(list) => components_within(comps@, list@.len()) && forall|i: int|
                        0 <= i < list@.len() ==> #[trigger] list@[i] < 64,
                    None => components_within(comps@, 64),
                },
                forall|u: int|
                    0 <= u < 64 ==> #[trigger] word_bit(m, u) == holds(
                        comps@[i as int]@,
                        id_list(ids),
                        u,
                        k as int,
                    ),
            decreases comps@[i as int]@.len() - k,
        {
            let x = comps[i][k] as usize;
            let old_id = match ids {
                Some(list) => list[x] as usize,
                None => x,
            };
            let b = single(old_id);
            let ghost before = m;
            m = m | b;
            proof {
                let comp = comps@[i as int]@;
                let list = id_list(ids);
                assert(list[comp[k as int] as int] == old_id);
                assert forall|u: int| 0 <= u < 64 implies #[trigger] word_bit(m, u) == holds(
                    comp,
                    list,
                    u,
                    k + 1,
                ) by {
                    lemma_bit_ops(before, b, u);
                    if holds(comp, list, u, k as int) {
                        let j = choose|j: int|
                            0 <= j < k && j < comp.len() && list[(#[trigger] comp[j]) as int] == u;
                        assert(0 <= j < k + 1 && j < comp.len() && list[comp[j] as int] == u);
                    }
                    if u == old_id {
                        assert(0 <= k < k + 1 && k < comp.len() && list[comp[k as int] as int] == u);
                    }
                    if holds(comp, list, u, k + 1) {
                        let j = choose|j: int|
                            0 <= j < k + 1 && j < comp.len() && list[(#[trigger] comp[j]) as int]
                                == u;
                        if j < k {
                            assert(holds(comp, list, u, k as int));
                        }
                    }
                }
            }
            k += 1;
        }
        r.push(m);
        i += 1;
    }
    r
}

/// The strongly connected components of the part of `g` on `verts`, each as
/// a word of vertices of `g`, an edge's target never in a later word than
/// its source. Unless the part is all 64 vertices, it is first renumbered
/// to a dense range, so that the decomposition walks no vertex outside it.
fn component_masks(g: &IntGraph, verts: u64) -> (r: Vec<u64>)
    requires
        g.valid(),
    ensures
        is_split(g, verts, r@),
{
    let n = g.len();
    let low = low_bits(n);
    let cut = verts & low;
    proof {
        assert forall|j: int| 0 <= j < 64 implies #[trigger] word_bit(cut, j) == (word_bit(verts, j)
            && j < n) by {
            lemma_bit_ops(verts, low, j);
        }
    }
    if cut == u64::MAX {
        let comps = g.strongly_connected_components();
        let r = masks_of_components(&comps, None);
        proof {
            lemma_bit_ops(0, 0, 63);
            assert(word_bit(cut, 63));
            assert(n == 64);
            let list = id_list(None);
            assert forall|a: int| 0 <= a < list.len() implies 0 <= #[trigger] list[a] < 64
                && word_bit(verts, list[a]) && list[a] < g.order() by {
                lemma_bit_ops(0, 0, a);
                assert(word_bit(cut, a));
            }
            assert forall|j: int| 0 <= j < 64 && word_bit(verts, j) && j < g.order() implies exists|
                a: int,
            | 0 <= a < list.len() && #[trigger] list[a] == j by {
                assert(0 <= j < list.len() && list[j] == j);
            }
            lemma_split(g, verts, g, comps@, list, r@);
        }
        r
    } else {
        let (small, ids) = g.compacted(cut);
        let comps = small.strongly_connected_components();
        let r = masks_of_components(&comps, Some(&ids));
        proof {
            let list = id_list(Some(&ids));
            assert forall|j: int| 0 <= j < 64 && word_bit(verts, j) && j < g.order() implies exists|
                a: int,
            | 0 <= a < list.len() && #[trigger] list[a] == j by {
                assert(word_bit(cut, j));
                let a = ids@.index_of(j as Node);
                assert(0 <= a < list.len() && list[a] == j);
            }
            assert forall|a: int| 0 <= a < list.len() implies 0 <= #[trigger] list[a] < 64
                && word_bit(verts, list[a]) && list[a] < g.order() by {
                assert(word_bit(cut, ids@[a] as int));
            }
            lemma_split(g, verts, &small, comps@, list, r@);
        }
        r
    }
}

/// Whether every edge from a vertex of `part` to a vertex of `verts` ends in
/// `done` or in `part`.
fn edges_within(g: &IntGraph, verts: u64, done: u64, part: u64) -> (r: bool)
    requires
        g.valid(),
    ensures
        r == edges_stay(g, verts, done, part),
{
    let n = g.len();
    let inside = done | part;
    let mut u: usize = 0;
    while u < n
        invariant
            g.valid(),
            n == g.order(),
            u <= n,
            inside == done | part,
            forall|a: int, w: int|
                0 <= a < u && #[trigger] g.has_edge(a, w) && word_bit(part, a) && word_bit(verts, w)
                    ==> word_bit(done, w) || word_bit(part, w),
        decreases n - u,
    {
        if test_bit(part, u) {
            let out = g.out_mask(u);
            let leaving = (out & verts) & !inside;
            if leaving != 0 {
                proof {
                    lemma_lowest_set(leaving);
                    let t = vstd::std_specs::bits::u64_trailing_zeros(leaving) as int;
                    lemma_bit_ops(out, verts, t);
                    lemma_bit_ops(out & verts, inside, t);
                    lemma_bit_ops(done, part, t);
                    assert(word_bit(g.masks()[u as int], t));
                    assert(g.has_edge(u as int, t));
                    assert(word_bit(part, u as int) && word_bit(verts, t));
                    assert(!(word_bit(done, t) || word_bit(part, t)));
                }
                return false;
            }
            proof {
                lemma_zero_word(leaving);
                assert forall|a: int, w: int|
                    0 <= a < u + 1 && #[trigger] g.has_edge(a, w) && word_bit(part, a) && word_bit(
                        verts,
                        w,
                    ) implies word_bit(done, w) || word_bit(part, w) by {
                    if a == u {
                        lemma_bit_ops(out, verts, w);
                        lemma_bit_ops(out & verts, inside, w);
                        lemma_bit_ops(done, part, w);
                        assert(!word_bit(leaving, w));
                    }
                }
            }
        }
        u += 1;
    }
    proof {
        assert forall|a: int, w: int|
            #[trigger] g.has_edge(a, w) && word_bit(part, a) && word_bit(verts, w) implies word_bit(
            done,
            w,
        ) || word_bit(part, w) by {
            assert(0 <= a < n);
        }
    }
    true
}

/// A smallest set of vertices of `verts`, none of them forbidden and fewer
/// than `limit`, whose removal leaves `verts` without a cycle. Self-looped
/// vertices are taken first; then the strongly connected components are
/// solved one by one, each under the bound that the earlier ones leave.
/// The decomposition is used only as far as it checks out: each component
/// must lie apart from the earlier ones and send its edges to them or to
/// itself. Otherwise the search branches on `verts` as a whole.
fn solve(g: &IntGraph, verts: u64, forbidden: u64, limit: usize, stats: &mut BBStats) -> (r: Option<
    (u64, usize),
>)
    requires
        g.valid(),
    ensures
        answers(g, verts, forbidden, limit as nat, r),
        not_less(*final(stats), *old(stats)),
    decreases popcount(verts) + popcount(verts & !forbidden), 1nat,
{
    stats.count_node();
    if limit == 0 {
        return None;
    }
    let sub = g.without(!verts);
    proof {
        lemma_sub_acyclic(g, &sub, verts);
    }
    if sub.is_acyclic() {
        proof {
            lemma_nothing_needed(g, verts, forbidden, limit as nat);
        }
        return Some((0, 0));
    }
    let loops = self_loops(g, verts);
    if loops != 0 {
        proof {
            lemma_disjoint_zero(loops, forbidden);
        }
        if loops & forbidden != 0 {
            proof {
                lemma_forced_forbidden(g, verts, forbidden, loops, limit as nat);
            }
            return None;
        }
        let k = count_bits(loops);
        if k >= limit {
            proof {
                lemma_forced_many(g, verts, forbidden, loops);
            }
            return None;
        }
        stats.count_forced(k as u64);
        let rest = verts & !loops;
        proof {
            assert forall|j: int| 0 <= j < 64 implies #[trigger] word_bit(rest, j) == (word_bit(
                verts,
                j,
            ) && !word_bit(loops, j)) by {
                lemma_bit_ops(verts, loops, j);
            }
            lemma_lowest_set(loops);
            assert(word_bit(loops, vstd::std_specs::bits::u64_trailing_zeros(loops) as int));
            lemma_shrinks(rest, verts, forbidden, forbidden);
        }
        let inner = solve(g, rest, forbidden, limit - k, stats);
        let outer = match inner {
            None => None,
            Some((s, c)) => Some((s | loops, c + k)),
        };
        proof {
            lemma_forced_step(g, verts, forbidden, loops, rest, limit as nat, k, inner, outer);
        }
        return outer;
    }
    let comps = component_masks(g, verts);
    let mut taken: u64 = 0;
    let mut committed: usize = 0;
    let mut done: u64 = 0;
    let mut i: usize = 0;
    proof {
        lemma_split_start(g, verts, forbidden);
        lemma_zero_word(loops);
        assert forall|j: int| 0 <= j < 64 implies !(word_bit(verts, j) && g.has_edge(j, j)) by {
            assert(!word_bit(loops, j));
        }
    }
    while i < comps.len()
        invariant
            g.valid(),
            i <= comps@.len(),
            limit > 0,
            !acyclic_in(g, verts, 0),
            forall|j: int| 0 <= j < 64 ==> !(word_bit(verts, j) && g.has_edge(j, j)),
            split_so_far(g, verts, forbidden, done, taken, committed as nat),
            committed < limit,
            not_less(*stats, *old(stats)),
        decreases comps@.len() - i,
    {
        let c = comps[i] & verts;
        if c != 0 {
            proof {
                assert forall|j: int| 0 <= j < 64 implies #[trigger] word_bit(c, j) == (word_bit(
                    comps@[i as int],
                    j,
                ) && word_bit(verts, j)) by {
                    lemma_bit_ops(comps@[i as int], verts, j);
                }
                lemma_disjoint_zero(c, done);
                lemma_lowest_set(c);
            }
            if c & done != 0 || !edges_within(g, verts, done, c) {
                return branch(g, verts, forbidden, limit, stats);
            }
            let sub_limit = limit - committed;
            let v = c.trailing_zeros() as usize;
            let part = if c == single(v) {
                proof {
                    lemma_singleton(g, c, v as int, forbidden);
                }
                Some((0u64, 0usize))
            } else if c == verts {
                branch(g, verts, forbidden, sub_limit, stats)
            } else {
                proof {
                    lemma_shrinks(c, verts, forbidden, forbidden);
                }
                solve(g, c, forbidden, sub_limit, stats)
            };
            match part {
                None => {
                    proof {
                        lemma_split_fail(
                            g,
                            verts,
                            forbidden,
                            done,
                            taken,
                            committed as nat,
                            c,
                            sub_limit as nat,
                        );
                    }
                    return None;
                },
                Some((s, k)) => {
                    proof {
                        lemma_split_step(
                            g,
                            verts,
                            forbidden,
                            done,
                            taken,
                            committed as nat,
                            c,
                            s,
                            k as nat,
                        );
                    }
                    taken = taken | s;
                    done = done | c;
                    committed = committed + k;
                },
            }
        }
        i += 1;
    }
    if done != verts {
        return branch(g, verts, forbidden, limit, stats);
    }
    proof {
        lemma_split_done(g, verts, forbidden, taken, committed, limit as nat);
    }
    Some((taken, committed))
}

/// Branches on the lowest vertex of `verts` that is not forbidden: first it
/// is taken into the solution, then it is forbidden, under the bound that
/// the first answer sets; the second answer wins where there is one.
fn branch(g: &IntGraph, verts: u64, forbidden: u64, limit: usize, stats: &mut BBStats) -> (r: Option<
    (u64, usize),
>)
    requires
        g.valid(),
        !acyclic_in(g, verts, 0),
    ensures
        answers(g, verts, forbidden, limit as nat, r),
        not_less(*final(stats), *old(stats)),
    decreases popcount(verts) + popcount(verts & !forbidden), 0nat,
{
    proof {
        lemma_needs_one(g, verts, forbidden);
    }
    if limit <= 1 {
        return None;
    }
    let candidates = verts & !forbidden;
    if candidates == 0 {
        proof {
            lemma_no_candidates(g, verts, forbidden, limit as nat);
        }
        return None;
    }
    stats.count_branching();
    proof {
        lemma_lowest_set(candidates);
    }
    let v = candidates.trailing_zeros() as usize;
    let b = single(v);
    let rest = verts & !b;
    let more = forbidden | b;
    proof {
        lemma_bit_ops(verts, forbidden, v as int);
        assert forall|j: int| 0 <= j < 64 implies #[trigger] word_bit(rest, j) == (word_bit(verts, j)
            && j != v) by {
            lemma_bit_ops(verts, b, j);
        }
        assert forall|j: int| 0 <= j < 64 implies #[trigger] word_bit(more, j) == (word_bit(
            forbidden,
            j,
        ) || j == v) by {
            lemma_bit_ops(forbidden, b, j);
        }
        lemma_shrinks(rest, verts, forbidden, forbidden);
        lemma_excluded(verts, forbidden, more, v as int);
    }
    let with_v = solve(g, rest, forbidden, limit - 1, stats);
    let bound = match with_v {
        Some((s, c)) => c + 1,
        None => limit,
    };
    let without_v = solve(g, verts, more, bound, stats);
    let result = match without_v {
        Some(x) => Some(x),
        None => match with_v {
            Some((s, c)) => Some((s | b, c + 1)),
            None => None,
        },
    };
    proof {
        lemma_branch_result(
            g,
            verts,
            forbidden,
            v as int,
            b,
            rest,
            more,
            limit as nat,
            with_v,
            bound as nat,
            without_v,
            result,
        );
    }
    result
}

/// A part of `verts` that is not all of it is a smaller problem, whatever
/// is forbidden.
proof fn lemma_shrinks(part: u64, verts: u64, forbidden: u64, more: u64)
    requires
        mask_subset(part, verts),
        part != verts,
        mask_subset(forbidden, more),
    ensures
        popcount(part) + popcount(part & !more) < popcount(verts) + popcount(verts & !forbidden),
{
    lemma_popcount_subset(part, verts);
    assert forall|j: int| 0 <= j < 64 && #[trigger] word_bit(part & !more, j) implies word_bit(
        verts & !forbidden,
        j,
    ) by {
        lemma_bit_ops(part, more, j);
        lemma_bit_ops(verts, forbidden, j);
    }
    lemma_popcount_subset(part & !more, verts & !forbidden);
}

/// Forbidding one more vertex of `verts` leaves fewer vertices to choose
/// from.
proof fn lemma_excluded(verts: u64, forbidden: u64, more: u64, v: int)
    requires
        0 <= v < 64,
        word_bit(verts, v),
        !word_bit(forbidden, v),
        forall|j: int| 0 <= j < 64 ==> #[trigger] word_bit(more, j) == (word_bit(forbidden, j) || j == v),
    ensures
        popcount(verts & !more) < popcount(verts & !forbidden),
{
    assert forall|j: int| 0 <= j < 64 && #[trigger] word_bit(verts & !more, j) implies word_bit(
        verts & !forbidden,
        j,
    ) by {
        lemma_bit_ops(verts, more, j);
        lemma_bit_ops(verts, forbidden, j);
    }
    lemma_bit_ops(verts, more, v);
    lemma_bit_ops(verts, forbidden, v);
    lemma_popcount_subset(verts & !more, verts & !forbidden);
}

/// The vertices that a solution names, as a set.
pub open spec fn vertex_set(sol: Seq<Node>) -> Set<int> {
    Set::new(|u: int| 0 <= u <= u32::MAX && sol.contains(u as Node))
}

/// `sol` lists vertices of the graph in strictly ascending order, and the
/// graph has no cycle once they are removed.
pub open spec fn is_feedback_vertex_set<G: AdjacencyList>(g: &G, sol: Seq<Node>) -> bool {
    &&& forall|k: int| 0 <= k < sol.len() ==> #[trigger] sol[k] < g.order()
    &&& forall|a: int, b: int| 0 <= a < b < sol.len() ==> sol[a] < sol[b]
    &&& acyclic_without(g, vertex_set(sol))
}

/// The bound that a search works under: the one given, or the number of
/// vertices.
pub open spec fn bound_of(upper_bound: Option<Node>, order: nat) -> nat {
    match upper_bound {
        Some(b) => b as nat,
        None => order,
    }
}

/// What a search under `bound` owes: a feedback vertex set of at most
/// `bound` vertices that no other undercuts; or nothing, where every
/// feedback vertex set has more than `bound` vertices.
pub open spec fn is_answer<G: AdjacencyList>(g: &G, bound: nat, r: Option<Seq<Node>>) -> bool {
    match r {
        Some(sol) => is_feedback_vertex_set(g, sol) && sol.len() <= bound && forall|
            other: Seq<Node>,
        | #[trigger] is_feedback_vertex_set(g, other) ==> sol.len() <= other.len(),
        None => forall|other: Seq<Node>| #[trigger]
            is_feedback_vertex_set(g, other) ==> other.len() > bound,
    }
}

/// The word with the bits of the first `k` vertices of `sol`.
pub open spec fn mask_of(sol: Seq<Node>, k: nat) -> u64
    decreases k,
{
    if k == 0 {
        0
    } else {
        mask_of(sol, (k - 1) as nat) | (1u64 << (sol[k - 1] as u64))
    }
}

/// The word of an ascending list of vertices below 64 has exactly their
/// bits, one for each.
proof fn lemma_mask_of(sol: Seq<Node>, k: nat)
    requires
        k <= sol.len(),
        forall|i: int| 0 <= i < sol.len() ==> #[trigger] sol[i] < 64,
        forall|a: int, b: int| 0 <= a < b < sol.len() ==> sol[a] < sol[b],
    ensures
        forall|j: int|
            0 <= j < 64 ==> (#[trigger] word_bit(mask_of(sol, k), j) <==> exists|i: int|
                0 <= i < k && sol[i] == j),
        popcount(mask_of(sol, k)) == k,
    decreases k,
{
    if k == 0 {
        lemma_zero_word(0);
        lemma_popcount_zero(0);
    } else {
        lemma_mask_of(sol, (k - 1) as nat);
        let m = mask_of(sol, (k - 1) as nat);
        let x = sol[k - 1] as u64;
        let b = 1u64 << x;
        assert forall|j: int| 0 <= j < 64 implies #[trigger] word_bit(b, j) == (j == x) by {
            let ju = j as u64;
            assert((((1u64 << x) >> ju) & 1u64 == 1u64) <==> ju == x) by (bit_vector)
                requires
                    ju < 64,
                    x < 64,
            ;
        }
        assert forall|j: int| 0 <= j < 64 implies (#[trigger] word_bit(m | b, j) <==> exists|i: int|
            0 <= i < k && sol[i] == j) by {
            lemma_bit_ops(m, b, j);
            if word_bit(m, j) {
                let i = choose|i: int| 0 <= i < k - 1 && sol[i] == j;
                assert(0 <= i < k && sol[i] == j);
            }
            if j == x {
                assert(sol[k - 1] == j);
            }
            if exists|i: int| 0 <= i < k && sol[i] == j {
                let i = choose|i: int| 0 <= i < k && sol[i] == j;
                if i < k - 1 {
                    assert(word_bit(m, j));
                }
            }
        }
        assert(disjoint_masks(m, b)) by {
            assert forall|j: int| 0 <= j < 64 implies !(#[trigger] word_bit(m, j) && word_bit(b, j)) by {
                if word_bit(m, j) && word_bit(b, j) {
                    let i = choose|i: int| 0 <= i < k - 1 && sol[i] == j;
                    assert(sol[i] < sol[k - 1]);
                }
            }
        }
        lemma_disjoint_zero(m, b);
        lemma_popcount_disjoint(m, b, 64);
        lemma_popcount_single(b, x as int);
    }
}

/// A feedback vertex set of the graph, as a word, is feasible for the
/// encoded graph and has one bit for each of its vertices.
proof fn lemma_encode<G: AdjacencyList>(graph: &G, encoded: &IntGraph, all: u64, other: Seq<Node>)
    requires
        graph.order() <= 64,
        encoded.valid(),
        encoded.order() == graph.order(),
        forall|j: int| 0 <= j < 64 ==> #[trigger] word_bit(all, j) == (j < graph.order()),
        forall|u: int, w: int|
            encoded.has_edge(u, w) == (0 <= u < graph.order() && 0 <= w < graph.order()
                && graph.has_edge(u, w)),
        is_feedback_vertex_set(graph, other),
    ensures
        feasible(encoded, all, 0, mask_of(other, other.len())),
        popcount(mask_of(other, other.len())) == other.len(),
{
    let t = mask_of(other, other.len());
    lemma_mask_of(other, other.len());
    lemma_zero_word(0);
    assert(mask_subset(t, all)) by {
        assert forall|j: int| 0 <= j < 64 && #[trigger] word_bit(t, j) implies word_bit(all, j) by {
            let i = choose|i: int| 0 <= i < other.len() && other[i] == j;
            assert(other[i] < graph.order());
        }
    }
    let rank = choose|rank: spec_fn(int) -> nat| is_numbering(graph, vertex_set(other), rank);
    assert(numbers_in(encoded, all, t, rank)) by {
        assert forall|u: int, w: int|
            #[trigger] encoded.has_edge(u, w) && word_bit(all, u) && word_bit(all, w) && !word_bit(
                t,
                u,
            ) && !word_bit(t, w) implies rank(u) > rank(w) by {
            assert(graph.has_edge(u, w));
            if vertex_set(other).contains(u) {
                let i = other.index_of(u as Node);
                assert(0 <= i < other.len() && other[i] == u);
            }
            if vertex_set(other).contains(w) {
                let i = other.index_of(w as Node);
                assert(0 <= i < other.len() && other[i] == w);
            }
        }
    }
}

/// A feasible word of the encoded graph, listed in ascending order, is a
/// feedback vertex set of the graph.
proof fn lemma_decode<G: AdjacencyList>(
    graph: &G,
    encoded: &IntGraph,
    all: u64,
    s: u64,
    sol: Seq<Node>,
)
    requires
        graph.order() <= 64,
        encoded.valid(),
        encoded.order() == graph.order(),
        forall|j: int| 0 <= j < 64 ==> #[trigger] word_bit(all, j) == (j < graph.order()),
        forall|u: int, w: int|
            encoded.has_edge(u, w) == (0 <= u < graph.order() && 0 <= w < graph.order()
                && graph.has_edge(u, w)),
        feasible(encoded, all, 0, s),
        forall|a: int, b: int| 0 <= a < b < sol.len() ==> sol[a] < sol[b],
        forall|k: int| 0 <= k < sol.len() ==> #[trigger] sol[k] < 64 && word_bit(s, sol[k] as int),
        forall|j: int| 0 <= j < 64 && word_bit(s, j) ==> sol.contains(j as Node),
    ensures
        is_feedback_vertex_set(graph, sol),
{
    assert forall|k: int| 0 <= k < sol.len() implies #[trigger] sol[k] < graph.order() by {
        assert(word_bit(s, sol[k] as int));
        assert(word_bit(all, sol[k] as int));
    }
    let rank = choose|rank: spec_fn(int) -> nat| numbers_in(encoded, all, s, rank);
    assert(is_numbering(graph, vertex_set(sol), rank)) by {
        assert forall|u: int, w: int|
            0 <= u < graph.order() && 0 <= w < graph.order() && #[trigger] graph.has_edge(u, w)
                && !vertex_set(sol).contains(u) && !vertex_set(sol).contains(w) implies rank(u)
            > rank(w) by {
            assert(encoded.has_edge(u, w));
            assert(word_bit(all, u) && word_bit(all, w));
            assert(!sol.contains(u as Node));
            assert(!sol.contains(w as Node));
        }
    }
}

/// All vertices together are a feedback vertex set.
proof fn lemma_everything<G: AdjacencyList>(graph: &G)
    requires
        graph.order() <= 64,
    ensures
        is_feedback_vertex_set(graph, Seq::new(graph.order(), |i: int| i as Node)),
{
    let sol = Seq::new(graph.order(), |i: int| i as Node);
    let rank = |u: int| 0nat;
    assert(is_numbering(graph, vertex_set(sol), rank)) by {
        assert forall|u: int, w: int|
            0 <= u < graph.order() && 0 <= w < graph.order() && #[trigger] graph.has_edge(u, w)
                && !vertex_set(sol).contains(u) && !vertex_set(sol).contains(w) implies rank(u)
            > rank(w) by {
            assert(sol[u] == u as Node);
        }
    }
}

/// The set bits of a word as a list of vertices in ascending order.
pub fn included(mask: u64) -> (r: Vec<Node>)
    ensures
        r@.len() == popcount(mask),
        forall|a: int, b: int| 0 <= a < b < r@.len() ==> r@[a] < r@[b],
        forall|k: int| 0 <= k < r@.len() ==> #[trigger] r@[k] < 64 && word_bit(mask, r@[k] as int),
        forall|j: int| 0 <= j < 64 && word_bit(mask, j) ==> r@.contains(j as Node),
        r@.len() == positions(mask, 64).len(),
        forall|k: int| 0 <= k < r@.len() ==> #[trigger] r@[k] as int == positions(mask, 64)[k],
{
    let mut r: Vec<Node> = Vec::new();
    let mut j: usize = 0;
    while j < 64
        invariant
            j <= 64,
            r@.len() == count_upto(bits_of(mask), j as nat),
            r@.len() == positions(mask, j as nat).len(),
            forall|k: int|
                0 <= k < r@.len() ==> #[trigger] r@[k] as int == positions(mask, j as nat)[k],
            forall|a: int, b: int| 0 <= a < b < r@.len() ==> r@[a] < r@[b],
            forall|k: int| 0 <= k < r@.len() ==> #[trigger] r@[k] < j && word_bit(mask, r@[k] as int),
            forall|w: int| 0 <= w < j && word_bit(mask, w) ==> r@.contains(w as Node),
        decreases 64 - j,
    {
        if test_bit(mask, j) {
            let ghost before = r@;
            r.push(j as Node);
            proof {
                assert forall|w: int| 0 <= w < j + 1 && word_bit(mask, w) implies r@.contains(
                    w as Node,
                ) by {
                    if w < j {
                        let i = choose|i: int| 0 <= i < before.len() && before[i] == w as Node;
                        assert(r@[i] == w as Node);
                    } else {
                        assert(r@[before.len() as int] == w as Node);
                    }
                }
            }
        }
        j += 1;
    }
    r
}

/// A smallest feedback vertex set of at most `upper_bound` vertices, or of
/// any size where no bound is given; `None` where the bound admits none.
pub fn branch_and_bound<G: AdjacencyList>(graph: &G, upper_bound: Option<Node>) -> (r: Option<
    Vec<Node>,
>)
    requires
        graph.wf(),
        graph.order() <= 64,
    ensures
        is_answer(
            graph,
            bound_of(upper_bound, graph.order()),
            match r {
                Some(sol) => Some(sol@),
                None => None,
            },
        ),
        bound_of(upper_bound, graph.order()) >= graph.order() ==> r.is_some(),
{
    let mut stats = BBStats::new();
    branch_and_bound_stats(graph, upper_bound, &mut stats)
}

/// As `branch_and_bound`, counting the search effort into `stats`: the
/// subproblems entered, the vertices taken for their self-loops, and the
/// branchings. No counter ever falls.
pub fn branch_and_bound_stats<G: AdjacencyList>(
    graph: &G,
    upper_bound: Option<Node>,
    stats: &mut BBStats,
) -> (r: Option<Vec<Node>>)
    requires
        graph.wf(),
        graph.order() <= 64,
    ensures
        is_answer(
            graph,
            bound_of(upper_bound, graph.order()),
            match r {
                Some(sol) => Some(sol@),
                None => None,
            },
        ),
        bound_of(upper_bound, graph.order()) >= graph.order() ==> r.is_some(),
        not_less(*final(stats), *old(stats)),
{
    let n = graph.len();
    let ub: usize = match upper_bound {
        Some(b) => b as usize,
        None => n,
    };
    let limit: usize = if ub >= 64 { 65 } else { ub + 1 };
    let encoded = IntGraph::from_graph(graph);
    let all = encoded.active();
    let found = solve(&encoded, all, 0, limit, stats);
    proof {
        lemma_everything(graph);
        assert forall|other: Seq<Node>| #[trigger] is_feedback_vertex_set(graph, other) implies (
        match found {
            Some((s, c)) => other.len() >= c,
            None => other.len() > ub,
        }) by {
            lemma_encode(graph, &encoded, all, other);
            lemma_count_bounds(bits_of(mask_of(other, other.len())), 64);
        }
    }
    match found {
        None => None,
        Some((s, c)) => {
            let sol = included(s);
            proof {
                lemma_decode(graph, &encoded, all, s, sol@);
            }
            Some(sol)
        },
    }
}

/// One run of the search on a graph, kept with its result.
pub struct BranchAndBound<'a, G> {
    graph: &'a G,
    solution: Option<Vec<Node>>,
}

impl<'a, G: AdjacencyList> BranchAndBound<'a, G> {
    /// The graph that is searched.
    pub closed spec fn graph(&self) -> &G {
        self.graph
    }

    /// The result so far.
    pub closed spec fn solution(&self) -> Option<Seq<Node>> {
        match self.solution {
            Some(sol) => Some(sol@),
            None => None,
        }
    }

    /// A search on `graph` that has not run yet.
    pub fn new(graph: &'a G) -> (r: Self)
        ensures
            r.graph() == graph,
            r.solution().is_none(),
    {
        Self { graph, solution: None }
    }

    /// Runs the search to its end, without a bound.
    pub fn execute_step(&mut self)
        requires
            old(self).graph().wf(),
            old(self).graph().order() <= 64,
        ensures
            final(self).graph() == old(self).graph(),
            final(self).solution().is_some(),
            is_answer(final(self).graph(), final(self).graph().order(), final(self).solution()),
    {
        self.solution = branch_and_bound(self.graph, None);
    }

    /// Whether the search has run.
    pub fn is_completed(&self) -> (r: bool)
        ensures
            r == self.solution().is_some(),
    {
        self.solution.is_some()
    }

    /// The result of the search, if it has run.
    pub fn best_known_solution(&self) -> (r: Option<&[Node]>)
        ensures
            match r {
                Some(sol) => self.solution() == Some(sol@),
                None => self.solution().is_none(),
            },
    {
        match &self.solution {
            Some(sol) => Some(sol.as_slice()),
            None => None,
        }
    }
}

} // verus!
