use dfvs::exact::branch_and_bound::bb_graph::IntGraph;
use dfvs::exact::branch_and_bound::bb_stats::BBStats;
use dfvs::exact::branch_and_bound::{
    branch_and_bound, branch_and_bound_stats, count_bits, included, BranchAndBound,
};
use dfvs::graph::connectivity::Connectivity;
use dfvs::graph::{AdjListMatrix, AdjacencyList, Node};
use rand::prelude::SliceRandom;

#[test]
fn bb() {
    {
        // graph is acyclic -> solution {}
        assert_eq!(
            branch_and_bound(&AdjListMatrix::from(&[(0, 1)]), None).unwrap(),
            vec![]
        );
    }

    {
        // graph has loop at 0 -> solution {0}
        assert_eq!(
            branch_and_bound(&AdjListMatrix::from(&[(0, 1), (0, 0)]), None,).unwrap(),
            vec![0]
        );
    }

    {
        // graph has loop at 0 -> solution {0}
        assert_eq!(
            branch_and_bound(&AdjListMatrix::from(&[(0, 1), (0, 0)]), None,).unwrap(),
            vec![0]
        );
    }

    {
        // graph has loop at 0, 3 -> solution {0, 3}
        assert_eq!(
            branch_and_bound(&AdjListMatrix::from(&[(0, 1), (0, 0), (3, 3)]), None,).unwrap(),
            vec![0, 3]
        );
    }

    {
        // no solution, as limit too low
        assert!(
            branch_and_bound(&AdjListMatrix::from(&[(0, 1), (0, 0), (3, 3)]), Some(1),)
                .is_none()
        );
    }

    {
        // graph has loop at 2 -> solution {2}
        let graph = AdjListMatrix::from(&[(0, 1), (1, 2), (2, 3), (3, 0), (2, 2)]);
        assert_eq!(branch_and_bound(&graph, None).unwrap(), vec![2]);
    }

    {
        // graph has loop at 0, 3 -> solution {0, 3}
        let graph = AdjListMatrix::from(&[(0, 0), (1, 2), (2, 3), (3, 4), (4, 1), (3, 3)]);
        assert_eq!(branch_and_bound(&graph, None).unwrap(), vec![0, 3]);
    }

    {
        // graph has loop at 0, 3 -> solution {0, 3}
        let mut nodes = [0, 1, 2, 3, 4, 5];
        let graph = AdjListMatrix::from(&[(0, 0), (1, 2), (2, 3), (3, 4), (4, 1), (5, 5)]);

        for _ in 0..10 {
            nodes.shuffle(&mut rand::thread_rng());
            let solution = branch_and_bound(&graph, None).unwrap();
            assert_eq!(solution.len(), 3);
            assert_eq!(solution[0], 0);
            assert!(1 <= solution[1] && solution[1] < 5);
            assert_eq!(solution[2], 5);
        }
    }
}

#[test]
fn bb_scc_specific() {
    // limit reached in first scc
    assert!(branch_and_bound(
        &AdjListMatrix::from(&[(0, 1), (1, 0), (2, 3), (3, 2)]),
        Some(1),
    )
    .is_none());

    // limit reached in second scc
    assert!(branch_and_bound(
        &AdjListMatrix::from(&[
            (0, 1),
            (1, 0),
            (2, 3),
            (2, 4),
            (3, 3),
            (3, 4),
            (4, 2),
            (5, 5)
        ]),
        Some(3),
    )
    .is_none());

    assert_eq!(
        branch_and_bound(
            &AdjListMatrix::from(&[(0, 1), (0, 2), (1, 1), (1, 2), (2, 0),]),
            Some(3),
        )
        .unwrap(),
        vec![0, 1]
    );

    assert_eq!(
        branch_and_bound(
            &AdjListMatrix::from(&[
                (0, 1),
                (1, 0),
                (2, 3),
                (2, 4),
                (3, 3),
                (3, 4),
                (4, 2),
                (5, 5)
            ]),
            Some(4),
        )
        .unwrap(),
        vec![0, 2, 3, 5]
    );

    assert_eq!(
        branch_and_bound(
            &AdjListMatrix::from(&[
                (0, 3),
                (1, 0),
                (1, 2),
                (1, 3),
                (2, 4),
                (3, 1),
                (4, 0),
                (4, 2),
            ]),
            None,
        )
        .unwrap(),
        vec![1, 2]
    );

    assert_eq!(
        branch_and_bound(
            &AdjListMatrix::from(&[(0, 3), (1, 0), (1, 2), (1, 3), (2, 4), (3, 1), (4, 2),]),
            None,
        )
        .unwrap(),
        vec![1, 2]
    );

    // several recursive sccs when removing a node
    assert_eq!(
        branch_and_bound(
            &AdjListMatrix::from(&[
                (0, 1),
                (1, 4),
                (2, 1),
                (2, 3),
                (2, 4),
                (3, 5),
                (4, 2),
                (5, 3),
                (5, 0)
            ]),
            None,
        )
        .unwrap(),
        vec![2, 3]
    );
}

fn test_graphs() -> Vec<Vec<(Node, Node)>> {
    vec![
        vec![(0, 1)],
        vec![(0, 1), (0, 0)],
        vec![(0, 1), (0, 0), (3, 3)],
        vec![(0, 1), (1, 2), (2, 3), (3, 0), (2, 2)],
        vec![(0, 0), (1, 2), (2, 3), (3, 4), (4, 1), (3, 3)],
        vec![(0, 0), (1, 2), (2, 3), (3, 4), (4, 1), (5, 5)],
        vec![(0, 1), (1, 0), (2, 3), (3, 2)],
        vec![(0, 1), (1, 0), (2, 3), (2, 4), (3, 3), (3, 4), (4, 2), (5, 5)],
        vec![(0, 3), (1, 0), (1, 2), (1, 3), (2, 4), (3, 1), (4, 0), (4, 2)],
        vec![(0, 1), (1, 4), (2, 1), (2, 3), (2, 4), (3, 5), (4, 2), (5, 3), (5, 0)],
        vec![(0, 1), (1, 2), (2, 0), (2, 3), (3, 4), (4, 2), (4, 5), (5, 6), (6, 4), (6, 0)],
    ]
}

#[test]
fn removing_the_solution_leaves_only_trivial_components() {
    for edges in test_graphs() {
        let graph = AdjListMatrix::from(&edges);
        let solution = branch_and_bound(&graph, None).unwrap();
        let kept: Vec<(Node, Node)> = edges
            .iter()
            .filter(|(u, v)| !solution.contains(u) && !solution.contains(v))
            .cloned()
            .collect();
        let mut residual = AdjListMatrix::new(graph.len());
        for (u, v) in &kept {
            residual.add_edge(*u, *v);
        }
        let sccs = residual.strongly_connected_components();
        assert_eq!(sccs.len(), graph.len());
        for scc in &sccs {
            assert_eq!(scc.len(), 1);
            assert!(!residual.out_neighbors(scc[0]).contains(&scc[0]));
        }
        let encoded = IntGraph::from_graph(&residual);
        assert!(encoded.is_acyclic());
    }
}

#[test]
fn a_single_self_loop_is_its_own_solution() {
    assert_eq!(branch_and_bound(&AdjListMatrix::from(&[(0, 0)]), None).unwrap(), vec![0]);
    assert_eq!(branch_and_bound(&AdjListMatrix::from(&[(0, 0)]), Some(1)).unwrap(), vec![0]);
    assert!(branch_and_bound(&AdjListMatrix::from(&[(0, 0)]), Some(0)).is_none());
}

#[test]
fn a_bound_below_the_minimum_gives_nothing() {
    let edges = [(0, 1), (1, 0), (2, 3), (3, 2)];
    assert!(branch_and_bound(&AdjListMatrix::from(&edges), Some(0)).is_none());
    assert!(branch_and_bound(&AdjListMatrix::from(&edges), Some(1)).is_none());
    assert_eq!(branch_and_bound(&AdjListMatrix::from(&edges), Some(2)).unwrap(), vec![0, 2]);
    assert_eq!(branch_and_bound(&AdjListMatrix::from(&edges), Some(50)).unwrap(), vec![0, 2]);
    assert_eq!(branch_and_bound(&AdjListMatrix::from(&edges), Some(u32::MAX)).unwrap(), vec![0, 2]);
}

#[test]
fn solutions_are_smallest() {
    // a complete directed graph on five vertices needs four removals
    let mut edges: Vec<(Node, Node)> = Vec::new();
    for u in 0..5 {
        for v in 0..5 {
            if u != v {
                edges.push((u, v));
            }
        }
    }
    assert_eq!(branch_and_bound(&AdjListMatrix::from(&edges), None).unwrap(), vec![0, 1, 2, 3]);
    assert!(branch_and_bound(&AdjListMatrix::from(&edges), Some(3)).is_none());
    // two triangles that share the vertex 2
    let shared = [(0, 1), (1, 2), (2, 0), (2, 3), (3, 4), (4, 2)];
    assert_eq!(branch_and_bound(&AdjListMatrix::from(&shared), None).unwrap(), vec![2]);
    // a cycle over 40 vertices
    let ring: Vec<(Node, Node)> = (0..40).map(|i| (i, (i + 1) % 40)).collect();
    assert_eq!(branch_and_bound(&AdjListMatrix::from(&ring), None).unwrap(), vec![0]);
}

#[test]
fn the_widest_graph_is_solved() {
    let mut edges: Vec<(Node, Node)> = (0..63).map(|i| (i, i + 1)).collect();
    edges.push((63, 63));
    edges.push((10, 9));
    assert_eq!(branch_and_bound(&AdjListMatrix::from(&edges), None).unwrap(), vec![9, 63]);
}

#[test]
fn statistics_are_counted() {
    let mut stats = BBStats::new();
    assert_eq!(stats, BBStats { nodes: 0, forced: 0, branchings: 0 });
    let graph = AdjListMatrix::from(&[(0, 0), (1, 2), (2, 1)]);
    let solution = branch_and_bound_stats(&graph, None, &mut stats).unwrap();
    assert_eq!(solution, vec![0, 1]);
    assert_eq!(stats.forced, 1);
    assert_eq!(stats.branchings, 1);
    assert!(stats.nodes >= 3);
    let mut full = BBStats { nodes: u64::MAX, forced: 0, branchings: 0 };
    full.count_node();
    assert_eq!(full.nodes, u64::MAX);
}

#[test]
fn the_algorithm_object_runs_once() {
    let graph = AdjListMatrix::from(&[(0, 1), (1, 0), (1, 1)]);
    let mut algo = BranchAndBound::new(&graph);
    assert!(!algo.is_completed());
    assert_eq!(algo.best_known_solution(), None);
    algo.execute_step();
    assert!(algo.is_completed());
    assert_eq!(algo.best_known_solution(), Some(&[1u32][..]));
}

#[test]
fn encoded_graph_keeps_the_edges_and_forgets_removed_vertices() {
    let graph = AdjListMatrix::from(&[(0, 1), (1, 2), (2, 0), (2, 2)]);
    let mut encoded = IntGraph::from_graph(&graph);
    assert_eq!(encoded.len(), 3);
    assert_eq!(encoded.active(), 0b111);
    assert_eq!(encoded.out_mask(0), 0b010);
    assert_eq!(encoded.out_mask(2), 0b101);
    assert_eq!(encoded.in_mask(0), 0b100);
    assert_eq!(encoded.in_mask(1), 0b001);
    assert_eq!(encoded.in_mask(2), 0b110);
    assert!(encoded.has_self_loop(2));
    assert!(!encoded.has_self_loop(0));
    assert_eq!(encoded.out_neighbors(2), vec![0, 2]);
    assert!(!encoded.is_acyclic());
    let rest = encoded.without(0b100);
    assert_eq!(rest.active(), 0b011);
    assert_eq!(rest.out_mask(1), 0);
    assert_eq!(rest.out_mask(2), 0);
    assert_eq!(rest.in_mask(0), 0);
    assert_eq!(rest.in_mask(1), 0b001);
    assert!(rest.is_acyclic());
    encoded.remove_vertex(2);
    assert_eq!(encoded.active(), 0b011);
    assert_eq!(encoded.out_mask(0), 0b010);
    assert_eq!(encoded.out_mask(1), 0);
    assert!(encoded.is_acyclic());
}

#[test]
fn words_list_their_bits_in_ascending_order() {
    assert_eq!(included(0), Vec::<Node>::new());
    assert_eq!(included(0b1010_0001), vec![0, 5, 7]);
    assert_eq!(included(1 << 63), vec![63]);
    assert_eq!(count_bits(0), 0);
    assert_eq!(count_bits(0b1010_0001), 3);
    assert_eq!(count_bits(u64::MAX), 64);
}

#[test]
fn compaction_renumbers_in_ascending_order() {
    let graph = AdjListMatrix::from(&[(1, 3), (3, 4), (4, 1), (0, 1), (4, 2), (4, 4)]);
    let encoded = IntGraph::from_graph(&graph);
    let (small, ids) = encoded.compacted(0b11010);
    assert_eq!(ids, vec![1, 3, 4]);
    assert_eq!(small.len(), 3);
    assert_eq!(small.active(), 0b111);
    assert_eq!(small.out_mask(0), 0b010);
    assert_eq!(small.out_mask(1), 0b100);
    assert_eq!(small.out_mask(2), 0b101);
    assert_eq!(small.in_mask(0), 0b100);
    assert_eq!(small.in_mask(2), 0b110);
    let (none, no_ids) = encoded.compacted(0);
    assert_eq!(none.len(), 0);
    assert_eq!(no_ids, Vec::<Node>::new());
}

fn has_cycle(n: usize, edges: &[(Node, Node)], removed: u32) -> bool {
    // repeatedly drop vertices without an out-neighbour among those left
    let mut left: u32 = ((1u64 << n) - 1) as u32 & !removed;
    loop {
        let mut dropped = false;
        for v in 0..n as u32 {
            if left & (1 << v) != 0
                && !edges.iter().any(|(a, b)| *a == v && left & (1 << *b) != 0)
            {
                left &= !(1 << v);
                dropped = true;
            }
        }
        if !dropped {
            return left != 0;
        }
    }
}

#[test]
fn agrees_with_exhaustive_search_on_small_graphs() {
    let mut state: u64 = 0x2545_f491_4f6c_dd1d;
    let mut next = move || {
        state ^= state << 13;
        state ^= state >> 7;
        state ^= state << 17;
        state
    };
    for round in 0..60 {
        let n = 2 + (round % 7) as usize;
        let mut edges: Vec<(Node, Node)> = vec![(n as Node - 1, n as Node - 1)];
        for u in 0..n as Node {
            for v in 0..n as Node {
                if next() % 100 < 30 {
                    edges.push((u, v));
                }
            }
        }
        let mut least = u32::MAX;
        for set in 0u32..(1 << n) {
            if set.count_ones() < least && !has_cycle(n, &edges, set) {
                least = set.count_ones();
            }
        }
        let graph = AdjListMatrix::from(&edges);
        let solution = branch_and_bound(&graph, None).unwrap();
        assert_eq!(solution.len() as u32, least);
        let mut mask = 0u32;
        for v in &solution {
            mask |= 1 << v;
        }
        assert!(!has_cycle(n, &edges, mask));
        assert_eq!(branch_and_bound(&graph, Some(least)).unwrap(), solution);
        if least > 0 {
            assert!(branch_and_bound(&graph, Some(least - 1)).is_none());
        }
    }
}
