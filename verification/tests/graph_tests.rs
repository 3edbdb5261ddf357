use dfvs::graph::connectivity::{Connectivity, StronglyConnected};
use dfvs::graph::{AdjListMatrix, AdjacencyList, Node};

#[test]
fn scc() {
    let graph = AdjListMatrix::from(&[
        (0, 1),
        (1, 2),
        (1, 4),
        (1, 5),
        (2, 6),
        (2, 3),
        (3, 2),
        (3, 7),
        (4, 0),
        (4, 5),
        (5, 6),
        (6, 5),
        (7, 3),
        (7, 6),
    ]);

    let mut sccs = graph.strongly_connected_components();
    assert_eq!(sccs.len(), 3);
    assert!(!sccs[0].is_empty());
    assert!(!sccs[1].is_empty());
    assert!(!sccs[2].is_empty());

    for scc in &mut sccs {
        scc.sort();
    }
    sccs.sort_by(|a, b| a[0].cmp(&b[0]));
    assert_eq!(sccs[0], [0, 1, 4]);
    assert_eq!(sccs[1], [2, 3, 7]);
    assert_eq!(sccs[2], [5, 6]);
}

#[test]
fn scc_tree() {
    let graph = AdjListMatrix::from(&[(0, 1), (1, 2), (1, 3), (1, 4), (3, 5), (3, 6)]);

    let mut sccs = graph.strongly_connected_components();
    // in a directed tree each vertex is a strongly connected component
    assert_eq!(sccs.len(), 7);

    sccs.sort_by(|a, b| a[0].cmp(&b[0]));
    for (i, scc) in sccs.iter().enumerate() {
        assert_eq!(i as Node, scc[0]);
    }
}

#[test]
fn scc_of_a_single_cycle_is_one_component() {
    for k in [2u32, 3, 7, 40] {
        let edges: Vec<(Node, Node)> = (0..k).map(|i| (i, (i + 1) % k)).collect();
        let graph = AdjListMatrix::from(&edges);
        let mut sccs = graph.strongly_connected_components();
        assert_eq!(sccs.len(), 1);
        sccs[0].sort();
        assert_eq!(sccs[0], (0..k).collect::<Vec<Node>>());
    }
}

#[test]
fn scc_of_an_acyclic_graph_is_all_singletons() {
    let graph = AdjListMatrix::from(&[(0, 1), (0, 2), (1, 3), (2, 3), (3, 4), (0, 4), (5, 4)]);
    let sccs = graph.strongly_connected_components();
    assert_eq!(sccs.len(), 6);
    for scc in &sccs {
        assert_eq!(scc.len(), 1);
    }
}

#[test]
fn scc_lists_no_vertex_twice() {
    let graph = AdjListMatrix::from(&[(0, 1), (1, 0), (1, 2), (2, 3), (3, 2), (3, 0), (4, 4)]);
    let sccs = graph.strongly_connected_components();
    let mut seen: Vec<Node> = sccs.iter().flatten().cloned().collect();
    seen.sort();
    assert_eq!(seen, vec![0, 1, 2, 3, 4]);
}

#[test]
fn scc_components_come_in_the_order_their_roots_close() {
    let graph = AdjListMatrix::from(&[(0, 1), (1, 2), (2, 1)]);
    let sccs = StronglyConnected::new(&graph).find();
    assert_eq!(sccs, vec![vec![2, 1], vec![0]]);
}

#[test]
fn graph_from_edges() {
    let graph = AdjListMatrix::from(&[(0, 3), (3, 1), (0, 1)]);
    assert_eq!(graph.len(), 4);
    assert_eq!(graph.number_of_nodes(), 4);
    assert_eq!(graph.out_neighbors(0), vec![3, 1]);
    assert_eq!(graph.out_neighbors(1), Vec::<Node>::new());
    assert_eq!(graph.out_neighbors(3), vec![1]);
    let empty = AdjListMatrix::from(&[]);
    assert_eq!(empty.len(), 0);
    assert_eq!(empty.strongly_connected_components().len(), 0);
    let mut grown = AdjListMatrix::new(3);
    grown.add_edge(2, 0);
    assert_eq!(grown.out_neighbors(2), vec![0]);
}

#[test]
fn scc_edges_lead_into_the_same_or_an_earlier_component() {
    let graphs: Vec<Vec<(Node, Node)>> = vec![
        vec![(0, 1), (1, 2), (2, 1), (2, 3), (3, 4), (4, 3), (0, 4)],
        vec![(3, 2), (2, 1), (1, 0), (0, 3), (4, 0), (5, 4), (4, 5), (6, 6)],
        vec![(0, 1), (1, 2), (1, 4), (1, 5), (2, 6), (2, 3), (3, 2), (3, 7), (4, 0), (4, 5), (5, 6), (6, 5), (7, 3), (7, 6)],
    ];
    for edges in graphs {
        let graph = AdjListMatrix::from(&edges);
        let sccs = graph.strongly_connected_components();
        let place = |v: Node| sccs.iter().position(|c| c.contains(&v)).unwrap();
        for (u, v) in &edges {
            assert!(place(*v) <= place(*u));
        }
    }
}
