use hydro::graph::SolverGraph;
use hydro::orient::{
    bfs_build_oriented, mst_adj_to_solver_graph, sort_edges, sorted_pair, steiner_to_solver_graph,
};
use hydro::steiner::SteinerTree;

fn undirected_graph(edges: &[(&str, &str, f64)]) -> SolverGraph<f64> {
    let mut sg = SolverGraph::new();
    for (a, b, w) in edges {
        sg.add_edge(a, b, *w);
        sg.add_edge(b, a, *w);
    }
    sg
}

fn orient_and_kahn(undirected: &SolverGraph<f64>, outlet: &str) -> Vec<String> {
    let outlet_idx = undirected.node_index(outlet).expect("outlet must be in graph");
    let (oriented, _in_oriented) = bfs_build_oriented(undirected, outlet_idx);
    oriented
        .sorted_kahn_topo_sort()
        .expect("acyclic oriented tree must not fail")
        .iter()
        .map(|&idx| oriented.node_id(idx).to_owned())
        .collect()
}

fn out_names(g: &SolverGraph<f64>, name: &str) -> Vec<(String, f64)> {
    let i = g.node_index(name).unwrap();
    g.sorted_neighbors(i)
        .iter()
        .map(|&(j, w)| (g.node_id(j).to_string(), w))
        .collect()
}

#[test]
fn sewer_topo_order_snapshot() {
    let sg = undirected_graph(&[
        ("g0", "g1", 10.0),
        ("g1", "g2", 10.0),
        ("g0", "g3", 10.0),
        ("g3", "g4", 10.0),
    ]);
    let order = orient_and_kahn(&sg, "g0");
    assert_eq!(
        order,
        vec!["g2", "g1", "g4", "g3", "g0"],
        "expected lex-Kahn order [g2, g1, g4, g3, g0], got {:?}",
        order
    );
}

#[test]
fn ws_mst_adj_to_solver_graph_bfs_visit_order_snapshot() {
    let mst_adj: Vec<(String, Vec<(String, f64)>)> = vec![
        (
            "source".to_string(),
            vec![("a".to_string(), 1.0), ("b".to_string(), 1.0)],
        ),
        (
            "a".to_string(),
            vec![("source".to_string(), 1.0), ("c".to_string(), 1.0)],
        ),
        (
            "b".to_string(),
            vec![("source".to_string(), 1.0), ("d".to_string(), 1.0)],
        ),
        ("c".to_string(), vec![("a".to_string(), 1.0)]),
        ("d".to_string(), vec![("b".to_string(), 1.0)]),
    ];

    let sg: SolverGraph<f64> = mst_adj_to_solver_graph(&mst_adj);

    let source_idx = sg.node_index("source").expect("source must be in sg");
    let visit_order = sg.bfs_oriented(source_idx);
    let ids: Vec<&str> = visit_order.iter().map(|&idx| sg.node_id(idx)).collect();

    assert_eq!(
        ids,
        vec!["source", "a", "b", "c", "d"],
        "BFS from source in MST SolverGraph must yield lex-sorted visit order, got {:?}",
        ids
    );
}

#[test]
fn mst_adj_load_does_not_depend_on_list_order() {
    let one: Vec<(String, Vec<(String, f64)>)> = vec![
        ("b".to_string(), vec![("a".to_string(), 2.0)]),
        ("a".to_string(), vec![("b".to_string(), 2.0), ("c".to_string(), 1.0)]),
        ("c".to_string(), vec![("a".to_string(), 1.0)]),
    ];
    let two: Vec<(String, Vec<(String, f64)>)> = vec![
        ("c".to_string(), vec![("a".to_string(), 1.0)]),
        ("a".to_string(), vec![("c".to_string(), 1.0), ("b".to_string(), 2.0)]),
        ("b".to_string(), vec![("a".to_string(), 2.0)]),
    ];
    let g1 = mst_adj_to_solver_graph(&one);
    let g2 = mst_adj_to_solver_graph(&two);
    assert_eq!(g1.node_count(), 3);
    assert_eq!(g1.edge_count(), 4);
    for i in 0..3 {
        assert_eq!(g1.node_id(i), g2.node_id(i));
    }
    // edges sorted by (from, to): (a,b) (a,c) (b,a) (c,a) → nodes a, b, c
    assert_eq!(g1.node_id(0), "a");
    assert_eq!(g1.node_id(1), "b");
    assert_eq!(g1.node_id(2), "c");
    assert_eq!(out_names(&g1, "a"), out_names(&g2, "a"));
    assert_eq!(out_names(&g1, "a"), vec![("b".to_string(), 2.0), ("c".to_string(), 1.0)]);
}

#[test]
fn sort_edges_orders_by_from_then_to_and_keeps_ties() {
    let edges = vec![
        ("b".to_string(), "a".to_string(), 1.0),
        ("a".to_string(), "c".to_string(), 2.0),
        ("a".to_string(), "b".to_string(), 3.0),
        ("a".to_string(), "b".to_string(), 4.0),
    ];
    let sorted = sort_edges(&edges);
    let keys: Vec<(&str, &str, f64)> = sorted
        .iter()
        .map(|(a, b, w)| (a.as_str(), b.as_str(), *w))
        .collect();
    assert_eq!(
        keys,
        vec![("a", "b", 3.0), ("a", "b", 4.0), ("a", "c", 2.0), ("b", "a", 1.0)]
    );
}

#[test]
fn sorted_pair_orders_both_ways() {
    assert_eq!(sorted_pair("g2", "g10"), ("g10".to_string(), "g2".to_string()));
    assert_eq!(sorted_pair("g10", "g2"), ("g10".to_string(), "g2".to_string()));
    assert_eq!(sorted_pair("x", "x"), ("x".to_string(), "x".to_string()));
    assert_eq!(sorted_pair("ab", "a"), ("a".to_string(), "ab".to_string()));
}

#[test]
fn steiner_to_solver_graph_adds_both_directions() {
    let tree = SteinerTree::new(
        vec!["n1".to_string(), "n2".to_string(), "n3".to_string()],
        vec![
            ("n1".to_string(), "n2".to_string(), 1.5),
            ("n3".to_string(), "n2".to_string(), 2.5),
        ],
    );
    let sg = steiner_to_solver_graph(&tree);
    assert_eq!(sg.node_count(), 3);
    assert_eq!(sg.edge_count(), 4);
    assert_eq!(sg.node_id(0), "n1");
    assert_eq!(sg.node_id(1), "n2");
    assert_eq!(sg.node_id(2), "n3");
    assert_eq!(out_names(&sg, "n2"), vec![("n1".to_string(), 1.5), ("n3".to_string(), 2.5)]);
    assert_eq!(out_names(&sg, "n1"), vec![("n2".to_string(), 1.5)]);
    assert_eq!(out_names(&sg, "n3"), vec![("n2".to_string(), 2.5)]);
}

#[test]
fn bfs_build_oriented_points_every_edge_to_the_outlet() {
    let sg = undirected_graph(&[
        ("out", "m", 1.0),
        ("m", "l1", 2.0),
        ("m", "l2", 3.0),
        ("l1", "l2", 4.0),
    ]);
    let mut sg = sg;
    sg.add_node("island");
    let outlet = sg.node_index("out").unwrap();
    let (oriented, in_oriented) = bfs_build_oriented(&sg, outlet);
    assert_eq!(oriented.node_count(), 5);
    assert_eq!(in_oriented.node_count(), 5);
    for i in 0..5 {
        assert_eq!(oriented.node_id(i), sg.node_id(i));
        assert_eq!(in_oriented.node_id(i), sg.node_id(i));
    }
    // BFS from "out": m, then l1 and l2 (both from m); the l1-l2 edge is unused.
    assert_eq!(oriented.edge_count(), 3);
    assert_eq!(out_names(&oriented, "out"), vec![]);
    assert_eq!(out_names(&oriented, "m"), vec![("out".to_string(), 1.0)]);
    assert_eq!(out_names(&oriented, "l1"), vec![("m".to_string(), 2.0)]);
    assert_eq!(out_names(&oriented, "l2"), vec![("m".to_string(), 3.0)]);
    assert_eq!(out_names(&oriented, "island"), vec![]);
    assert_eq!(out_names(&in_oriented, "out"), vec![("m".to_string(), 1.0)]);
    assert_eq!(
        out_names(&in_oriented, "m"),
        vec![("l1".to_string(), 2.0), ("l2".to_string(), 3.0)]
    );
    assert!(oriented.sorted_kahn_topo_sort().is_ok());
}

#[test]
fn oriented_chain_drains_towards_the_outlet() {
    let sg = undirected_graph(&[
        ("g3", "g2", 10.0),
        ("g2", "g1", 10.0),
        ("g1", "g0", 10.0),
        ("g3", "g4", 10.0),
        ("g4", "g5", 10.0),
        ("g5", "g6", 10.0),
    ]);
    let order = orient_and_kahn(&sg, "g3");
    assert_eq!(order, vec!["g0", "g1", "g2", "g6", "g5", "g4", "g3"]);
}

#[test]
fn bfs_orientation_takes_first_listed_parallel_edge() {
    // Two edges b -> a: the one added last is listed first and is the one
    // the search reaches `b` by.
    let mut sg: SolverGraph<f64> = SolverGraph::new();
    sg.add_edge("a", "b", 1.0);
    sg.add_edge("a", "b", 7.0);
    sg.add_edge("b", "a", 1.0);
    let a = sg.node_index("a").unwrap();
    let (oriented, in_oriented) = bfs_build_oriented(&sg, a);
    assert_eq!(out_names(&oriented, "b"), vec![("a".to_string(), 7.0)]);
    assert_eq!(out_names(&in_oriented, "a"), vec![("b".to_string(), 7.0)]);
}

#[test]
fn mst_adj_keeps_list_order_for_equal_ends() {
    let adj = vec![
        ("b".to_string(), vec![("a".to_string(), 1.0), ("a".to_string(), 9.0)]),
        ("a".to_string(), vec![("b".to_string(), 1.0)]),
    ];
    let sg = mst_adj_to_solver_graph(&adj);
    // Edges are added as (a, b, 1), (b, a, 1), (b, a, 9); the most recent is listed first.
    assert_eq!(out_names(&sg, "b"), vec![("a".to_string(), 9.0), ("a".to_string(), 1.0)]);
}
