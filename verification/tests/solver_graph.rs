use hydro::error::SolverError;
use hydro::graph::SolverGraph;

fn names(sg: &SolverGraph<f64>, order: &[usize]) -> Vec<String> {
    order.iter().map(|&idx| sg.node_id(idx).to_string()).collect()
}

#[test]
fn sorted_kahn_topo_sort_deterministic_on_diamond_graph() {
    let mut sg = SolverGraph::new();
    sg.add_edge("a", "b", 1.0);
    sg.add_edge("a", "c", 1.0);
    sg.add_edge("b", "d", 1.0);
    sg.add_edge("c", "d", 1.0);

    let order = sg.sorted_kahn_topo_sort().expect("acyclic graph must not fail");
    assert_eq!(order.len(), 4, "all 4 nodes must appear in the output");

    let ids: Vec<&str> = order.iter().map(|&idx| sg.node_id(idx)).collect();
    assert_eq!(
        ids,
        vec!["a", "b", "c", "d"],
        "lex tie-break: b before c; expected [a, b, c, d], got {:?}",
        ids
    );
}

#[test]
fn sorted_kahn_topo_sort_detects_cycle() {
    let mut sg = SolverGraph::new();
    sg.add_edge("x", "y", 1.0);
    sg.add_edge("y", "z", 1.0);
    sg.add_edge("z", "x", 1.0);

    let result = sg.sorted_kahn_topo_sort();
    assert!(result.is_err(), "cycle must produce Err, got {:?}", result);
}

#[test]
fn sorted_neighbors_returns_lex_sorted_by_node_id() {
    let mut sg = SolverGraph::new();
    sg.add_edge("root", "g10", 3.0);
    sg.add_edge("root", "g2", 2.0);
    sg.add_edge("root", "g1", 1.0);

    let root_idx = sg.node_index("root").expect("root must exist");
    let neighbors = sg.sorted_neighbors(root_idx);
    assert_eq!(neighbors.len(), 3);

    let ids: Vec<&str> = neighbors.iter().map(|&(idx, _)| sg.node_id(idx)).collect();
    assert_eq!(
        ids,
        vec!["g1", "g10", "g2"],
        "lex order expected [g1, g10, g2], got {:?}",
        ids
    );
}

#[test]
fn add_edge_creates_missing_nodes() {
    let mut sg: SolverGraph<f64> = SolverGraph::new();
    assert_eq!(sg.node_count(), 0);
    assert_eq!(sg.edge_count(), 0);

    sg.add_edge("alpha", "beta", 5.0);

    assert_eq!(sg.node_count(), 2, "two nodes must be auto-created");
    assert_eq!(sg.edge_count(), 1, "one directed edge must exist");
    assert!(sg.node_index("alpha").is_some());
    assert!(sg.node_index("beta").is_some());
}

#[test]
fn node_id_and_node_index_round_trip() {
    let mut sg: SolverGraph<f64> = SolverGraph::new();
    let idx = sg.add_node("g42");

    let id_str = sg.node_id(idx);
    assert_eq!(id_str, "g42");

    let back = sg.node_index("g42").expect("must find g42");
    assert_eq!(back, idx, "round-trip must yield the same NodeIndex");
}

#[test]
fn add_node_is_idempotent() {
    let mut sg: SolverGraph<f64> = SolverGraph::new();
    let a = sg.add_node("n1");
    let b = sg.add_node("n2");
    let again = sg.add_node("n1");
    assert_eq!(a, again);
    assert_ne!(a, b);
    assert_eq!(sg.node_count(), 2);
    assert_eq!(sg.edge_count(), 0);
}

#[test]
fn node_index_of_unknown_name_is_none() {
    let mut sg: SolverGraph<f64> = SolverGraph::new();
    sg.add_edge("a", "b", 1.0);
    assert_eq!(sg.node_index("c"), None);
    assert_eq!(sg.node_index("a"), Some(0));
    assert_eq!(sg.node_index("b"), Some(1));
}

#[test]
fn parallel_edges_are_all_kept() {
    let mut sg: SolverGraph<f64> = SolverGraph::new();
    sg.add_edge("a", "b", 1.0);
    sg.add_edge("a", "b", 2.0);
    assert_eq!(sg.node_count(), 2);
    assert_eq!(sg.edge_count(), 2);
    let a = sg.node_index("a").unwrap();
    let mut weights: Vec<f64> = sg.sorted_neighbors(a).iter().map(|&(_, w)| w).collect();
    weights.sort_by(|x, y| x.partial_cmp(y).unwrap());
    assert_eq!(weights, vec![1.0, 2.0]);
}

#[test]
fn kahn_on_empty_graph_is_empty() {
    let sg: SolverGraph<f64> = SolverGraph::new();
    assert_eq!(sg.sorted_kahn_topo_sort(), Ok(vec![]));
}

#[test]
fn kahn_breaks_ties_by_name_not_insertion() {
    let mut sg = SolverGraph::new();
    sg.add_node("z");
    sg.add_node("m");
    sg.add_node("a");
    sg.add_edge("m", "b", 1.0);
    let order = sg.sorted_kahn_topo_sort().unwrap();
    assert_eq!(names(&sg, &order), vec!["a", "m", "b", "z"]);
}

#[test]
fn kahn_self_loop_is_a_cycle() {
    let mut sg = SolverGraph::new();
    sg.add_edge("a", "a", 1.0);
    match sg.sorted_kahn_topo_sort() {
        Err(SolverError::BuildFailed(_)) => {}
        other => panic!("expected BuildFailed, got {:?}", other),
    }
}

#[test]
fn bfs_oriented_visits_by_level_then_name() {
    let mut sg = SolverGraph::new();
    sg.add_edge("r", "y", 1.0);
    sg.add_edge("r", "x", 1.0);
    sg.add_edge("y", "a", 1.0);
    sg.add_edge("x", "b", 1.0);
    sg.add_edge("b", "r", 1.0);
    sg.add_node("lonely");
    let r = sg.node_index("r").unwrap();
    let order = sg.bfs_oriented(r);
    assert_eq!(names(&sg, &order), vec!["r", "x", "y", "b", "a"]);
}

#[test]
fn from_edges_adds_in_order() {
    let edges = vec![
        ("p".to_string(), "q".to_string(), 1.0),
        ("q".to_string(), "r".to_string(), 2.0),
        ("p".to_string(), "r".to_string(), 3.0),
    ];
    let sg = SolverGraph::from_edges(&edges);
    assert_eq!(sg.node_count(), 3);
    assert_eq!(sg.edge_count(), 3);
    assert_eq!(sg.node_id(0), "p");
    assert_eq!(sg.node_id(1), "q");
    assert_eq!(sg.node_id(2), "r");
    let p = sg.node_index("p").unwrap();
    let out: Vec<(String, f64)> = sg
        .sorted_neighbors(p)
        .iter()
        .map(|&(i, w)| (sg.node_id(i).to_string(), w))
        .collect();
    assert_eq!(out, vec![("q".to_string(), 1.0), ("r".to_string(), 3.0)]);
}

#[test]
fn sorted_neighbors_keep_most_recent_parallel_edge_first() {
    let mut sg: SolverGraph<f64> = SolverGraph::new();
    sg.add_edge("a", "c", 5.0);
    sg.add_edge("a", "b", 1.0);
    sg.add_edge("a", "b", 2.0);
    let a = sg.node_index("a").unwrap();
    let got: Vec<(String, f64)> = sg
        .sorted_neighbors(a)
        .iter()
        .map(|&(j, w)| (sg.node_id(j).to_string(), w))
        .collect();
    assert_eq!(
        got,
        vec![("b".to_string(), 2.0), ("b".to_string(), 1.0), ("c".to_string(), 5.0)]
    );
}
