use hydro::kruskal::kruskal_forest;
use hydro::steiner::SteinerTree;

fn sample_tree() -> SteinerTree<f64> {
    SteinerTree::new(
        vec!["a".to_string(), "b".to_string(), "c".to_string(), "d".to_string()],
        vec![
            ("b".to_string(), "a".to_string(), 1.0),
            ("b".to_string(), "c".to_string(), 2.0),
            ("a".to_string(), "b".to_string(), 3.0),
        ],
    )
}

#[test]
fn steiner_tree_counts_and_lists() {
    let t = sample_tree();
    assert_eq!(t.node_count(), 4);
    assert_eq!(t.edge_count(), 3);
    assert_eq!(t.node_ids().len(), 4);
    assert_eq!(t.node_ids()[3], "d");
    assert_eq!(t.edges()[1], ("b".to_string(), "c".to_string(), 2.0));
}

#[test]
fn steiner_tree_contains_nodes_and_edge_ends() {
    let t = SteinerTree::new(
        vec!["a".to_string()],
        vec![("x".to_string(), "y".to_string(), 1.0)],
    );
    assert!(t.contains_node("a"));
    assert!(t.contains_node("x"));
    assert!(t.contains_node("y"));
    assert!(!t.contains_node("z"));
}

#[test]
fn steiner_tree_connectivity() {
    let t = sample_tree();
    assert!(t.is_connected("a", "c"));
    assert!(t.is_connected("c", "a"));
    assert!(t.is_connected("b", "b"));
    assert!(t.is_connected("d", "d"));
    assert!(!t.is_connected("a", "d"));
    assert!(!t.is_connected("a", "zz"));
    assert!(!t.is_connected("zz", "zz"));
}

#[test]
fn steiner_tree_connectivity_over_long_path() {
    let mut edges = Vec::new();
    for i in 0..20 {
        edges.push((format!("n{}", i + 1), format!("n{}", i), 1.0));
    }
    let t = SteinerTree::new(vec![], edges);
    assert!(t.is_connected("n0", "n20"));
    assert!(t.is_connected("n20", "n0"));
    assert!(!t.is_connected("n0", "n21"));
}

#[test]
fn steiner_tree_sorted_edges_are_canonical_and_unique() {
    let t = sample_tree();
    assert_eq!(
        t.sorted_edges(),
        vec![
            ("a".to_string(), "b".to_string()),
            ("b".to_string(), "c".to_string())
        ]
    );
}

#[test]
fn kruskal_keeps_edges_that_join_new_components() {
    let sorted = vec![(0, 1, 1.0), (1, 2, 1.0), (0, 2, 2.0), (3, 4, 2.5), (2, 3, 3.0), (4, 0, 9.0)];
    let kept = kruskal_forest(&sorted, 5);
    assert_eq!(kept, vec![(0, 1, 1.0), (1, 2, 1.0), (3, 4, 2.5), (2, 3, 3.0)]);
}

#[test]
fn kruskal_drops_self_loops_and_repeats() {
    let sorted = vec![(1, 1, 0.5), (0, 1, 1.0), (1, 0, 1.0), (2, 2, 3.0)];
    let kept = kruskal_forest(&sorted, 3);
    assert_eq!(kept, vec![(0, 1, 1.0)]);
}

#[test]
fn kruskal_on_no_edges_keeps_nothing() {
    let sorted: Vec<(usize, usize, f64)> = vec![];
    assert!(kruskal_forest(&sorted, 4).is_empty());
}

#[test]
fn steiner_tree_adjacency_lists_both_ends() {
    let t = sample_tree();
    let adj = t.adjacency();
    let keys: Vec<&str> = adj.iter().map(|(k, _)| k.as_str()).collect();
    assert_eq!(keys, vec!["a", "b", "c", "d"]);
    assert_eq!(adj[0].1, vec![("b".to_string(), 1.0), ("b".to_string(), 3.0)]);
    assert_eq!(
        adj[1].1,
        vec![("a".to_string(), 1.0), ("c".to_string(), 2.0), ("a".to_string(), 3.0)]
    );
    assert_eq!(adj[2].1, vec![("b".to_string(), 2.0)]);
    assert!(adj[3].1.is_empty());
}

#[test]
fn steiner_tree_adjacency_adds_edge_ends_after_nodes() {
    let t = SteinerTree::new(vec!["m".to_string()], vec![("x".to_string(), "m".to_string(), 4.0)]);
    let adj = t.adjacency();
    let keys: Vec<&str> = adj.iter().map(|(k, _)| k.as_str()).collect();
    assert_eq!(keys, vec!["m", "x"]);
    assert_eq!(adj[1].1, vec![("m".to_string(), 4.0)]);
}
