use hydro::compact::{compact_adjacency, resolve_terminals};
use hydro::error::TerrainError;
use hydro::grid::{connected_component, grid_edges};
use hydro::prune::build_steiner_result;

#[test]
fn tiny_grid_edge_count() {
    // 3 x 3 grid: 3 * 2 along rows + 2 * 3 between rows
    assert_eq!(grid_edges(3, 3).len(), 12);
    assert_eq!(grid_edges(4, 2).len(), 4 * 1 + 3 * 2);
    assert_eq!(grid_edges(1, 1).len(), 0);
    assert_eq!(grid_edges(0, 5).len(), 0);
}

#[test]
fn grid_edges_follow_counter_order() {
    assert_eq!(
        grid_edges(2, 3),
        vec![(0, 1), (0, 3), (1, 2), (1, 4), (2, 5), (3, 4), (4, 5)]
    );
}

#[test]
fn connected_component_of_grid_is_everything() {
    let names: Vec<String> = (0..6).map(|i| format!("g{}", i)).collect();
    let edges: Vec<(String, String, f64)> = grid_edges(2, 3)
        .into_iter()
        .map(|(a, b)| (names[a].clone(), names[b].clone(), 1.0))
        .collect();
    let mut comp = connected_component(&names, &edges, "g4").unwrap();
    assert_eq!(comp[0], "g4");
    comp.sort();
    assert_eq!(comp, names);
}

#[test]
fn connected_component_stops_at_gaps() {
    let names: Vec<String> = vec!["a", "b", "c", "d"].into_iter().map(String::from).collect();
    let edges = vec![
        ("a".to_string(), "b".to_string(), 1.0),
        ("d".to_string(), "c".to_string(), 1.0),
    ];
    let mut comp = connected_component(&names, &edges, "c").unwrap();
    comp.sort();
    assert_eq!(comp, vec!["c".to_string(), "d".to_string()]);
    assert_eq!(
        connected_component(&names, &edges, "z"),
        Err(TerrainError::NodeNotFound { id: "z".to_string() })
    );
}

fn names(n: usize) -> Vec<String> {
    (0..n).map(|i| format!("n{}", i)).collect()
}

#[test]
fn pruning_strips_non_terminal_branches() {
    // 0 - 1 - 2 - 3, 1 - 4 - 5; terminals 0 and 3
    let mst = vec![(0, 1, 1.0), (1, 2, 1.0), (2, 3, 1.0), (1, 4, 1.0), (4, 5, 1.0)];
    let terminal = vec![true, false, false, true, false, false];
    let t = build_steiner_result(&names(6), &terminal, &mst);
    assert_eq!(t.node_ids(), &["n0", "n1", "n2", "n3"]);
    assert_eq!(t.edge_count(), 3);
    assert_eq!(t.edges()[0], ("n0".to_string(), "n1".to_string(), 1.0));
    assert!(t.is_connected("n0", "n3"));
    assert!(!t.contains_node("n4"));
}

#[test]
fn pruning_removes_two_adjacent_leaves_in_one_round() {
    // a lone non-terminal edge disappears entirely
    let mst = vec![(0, 1, 2.0)];
    let terminal = vec![false, false];
    let t = build_steiner_result(&names(2), &terminal, &mst);
    assert_eq!(t.node_count(), 0);
    assert_eq!(t.edge_count(), 0);
}

#[test]
fn pruning_sorts_names_and_keeps_one_edge_per_pair() {
    let node_names: Vec<String> = vec!["g10", "g2", "g1"].into_iter().map(String::from).collect();
    let mst = vec![(0, 1, 1.0), (1, 0, 5.0), (1, 2, 2.0)];
    let terminal = vec![true, false, true];
    let t = build_steiner_result(&node_names, &terminal, &mst);
    assert_eq!(t.node_ids(), &["g1", "g10", "g2"]);
    assert_eq!(
        t.edges(),
        &[
            ("g10".to_string(), "g2".to_string(), 1.0),
            ("g2".to_string(), "g1".to_string(), 2.0)
        ]
    );
    assert_eq!(
        t.sorted_edges(),
        vec![
            ("g1".to_string(), "g2".to_string()),
            ("g10".to_string(), "g2".to_string())
        ]
    );
}

#[test]
fn pruning_keeps_a_terminal_left_without_edges() {
    // n2 is a non-terminal leaf; once it goes, n3 has no edge but stays
    let mst = vec![(0, 1, 1.0), (2, 3, 1.0)];
    let terminal = vec![true, true, false, true];
    let t = build_steiner_result(&names(4), &terminal, &mst);
    assert_eq!(t.node_ids(), &["n0", "n1", "n3"]);
    assert_eq!(t.edge_count(), 1);
    assert!(!t.is_connected("n0", "n3"));
}

#[test]
fn resolve_terminals_maps_names_to_indices() {
    let node_names: Vec<String> = vec!["g0", "g1", "g2", "g3"].into_iter().map(String::from).collect();
    let t: Vec<String> = vec!["g3", "g0", "g3"].into_iter().map(String::from).collect();
    assert_eq!(resolve_terminals(&node_names, &t), Ok(vec![3, 0, 3]));
}

#[test]
fn steiner_insufficient_terminals_error() {
    let node_names: Vec<String> = vec!["g0".to_string()];
    let t = vec!["g0".to_string()];
    assert_eq!(
        resolve_terminals(&node_names, &t),
        Err(TerrainError::InsufficientTerminals { got: 1 })
    );
    assert_eq!(
        resolve_terminals(&node_names, &vec![]),
        Err(TerrainError::InsufficientTerminals { got: 0 })
    );
}

#[test]
fn resolve_terminals_reports_the_first_unknown_name() {
    let node_names: Vec<String> = vec!["a", "b"].into_iter().map(String::from).collect();
    let t: Vec<String> = vec!["a", "x", "y"].into_iter().map(String::from).collect();
    assert_eq!(
        resolve_terminals(&node_names, &t),
        Err(TerrainError::NodeNotFound { id: "x".to_string() })
    );
}

#[test]
fn compact_adjacency_lists_both_ends() {
    let edges = vec![(0, 1, 1.5), (1, 2, 2.5), (2, 2, 0.5)];
    let adj = compact_adjacency(4, &edges);
    assert_eq!(adj.len(), 4);
    assert_eq!(adj[0], vec![(1, 1.5)]);
    assert_eq!(adj[1], vec![(0, 1.5), (2, 2.5)]);
    assert_eq!(adj[2], vec![(1, 2.5), (2, 0.5), (2, 0.5)]);
    assert!(adj[3].is_empty());
}

#[test]
fn pruning_keeps_terminals_linked_through_branches() {
    // Tree: t0 - a - b - t1, with dead branches a - c - d and b - e.
    let mst = vec![(0, 1, 1.0), (1, 2, 1.0), (2, 3, 1.0), (1, 4, 1.0), (4, 5, 1.0), (2, 6, 1.0)];
    let terminal = vec![true, false, false, true, false, false, false];
    let t = build_steiner_result(&names(7), &terminal, &mst);
    assert_eq!(t.node_ids(), &["n0", "n1", "n2", "n3"]);
    assert_eq!(t.edge_count(), 3);
    assert!(t.is_connected("n0", "n3"));
    // Three edges on four nodes, all linked: a tree.
    assert_eq!(t.edge_count() + 1, t.node_count());
}
