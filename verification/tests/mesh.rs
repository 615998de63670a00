use hydro::mesh::{combined_edge_order, loop_candidates, mesh_loop_edges, valve_nodes};

#[test]
fn loop_candidates_skip_tree_edges_both_ways_and_non_members() {
    let edges = vec![(0, 1), (1, 2), (2, 0), (0, 3)];
    let tree = vec![(0, 1), (2, 1)];
    let members = vec![true, true, true, false];
    assert_eq!(loop_candidates(&edges, &tree, &members), vec![(2, 0)]);
}

#[test]
fn loop_candidates_keep_edge_order() {
    let edges = vec![(3, 2), (0, 2), (1, 3), (0, 1)];
    let tree = vec![(0, 1)];
    let members = vec![true; 4];
    assert_eq!(loop_candidates(&edges, &tree, &members), vec![(3, 2), (0, 2), (1, 3)]);
}

#[test]
fn mesh_loop_edges_takes_at_least_three() {
    // 4 nodes, divisor 2: 4 / 2 = 2, so three loops are allowed.
    let edges = vec![(0, 1), (1, 2), (2, 3), (3, 0), (0, 2), (1, 3)];
    let tree = vec![(0, 1), (1, 2), (2, 3)];
    assert_eq!(mesh_loop_edges(&edges, &tree, 4, 2), vec![(3, 0), (0, 2), (1, 3)]);
}

#[test]
fn mesh_loop_edges_truncates_to_budget() {
    // 12 nodes, divisor 4: budget 3 of the 5 candidates.
    let edges = vec![(0, 1), (5, 6), (6, 7), (7, 8), (8, 9), (9, 10)];
    let tree = vec![(0, 1)];
    assert_eq!(mesh_loop_edges(&edges, &tree, 12, 4), vec![(5, 6), (6, 7), (7, 8)]);
    // 20 nodes, divisor 4: budget 5.
    assert_eq!(mesh_loop_edges(&edges, &tree, 20, 4).len(), 5);
}

#[test]
fn combined_edge_order_lists_each_edge_at_its_first_end() {
    let edges = vec![(2, 0), (0, 1), (1, 2)];
    let (order, listed) = combined_edge_order(3, &edges);
    assert_eq!(order, vec![2, 0, 1]);
    assert_eq!(listed, vec![(2, 0), (2, 1), (0, 1)]);
}

#[test]
fn combined_edge_order_keeps_neighbour_insertion_order() {
    // Tree 0-1, 0-2, 2-3, then the loop edge 3-1.
    let edges = vec![(0, 1), (0, 2), (2, 3), (3, 1)];
    let (order, listed) = combined_edge_order(4, &edges);
    assert_eq!(order, vec![0, 1, 2, 3]);
    assert_eq!(listed, vec![(0, 1), (0, 2), (1, 3), (2, 3)]);
}

#[test]
fn valve_nodes_every_second_eligible() {
    let eligible = vec![true, false, true, true, true, false, true];
    assert_eq!(
        valve_nodes(&eligible, 2),
        vec![false, false, true, false, true, false, false]
    );
}

#[test]
fn valve_nodes_zero_spacing_places_none() {
    let eligible = vec![true, true, true];
    assert_eq!(valve_nodes(&eligible, 0), vec![false, false, false]);
}
