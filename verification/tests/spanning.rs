use hydro::spanning::prim_edges;

fn names(v: &[&str]) -> Vec<String> {
    v.iter().map(|s| s.to_string()).collect()
}

fn b(w: f64) -> u64 {
    w.to_bits()
}

#[test]
fn prim_takes_cheapest_edge_leaving_the_tree() {
    let n = names(&["a", "b", "c", "d"]);
    let edges = vec![(0, 1, b(2.0)), (1, 2, b(1.0)), (0, 2, b(5.0)), (2, 3, b(1.0))];
    assert_eq!(
        prim_edges(&n, &edges, 0),
        vec![(0, 1, b(2.0)), (1, 2, b(1.0)), (2, 3, b(1.0))]
    );
}

#[test]
fn prim_breaks_ties_by_far_end_name_then_near_end_name() {
    // From "s", both "y" and "x" cost 1: "x" first. Then "z" is reachable
    // from "x" and from "y" at cost 1: the near end "x" wins.
    let n = names(&["s", "y", "x", "z"]);
    let edges = vec![(0, 1, b(1.0)), (0, 2, b(1.0)), (1, 3, b(1.0)), (3, 2, b(1.0))];
    assert_eq!(
        prim_edges(&n, &edges, 0),
        vec![(0, 2, b(1.0)), (0, 1, b(1.0)), (2, 3, b(1.0))]
    );
}

#[test]
fn prim_leaves_unreached_nodes_out() {
    let n = names(&["a", "b", "c"]);
    let edges = vec![(1, 2, b(1.0))];
    assert_eq!(prim_edges(&n, &edges, 0), vec![]);
}
