use hydro::graph::SolverGraph;
use hydro::simplify::{must_keep, tree_chains, walk_chain};

fn directed(edges: &[(&str, &str)]) -> SolverGraph<f64> {
    let mut sg = SolverGraph::new();
    for (a, b) in edges {
        sg.add_edge(a, b, 10.0);
    }
    sg
}

fn names(g: &SolverGraph<f64>, chain: &[usize]) -> Vec<String> {
    chain.iter().map(|&i| g.node_id(i).to_string()).collect()
}

fn two_branch_fixture() -> (SolverGraph<f64>, SolverGraph<f64>) {
    let oriented = directed(&[
        ("g6", "g5"),
        ("g5", "g4"),
        ("g4", "g3"),
        ("g0", "g1"),
        ("g1", "g2"),
        ("g2", "g3"),
    ]);
    let in_oriented = directed(&[
        ("g5", "g6"),
        ("g4", "g5"),
        ("g3", "g4"),
        ("g2", "g3"),
        ("g1", "g2"),
        ("g0", "g1"),
    ]);
    (oriented, in_oriented)
}

fn kept_names(g: &SolverGraph<f64>, keep: &[bool]) -> Vec<String> {
    let mut out: Vec<String> = (0..g.node_count())
        .filter(|&i| keep[i])
        .map(|i| g.node_id(i).to_string())
        .collect();
    out.sort();
    out
}

#[test]
fn simplify_tree_sg_collapses_degree2_chain() {
    let (oriented, in_oriented) = two_branch_fixture();
    let terminals = vec!["g0".to_string(), "g6".to_string()];
    let keep = must_keep(&oriented, &in_oriented, &terminals, "g3");
    assert_eq!(keep.len(), 7);
    let kept = kept_names(&oriented, &keep);
    assert_eq!(kept.len(), 3);
    assert!(kept.contains(&"g3".to_string()));
    assert!(kept.contains(&"g0".to_string()));
    assert!(kept.contains(&"g6".to_string()));
}

#[test]
fn must_keep_marks_junctions_and_outlet() {
    // a -> c, b -> c, c -> d, d -> e: c has degree 3, e is the outlet.
    let oriented = directed(&[("a", "c"), ("b", "c"), ("c", "d"), ("d", "e")]);
    let in_oriented = directed(&[("c", "a"), ("c", "b"), ("d", "c"), ("e", "d")]);
    let keep = must_keep(&oriented, &in_oriented, &Vec::new(), "e");
    // a and b are leaves (degree 1), c is a junction, d has degree 2, e is the outlet.
    assert_eq!(kept_names(&oriented, &keep), vec!["a", "b", "c", "e"]);
}

#[test]
fn must_keep_without_reverse_entry_counts_zero_in_degree() {
    // "x" has out-degree 2 and no entry in the reversed graph: 2 + 0 == 2, not kept.
    let oriented = directed(&[("x", "y"), ("x", "z")]);
    let in_oriented: SolverGraph<f64> = SolverGraph::new();
    let keep = must_keep(&oriented, &in_oriented, &Vec::new(), "none");
    assert_eq!(kept_names(&oriented, &keep), vec!["y", "z"]);
}

#[test]
fn tree_chains_two_branches() {
    let (oriented, in_oriented) = two_branch_fixture();
    let terminals = vec!["g0".to_string(), "g6".to_string()];
    let keep = must_keep(&oriented, &in_oriented, &terminals, "g3");
    let chains = tree_chains(&oriented, &keep);
    let got: Vec<Vec<String>> = chains.iter().map(|c| names(&oriented, c)).collect();
    assert_eq!(
        got,
        vec![
            vec!["g0", "g1", "g2", "g3"],
            vec!["g6", "g5", "g4", "g3"],
        ]
    );
}

#[test]
fn tree_chains_one_per_edge_of_a_kept_node() {
    let oriented = directed(&[("a", "c"), ("b", "c"), ("c", "d"), ("d", "e")]);
    let in_oriented = directed(&[("c", "a"), ("c", "b"), ("d", "c"), ("e", "d")]);
    let keep = must_keep(&oriented, &in_oriented, &Vec::new(), "e");
    let chains = tree_chains(&oriented, &keep);
    let got: Vec<Vec<String>> = chains.iter().map(|c| names(&oriented, c)).collect();
    assert_eq!(got, vec![vec!["a", "c"], vec!["b", "c"], vec!["c", "d", "e"]]);
}

#[test]
fn tree_chains_skip_parallel_edges() {
    let oriented = directed(&[("a", "b"), ("a", "b")]);
    let keep = vec![true, true];
    let chains = tree_chains(&oriented, &keep);
    let got: Vec<Vec<String>> = chains.iter().map(|c| names(&oriented, c)).collect();
    assert_eq!(got, vec![vec!["a", "b"]]);
}

#[test]
fn walk_chain_ends_twice_at_a_sink_that_is_not_kept() {
    let oriented = directed(&[("a", "b"), ("b", "c")]);
    let keep = vec![true, false, false];
    let a = oriented.node_index("a").unwrap();
    let b = oriented.node_index("b").unwrap();
    let chain = walk_chain(&oriented, &keep, a, b);
    assert_eq!(names(&oriented, &chain), vec!["a", "b", "c", "c"]);
}

#[test]
fn walk_chain_follows_first_successor_by_name() {
    // b is not kept and has two successors: the walk takes "c" before "d".
    let oriented = directed(&[("a", "b"), ("b", "d"), ("b", "c")]);
    let keep = vec![true, false, true, true];
    let a = oriented.node_index("a").unwrap();
    let b = oriented.node_index("b").unwrap();
    let chain = walk_chain(&oriented, &keep, a, b);
    assert_eq!(names(&oriented, &chain), vec!["a", "b", "c"]);
}
