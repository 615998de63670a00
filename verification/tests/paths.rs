use hydro::error::TerrainError;
use hydro::survey::check_survey_size;
use hydro::yen::{
    from_total_order_bits, spur_ignored_edges, total_order_bits, yen_result, yen_spur_requests, yen_step,
    YenSearch,
};

fn path(ids: &[&str]) -> Vec<String> {
    ids.iter().map(|s| s.to_string()).collect()
}

#[test]
fn spur_ignores_the_edges_leaving_a_shared_root() {
    let accepted = vec![
        path(&["s", "a", "b", "t"]),
        path(&["s", "a", "c", "t"]),
        path(&["s", "d", "t"]),
        path(&["s", "a"]),
    ];
    let root = path(&["s", "a"]);
    assert_eq!(
        spur_ignored_edges(&accepted, &root),
        vec![
            ("a".to_string(), "b".to_string()),
            ("a".to_string(), "c".to_string())
        ]
    );
    let root1 = path(&["s"]);
    assert_eq!(
        spur_ignored_edges(&accepted, &root1),
        vec![
            ("s".to_string(), "a".to_string()),
            ("s".to_string(), "a".to_string()),
            ("s".to_string(), "d".to_string()),
            ("s".to_string(), "a".to_string())
        ]
    );
    assert!(spur_ignored_edges(&accepted, &path(&["x"])).is_empty());
}

#[test]
fn cost_keys_sort_like_costs() {
    let costs = [-3.5f64, -0.0, 0.0, 1.0, 2.5, 1e9];
    let keys: Vec<u64> = costs.iter().map(|c| total_order_bits(c.to_bits())).collect();
    for i in 1..keys.len() {
        assert!(keys[i - 1] <= keys[i]);
    }
    for c in costs {
        assert_eq!(f64::from_bits(from_total_order_bits(total_order_bits(c.to_bits()))), c);
    }
    assert_eq!(total_order_bits(0), 0x8000_0000_0000_0000);
}

#[test]
fn from_xyz_list_empty_errors() {
    assert_eq!(check_survey_size(0), Err(TerrainError::EmptyTerrain));
}

#[test]
fn from_xyz_list_too_few_errors() {
    assert_eq!(
        check_survey_size(2),
        Err(TerrainError::InsufficientPoints { got: 2, need: 3 })
    );
    assert_eq!(check_survey_size(3), Ok(()));
}

fn pairs(v: &[(&str, &str)]) -> Vec<(String, String)> {
    v.iter().map(|(a, b)| (a.to_string(), b.to_string())).collect()
}

#[test]
fn yen_search_first_round_asks_one_search_from_the_source() {
    let s = YenSearch::new("a", "d", 2);
    assert!(!s.is_done());
    let r = yen_spur_requests(&s);
    assert_eq!(r, vec![(path(&["a"]), Vec::new(), Vec::new())]);
}

#[test]
fn yen_search_accepts_in_key_order_and_spurs_along_the_last_path() {
    let mut s = YenSearch::new("a", "d", 2);
    assert!(!yen_step(&mut s, vec![Some((5, path(&["a", "b", "d"])))]));
    let r = yen_spur_requests(&s);
    assert_eq!(
        r,
        vec![
            (path(&["a"]), Vec::new(), pairs(&[("a", "b")])),
            (path(&["a", "b"]), path(&["a"]), pairs(&[("b", "d")])),
        ]
    );
    // Spur from "a" finds a-c-d; spur from "b" finds nothing.
    assert!(yen_step(&mut s, vec![Some((7, path(&["a", "c", "d"]))), None]));
    assert_eq!(
        yen_result(&s).unwrap(),
        vec![path(&["a", "b", "d"]), path(&["a", "c", "d"])]
    );
}

#[test]
fn yen_search_prefixes_spur_paths_with_the_root() {
    let mut s = YenSearch::new("a", "e", 3);
    yen_step(&mut s, vec![Some((1, path(&["a", "b", "c", "e"])))]);
    // Spur from "c" (third node) finds c-d-e: the candidate is a-b-c-d-e.
    yen_step(&mut s, vec![None, None, Some((9, path(&["c", "d", "e"])))]);
    assert_eq!(
        yen_result(&s).unwrap(),
        vec![path(&["a", "b", "c", "e"]), path(&["a", "b", "c", "d", "e"])]
    );
}

#[test]
fn yen_search_equal_keys_first_in_first_out_and_duplicates_dropped() {
    let mut s = YenSearch::new("a", "d", 4);
    yen_step(&mut s, vec![Some((1, path(&["a", "d"])))]);
    // One spur search (from "a"); pretend it found the same path as another
    // round would: offer candidates with equal keys over two rounds.
    assert!(!yen_step(&mut s, vec![Some((3, path(&["a", "x", "d"])))]));
    // Now the last path is a-x-d: two spur searches.
    assert!(!yen_step(
        &mut s,
        vec![Some((3, path(&["a", "y", "d"]))), Some((3, path(&["x", "y", "d"])))]
    ));
    let got = yen_result(&s).unwrap();
    assert_eq!(got[2], path(&["a", "y", "d"]));
    // The buffer still holds a-x-y-d; offering it again adds nothing new.
    let n = s.counter();
    yen_step(&mut s, vec![Some((3, path(&["a", "x", "y", "d"]))), None]);
    assert_eq!(s.counter(), n);
    let got = yen_result(&s).unwrap();
    assert_eq!(got[3], path(&["a", "x", "y", "d"]));
}

#[test]
fn yen_search_without_any_path_is_no_path() {
    let mut s = YenSearch::new("a", "d", 3);
    assert!(yen_step(&mut s, vec![None]));
    assert!(s.is_done());
    assert!(matches!(
        yen_result(&s),
        Err(TerrainError::NoPath { ref from, ref to }) if from == "a" && to == "d"
    ));
}

#[test]
fn yen_search_with_k_zero_is_done_and_empty() {
    let s = YenSearch::new("a", "d", 0);
    assert!(s.is_done());
    assert_eq!(yen_result(&s).unwrap(), Vec::<Vec<String>>::new());
}

#[test]
fn yen_search_stops_when_the_buffer_runs_dry() {
    let mut s = YenSearch::new("a", "b", 5);
    assert!(!yen_step(&mut s, vec![Some((2, path(&["a", "b"])))]));
    // The only spur search finds nothing and the buffer is empty.
    assert!(yen_step(&mut s, vec![None]));
    assert_eq!(yen_result(&s).unwrap(), vec![path(&["a", "b"])]);
}
