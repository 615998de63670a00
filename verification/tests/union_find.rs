use hydro::union_find::UnionFind;

#[test]
fn union_find_starts_with_singletons() {
    let mut uf = UnionFind::new(4);
    for i in 0..4 {
        assert_eq!(uf.find(i), i);
    }
}

#[test]
fn union_merges_and_reports_novelty() {
    let mut uf = UnionFind::new(5);
    assert!(uf.union(0, 1));
    assert!(uf.union(2, 3));
    assert!(!uf.union(1, 0));
    assert!(uf.union(1, 3));
    assert!(!uf.union(0, 2));
    assert_eq!(uf.find(0), uf.find(3));
    assert_ne!(uf.find(0), uf.find(4));
}

#[test]
fn union_keeps_the_first_root_on_equal_rank() {
    let mut uf = UnionFind::new(3);
    assert!(uf.union(0, 1));
    assert_eq!(uf.find(1), 0);
    // the set {0, 1} has rank 1, so the singleton 2 goes under it
    assert!(uf.union(2, 1));
    assert_eq!(uf.find(2), 0);
}

#[test]
fn find_compresses_without_changing_sets() {
    let mut uf = UnionFind::new(6);
    uf.union(0, 1);
    uf.union(2, 3);
    uf.union(0, 2);
    uf.union(4, 5);
    uf.union(4, 0);
    let r = uf.find(3);
    for i in 0..6 {
        assert_eq!(uf.find(i), r);
    }
}
