use chalkydri::union_find::UnionFind;

#[test]
fn starts_with_singletons() {
    let mut uf = UnionFind::new(5);
    for i in 0..5 {
        assert_eq!(uf.find(i), i);
        assert_eq!(uf.get_size(i), 1);
    }
}

#[test]
fn union_merges_and_counts() {
    let mut uf = UnionFind::new(6);
    uf.union(0, 1);
    // equal sizes: the first root stays the root
    assert_eq!(uf.find(1), 0);
    assert_eq!(uf.get_size(0), 2);
    uf.union(2, 0);
    // the smaller set joins the larger one
    assert_eq!(uf.find(2), 0);
    assert_eq!(uf.get_size(0), 3);
    uf.union(3, 4);
    uf.union(4, 1);
    assert_eq!(uf.find(3), 0);
    assert_eq!(uf.find(4), 0);
    assert_eq!(uf.get_size(0), 5);
    assert_eq!(uf.find(5), 5);
    assert_eq!(uf.get_size(5), 1);
}

#[test]
fn union_of_same_set_changes_nothing() {
    let mut uf = UnionFind::new(3);
    uf.union(0, 1);
    uf.union(1, 0);
    assert_eq!(uf.find(0), uf.find(1));
    assert_eq!({ let r = uf.find(0); uf.get_size(r) }, 2);
    assert_eq!(uf.find(2), 2);
}

#[test]
fn find_is_stable_after_path_compression() {
    let mut uf = UnionFind::new(8);
    for i in 0..7 {
        uf.union(i + 1, i);
    }
    let r = uf.find(7);
    for i in 0..8 {
        assert_eq!(uf.find(i), r);
    }
    assert_eq!(uf.get_size(r), 8);
}

#[test]
fn union_size_is_sum_of_sizes() {
    let mut uf = UnionFind::new(7);
    uf.union(0, 1);
    uf.union(2, 3);
    uf.union(3, 4);
    let a = uf.find(0);
    let b = uf.find(2);
    let (sa, sb) = (uf.get_size(a), uf.get_size(b));
    uf.union(1, 4);
    let r = uf.find(0);
    assert_eq!(uf.get_size(r), sa + sb);
    assert_eq!(uf.get_size(r), 5);
}
