use kyopro::segment_tree::{SatSum, SegmentTree};
use kyopro::union_find::UnionFind;

#[test]
fn union_find_merges_sets() {
    let mut uf = UnionFind::new(6);
    assert!(!uf.same(0, 1));
    assert!(uf.unite(0, 1));
    assert!(uf.same(0, 1));
    assert!(!uf.unite(1, 0));
    assert!(uf.unite(1, 2));
    assert!(uf.same(0, 2));
    assert!(!uf.same(0, 3));
    assert!(uf.unite(3, 4));
    assert!(uf.same(4, 3));
    assert!(!uf.same(2, 4));
    assert!(uf.unite(0, 4));
    assert!(uf.same(2, 3));
    assert!(!uf.same(5, 0));
}

#[test]
fn union_find_roots_agree_within_a_set() {
    let mut uf = UnionFind::new(4);
    uf.unite(0, 1);
    uf.unite(2, 3);
    uf.unite(0, 3);
    let r = uf.root(0);
    assert_eq!(uf.root(1), r);
    assert_eq!(uf.root(2), r);
    assert_eq!(uf.root(3), r);
}

#[test]
fn union_find_size_counts_class_members() {
    let mut uf = UnionFind::new(4);
    assert_eq!(uf.size(0), 1);
    uf.unite(0, 1);
    assert_eq!(uf.size(0), 2);
    assert_eq!(uf.size(1), 2);
    assert_eq!(uf.size(2), 1);
    uf.unite(2, 3);
    uf.unite(0, 2);
    assert_eq!(uf.size(3), 4);
}

#[test]
fn segment_tree_stores_and_updates_leaves() {
    let leaves: Vec<u64> = vec![1, 2, 3];
    let st0 = SegmentTree::new(&leaves, &0u64, SatSum);
    assert_eq!(st0.get_val(0), 1);
    assert_eq!(st0.get_val(1), 2);
    assert_eq!(st0.get_val(2), 3);
    // padding up to the power of two holds the unit element
    assert_eq!(st0.get_val(3), 0);
    assert_eq!(st0.leaf_count(), 4);
    let mut st = st0;
    st.update(1, 10);
    assert_eq!(st.get_val(0), 1);
    assert_eq!(st.get_val(1), 10);
    assert_eq!(st.get_val(2), 3);
}

#[test]
fn segment_tree_query_sums_ranges() {
    let leaves: Vec<u64> = vec![1, 2, 3, 4, 5];
    let st = SegmentTree::new(&leaves, &0u64, SatSum);
    assert_eq!(st.query(0, 5), 15);
    assert_eq!(st.query(1, 4), 9);
    assert_eq!(st.query(2, 2), 0);
    // clamped to the padded width; padding contributes the unit
    assert_eq!(st.query(0, 8), 15);
    assert_eq!(st.query(4, 5), 5);
}

#[test]
fn segment_tree_query_after_update() {
    let leaves: Vec<u64> = vec![10, 20, 30, 40];
    let mut st = SegmentTree::new(&leaves, &0u64, SatSum);
    st.update(2, 7);
    assert_eq!(st.query(0, 4), 77);
    assert_eq!(st.query(2, 3), 7);
}
