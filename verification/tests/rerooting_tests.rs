use kyopro::rerooting::{FirstSeen, RerootOps, Rerooting, SubtreeCount};

fn adj_from_edges(n: usize, edges: &[(usize, usize)]) -> Vec<Vec<usize>> {
    let mut adj: Vec<Vec<usize>> = vec![Vec::new(); n];
    for &(u, v) in edges {
        adj[u].push(v);
        adj[v].push(u);
    }
    adj
}

#[test]
fn single_vertex_counts_itself() {
    let adj: Vec<Vec<usize>> = vec![Vec::new()];
    let eng = Rerooting::new(&adj, SubtreeCount).unwrap();
    assert_eq!(eng.answers(), &vec![1u64]);
}

#[test]
fn two_vertices_each_see_the_other() {
    let adj = adj_from_edges(2, &[(0, 1)]);
    let eng = Rerooting::new(&adj, SubtreeCount).unwrap();
    assert_eq!(eng.answers(), &vec![2u64, 2u64]);
}

#[test]
fn five_vertex_tree_counts_all_from_every_root() {
    // vertex 4 is the root, 2 and 3 its children, 0 and 1 children of 2
    let adj = adj_from_edges(5, &[(2, 0), (2, 1), (3, 4), (2, 4)]);
    let eng = Rerooting::new(&adj, SubtreeCount).unwrap();
    let ans = eng.answers();
    assert_eq!(ans[4], 5);
    assert_eq!(ans[0], 5);
    assert_eq!(ans, &vec![5u64, 5, 5, 5, 5]);
}

#[test]
fn path_graph_counts_all_from_every_root() {
    let adj = adj_from_edges(4, &[(0, 1), (1, 2), (2, 3)]);
    let eng = Rerooting::new(&adj, SubtreeCount).unwrap();
    assert_eq!(eng.answers(), &vec![4u64, 4, 4, 4]);
}

#[test]
fn answers_are_stable_across_reads() {
    let adj = adj_from_edges(3, &[(0, 1), (1, 2)]);
    let eng = Rerooting::new(&adj, SubtreeCount).unwrap();
    let first = eng.answers().clone();
    let second = eng.answers().clone();
    assert_eq!(first, second);
}

#[test]
fn empty_graph_is_rejected() {
    let adj: Vec<Vec<usize>> = Vec::new();
    assert!(Rerooting::new(&adj, SubtreeCount).is_err());
}

#[test]
fn self_loop_is_rejected() {
    let adj: Vec<Vec<usize>> = vec![vec![0]];
    assert!(Rerooting::new(&adj, SubtreeCount).is_err());
}

#[test]
fn disconnected_graph_is_rejected() {
    let adj = adj_from_edges(3, &[(0, 1)]);
    assert!(Rerooting::new(&adj, SubtreeCount).is_err());
}

#[test]
fn asymmetric_adjacency_is_rejected() {
    let adj: Vec<Vec<usize>> = vec![vec![1], Vec::new()];
    assert!(Rerooting::new(&adj, SubtreeCount).is_err());
}

#[test]
fn cycle_is_rejected() {
    let adj = adj_from_edges(3, &[(0, 1), (1, 2), (2, 0)]);
    assert!(Rerooting::new(&adj, SubtreeCount).is_err());
}

#[test]
fn duplicate_edge_is_rejected() {
    let adj = adj_from_edges(2, &[(0, 1), (0, 1)]);
    assert!(Rerooting::new(&adj, SubtreeCount).is_err());
}

#[test]
fn out_of_range_neighbour_is_rejected() {
    let adj: Vec<Vec<usize>> = vec![vec![5]];
    assert!(Rerooting::new(&adj, SubtreeCount).is_err());
}

#[test]
fn merge_laws_hold_on_sample_values() {
    let ops = SubtreeCount;
    let (a, b, c) = (3u64, 4u64, 5u64);
    assert_eq!(ops.merge(ops.merge(a, b), c), ops.merge(a, ops.merge(b, c)));
    assert_eq!(ops.merge(0, a), a);
    assert_eq!(ops.merge(a, 0), a);
    assert_eq!(ops.merge(u64::MAX, 1), u64::MAX);
    assert_eq!(
        ops.merge(ops.merge(u64::MAX - 1, 1), 1),
        ops.merge(u64::MAX - 1, ops.merge(1, 1))
    );
}

#[test]
fn first_seen_respects_adjacency_order() {
    // path 0-1-2, with 0 listed before 2 at vertex 1: every answer names
    // the first vertex of the order-preserving concatenation
    let adj: Vec<Vec<usize>> = vec![vec![1], vec![0, 2], vec![1]];
    let eng = Rerooting::new(&adj, FirstSeen).unwrap();
    assert_eq!(eng.answers(), &vec![2u64, 0, 0]);
    // the same tree with vertex 1's neighbour order swapped: its answer moves
    let adj2: Vec<Vec<usize>> = vec![vec![1], vec![2, 0], vec![1]];
    let eng2 = Rerooting::new(&adj2, FirstSeen).unwrap();
    assert_eq!(eng2.answers()[1], 2);
}
