use tiny3d_core::orient::{kruskal, DisjointSet};

#[test]
fn union_find_merges_sets() {
    let mut ds = DisjointSet::new(6);
    for i in 0..6 {
        assert_eq!(ds.find(i), i);
    }
    assert!(ds.union(0, 1));
    assert!(ds.union(2, 3));
    assert!(!ds.union(1, 0));
    assert!(ds.union(1, 3));
    assert!(!ds.union(0, 2));
    assert_eq!(ds.find(0), ds.find(3));
    assert_ne!(ds.find(0), ds.find(4));
    assert!(ds.union(4, 5));
    assert!(ds.union(5, 2));
    let r = ds.find(0);
    for i in 0..6 {
        assert_eq!(ds.find(i), r);
    }
}

#[test]
fn union_by_size_keeps_the_larger_root() {
    let mut ds = DisjointSet::new(4);
    assert!(ds.union(1, 2));
    let big = ds.find(1);
    assert_eq!(big, 1);
    assert!(ds.union(3, 2));
    assert_eq!(ds.find(3), 1);
    assert!(ds.union(0, 3));
    assert_eq!(ds.find(0), 1);
}

#[test]
fn kruskal_keeps_edges_that_join_components() {
    let edges = [(0, 1), (1, 2), (0, 2), (3, 4), (2, 3), (4, 1), (5, 5)];
    assert_eq!(kruskal(&edges, 6), vec![0, 1, 3, 4]);
    assert_eq!(kruskal(&[], 3), Vec::<usize>::new());
    assert_eq!(kruskal(&[(0, 0), (1, 0), (0, 1)], 2), vec![1]);
}

#[test]
fn kruskal_forest_connects_every_edge() {
    let edges = [(0, 1), (2, 3), (1, 3), (4, 5), (0, 2), (5, 6), (3, 0), (6, 4)];
    let kept = kruskal(&edges, 8);
    assert_eq!(kept, vec![0, 1, 2, 3, 5]);
    let mut ds = DisjointSet::new(8);
    for &i in kept.iter() {
        assert!(ds.union(edges[i].0, edges[i].1));
    }
    for &(u, v) in edges.iter() {
        assert_eq!(ds.find(u), ds.find(v));
    }
    assert_ne!(ds.find(0), ds.find(4));
    assert_ne!(ds.find(7), ds.find(0));
}

use tiny3d_core::orient::{adjacency_of, bfs_order};

#[test]
fn adjacency_lists_in_edge_order() {
    let adj = adjacency_of(6, &[(0, 1), (1, 2), (0, 3), (3, 4), (2, 2)]);
    assert_eq!(
        adj,
        vec![vec![1, 3], vec![0, 2], vec![1, 2, 2], vec![0, 4], vec![3], vec![]]
    );
}

#[test]
fn breadth_first_propagation_order() {
    let adj = adjacency_of(6, &[(0, 1), (1, 2), (0, 3), (3, 4)]);
    assert_eq!(bfs_order(&adj, 0), vec![(0, 0), (1, 0), (3, 0), (2, 1), (4, 3)]);
    assert_eq!(bfs_order(&adj, 4), vec![(4, 4), (3, 4), (0, 3), (1, 0), (2, 1)]);
    assert_eq!(bfs_order(&adj, 5), vec![(5, 5)]);
}
