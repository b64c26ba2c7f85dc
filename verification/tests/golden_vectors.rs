//! Known answers on small trees. Initially all nodes are set names;
//! `link(v)` removes v as a set name; `find(v)` returns the nearest
//! ancestor that is still a set name.

use incremental_tree_set_union::{IncrementalTreeSetUnion, StaticTreeSetUnion};

/// Build a parent array from (parent, child) edge pairs.
/// The root is identified as the node that is never a child.
fn parents_from_edges(n: usize, edges: &[(usize, usize)]) -> Vec<usize> {
    let mut parents = vec![0usize; n];
    let mut is_child = vec![false; n];
    for &(p, c) in edges {
        parents[c] = p;
        is_child[c] = true;
    }
    // Root points to itself
    for i in 0..n {
        if !is_child[i] {
            parents[i] = i;
        }
    }
    parents
}

#[test]
fn test1_nine_node_tree() {
    // Tree: 0→{1,2}, 1→{3,4}, 2→5, 3→6, 6→{7,8}
    let edges = &[
        (0, 1),
        (0, 2),
        (1, 3),
        (1, 4),
        (2, 5),
        (3, 6),
        (6, 7),
        (6, 8),
    ];
    let parents = parents_from_edges(9, edges);
    let mut tsu = StaticTreeSetUnion::from_parents(&parents);

    tsu.link(7);
    tsu.link(3);
    assert_eq!(tsu.find(8), 8);
    assert_eq!(tsu.find(6), 6);
    tsu.link(6);
    assert_eq!(tsu.find(6), 1);
}

#[test]
fn test2_star() {
    // Tree: 0→{1,2,3,4,5}
    let edges = &[(0, 1), (0, 2), (0, 3), (0, 4), (0, 5)];
    let parents = parents_from_edges(6, edges);
    let mut tsu = StaticTreeSetUnion::from_parents(&parents);

    tsu.link(3);
    assert_eq!(tsu.find(1), 1);
    assert_eq!(tsu.find(3), 0);
    tsu.link(1);
    assert_eq!(tsu.find(2), 2);
}

#[test]
fn test3_path_10() {
    // Tree: 0→1→2→3→4→5→6→7→8→9
    let edges: Vec<(usize, usize)> = (0..9).map(|i| (i, i + 1)).collect();
    let parents = parents_from_edges(10, &edges);
    let mut tsu = StaticTreeSetUnion::from_parents(&parents);

    tsu.link(5);
    assert_eq!(tsu.find(9), 9);
    assert_eq!(tsu.find(5), 4);
    tsu.link(2);
    assert_eq!(tsu.find(9), 9);
    assert_eq!(tsu.find(3), 3);
    assert_eq!(tsu.find(0), 0);
}

#[test]
fn test4_binary_tree_15() {
    // Complete binary tree: 0→{1,2}, 1→{3,4}, 2→{5,6}, 3→{7,8}, ...
    let edges = &[
        (0, 1),
        (0, 2),
        (1, 3),
        (1, 4),
        (2, 5),
        (2, 6),
        (3, 7),
        (3, 8),
        (4, 9),
        (4, 10),
        (5, 11),
        (5, 12),
        (6, 13),
        (6, 14),
    ];
    let parents = parents_from_edges(15, edges);
    let mut tsu = StaticTreeSetUnion::from_parents(&parents);

    tsu.link(7);
    tsu.link(3);
    tsu.link(1);
    assert_eq!(tsu.find(8), 8);
    assert_eq!(tsu.find(10), 10);
    assert_eq!(tsu.find(14), 14);
    tsu.link(14);
    assert_eq!(tsu.find(14), 6);
}

#[test]
fn test5_path_12() {
    // Tree: 0→1→2→...→11
    let edges: Vec<(usize, usize)> = (0..11).map(|i| (i, i + 1)).collect();
    let parents = parents_from_edges(12, &edges);
    let mut tsu = StaticTreeSetUnion::from_parents(&parents);

    tsu.link(11);
    assert_eq!(tsu.find(11), 10);
    tsu.link(5);
    assert_eq!(tsu.find(10), 10);
    assert_eq!(tsu.find(6), 6);
    tsu.link(1);
    assert_eq!(tsu.find(11), 10);
}

#[test]
fn test6_path_20() {
    // Tree: 0→1→2→...→19
    let edges: Vec<(usize, usize)> = (0..19).map(|i| (i, i + 1)).collect();
    let parents = parents_from_edges(20, &edges);
    let mut tsu = StaticTreeSetUnion::from_parents(&parents);

    tsu.link(3);
    tsu.link(7);
    tsu.link(12);
    tsu.link(17);
    assert_eq!(tsu.find(19), 19);
    assert_eq!(tsu.find(15), 15);
    assert_eq!(tsu.find(10), 10);
    assert_eq!(tsu.find(5), 5);
    assert_eq!(tsu.find(1), 1);
    tsu.link(19);
    assert_eq!(tsu.find(19), 18);
}

fn build_incremental(capacity: usize, edges: &[(usize, usize)]) -> IncrementalTreeSetUnion {
    let mut itsu = IncrementalTreeSetUnion::new(capacity);
    for &(p, c) in edges {
        itsu.grow(p, c);
    }
    itsu
}

#[test]
fn test_incremental_test1() {
    let edges = &[
        (0, 1),
        (0, 2),
        (1, 3),
        (1, 4),
        (2, 5),
        (3, 6),
        (6, 7),
        (6, 8),
    ];
    let mut itsu = build_incremental(9, edges);
    itsu.link(7);
    itsu.link(3);
    assert_eq!(itsu.find(8), 8);
    assert_eq!(itsu.find(6), 6);
    itsu.link(6);
    assert_eq!(itsu.find(6), 1);
}

#[test]
fn test_incremental_test2() {
    let mut itsu = build_incremental(6, &[(0, 1), (0, 2), (0, 3), (0, 4), (0, 5)]);
    itsu.link(3);
    assert_eq!(itsu.find(1), 1);
    assert_eq!(itsu.find(3), 0);
    itsu.link(1);
    assert_eq!(itsu.find(2), 2);
}

#[test]
fn test_incremental_test3() {
    let edges: Vec<(usize, usize)> = (0..9).map(|i| (i, i + 1)).collect();
    let mut itsu = build_incremental(10, &edges);
    itsu.link(5);
    assert_eq!(itsu.find(9), 9);
    assert_eq!(itsu.find(5), 4);
    itsu.link(2);
    assert_eq!(itsu.find(9), 9);
    assert_eq!(itsu.find(3), 3);
    assert_eq!(itsu.find(0), 0);
}

#[test]
fn test_incremental_test4() {
    let edges = &[
        (0, 1),
        (0, 2),
        (1, 3),
        (1, 4),
        (2, 5),
        (2, 6),
        (3, 7),
        (3, 8),
        (4, 9),
        (4, 10),
        (5, 11),
        (5, 12),
        (6, 13),
        (6, 14),
    ];
    let mut itsu = build_incremental(15, edges);
    itsu.link(7);
    itsu.link(3);
    itsu.link(1);
    assert_eq!(itsu.find(8), 8);
    assert_eq!(itsu.find(10), 10);
    assert_eq!(itsu.find(14), 14);
    itsu.link(14);
    assert_eq!(itsu.find(14), 6);
}
