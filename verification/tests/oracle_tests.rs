use incremental_tree_set_union::oracle::{naive_find, UfOracle};
use incremental_tree_set_union::shapes::{build_parents, TreeShape, MAX_N};
use incremental_tree_set_union::StaticTreeSetUnion;

#[test]
fn uf_oracle_starts_with_singletons() {
    let mut uf = UfOracle::new(5);
    for v in 0..5 {
        assert_eq!(uf.find(v), v);
    }
}

#[test]
fn uf_oracle_link_takes_parent_name() {
    // Path 0 -> 1 -> 2 -> 3.
    let mut uf = UfOracle::new(4);
    uf.link(3, 2);
    assert_eq!(uf.find(3), 2);
    assert_eq!(uf.find(2), 2);
    uf.link(1, 0);
    assert_eq!(uf.find(1), 0);
    uf.link(2, 1);
    assert_eq!(uf.find(3), 0);
    assert_eq!(uf.find(2), 0);
    // Linking within one set changes nothing.
    uf.link(3, 2);
    assert_eq!(uf.find(3), 0);
}

#[test]
fn naive_find_walks_linked_ancestors() {
    let parents = vec![0, 0, 1, 2, 1];
    let linked = vec![false, true, false, true, true];
    assert_eq!(naive_find(0, &parents, &linked), 0);
    assert_eq!(naive_find(1, &parents, &linked), 0);
    assert_eq!(naive_find(2, &parents, &linked), 2);
    assert_eq!(naive_find(3, &parents, &linked), 2);
    assert_eq!(naive_find(4, &parents, &linked), 0);
}

#[test]
fn naive_find_stops_at_linked_root() {
    let parents = vec![0, 0];
    let linked = vec![true, true];
    assert_eq!(naive_find(1, &parents, &linked), 0);
}

#[test]
fn build_parents_random() {
    assert_eq!(build_parents(&TreeShape::Random(vec![])), vec![0]);
    assert_eq!(build_parents(&TreeShape::Random(vec![5, 7, 9])), vec![0, 0, 1, 0]);
    let big = build_parents(&TreeShape::Random(vec![3; 5000]));
    assert_eq!(big.len(), MAX_N);
    for i in 1..big.len() {
        assert!(big[i] < i);
    }
}

#[test]
fn build_parents_path_and_star() {
    assert_eq!(build_parents(&TreeShape::Path(0)), vec![0, 0]);
    assert_eq!(build_parents(&TreeShape::Path(3)), vec![0, 0, 1, 2, 3]);
    assert_eq!(build_parents(&TreeShape::Path(u16::MAX)).len(), MAX_N);
    assert_eq!(build_parents(&TreeShape::Star(2)), vec![0, 0, 0, 0]);
    assert_eq!(build_parents(&TreeShape::Star(u16::MAX)).len(), MAX_N);
}

#[test]
fn build_parents_caterpillar() {
    // Spine 0 -> 1 -> 2, two leaves on each spine node.
    assert_eq!(
        build_parents(&TreeShape::Caterpillar { depth: 3, width: 2 }),
        vec![0, 0, 1, 0, 0, 1, 1, 2, 2]
    );
    // A spine of one node and no leaves still has two nodes.
    assert_eq!(build_parents(&TreeShape::Caterpillar { depth: 0, width: 0 }), vec![0, 0]);
    // Width is capped at 20, depth at 200, and the whole at MAX_N.
    let p = build_parents(&TreeShape::Caterpillar { depth: 255, width: 255 });
    assert_eq!(p.len(), MAX_N);
    assert_eq!(p[199], 198);
    assert_eq!(p[200], 0);
    assert_eq!(p[220], 1);
}

#[test]
fn structure_agrees_with_oracles_on_shapes() {
    let shapes = vec![
        TreeShape::Random((0..300u16).map(|i| i.wrapping_mul(7919)).collect()),
        TreeShape::Path(100),
        TreeShape::Star(50),
        TreeShape::Caterpillar { depth: 10, width: 4 },
    ];
    for shape in &shapes {
        let parents = build_parents(shape);
        let n = parents.len();
        let mut tsu = StaticTreeSetUnion::from_parents(&parents);
        let mut uf = UfOracle::new(n);
        let mut linked = vec![false; n];
        for i in (1..n).rev() {
            if i % 3 != 0 {
                tsu.link(i);
                uf.link(i, parents[i]);
                linked[i] = true;
            }
        }
        for v in 0..n {
            let got = tsu.find(v);
            assert_eq!(got, uf.find(v));
            assert_eq!(got, naive_find(v, &parents, &linked));
        }
    }
}

/// Flags past the end of the tree are not read.
#[test]
fn naive_find_ignores_extra_flags() {
    assert_eq!(naive_find(2, &[0, 0, 1], &[false, true, true, true]), 0);
    assert_eq!(naive_find(2, &[0, 0, 1], &[false, false, true, false]), 1);
}
