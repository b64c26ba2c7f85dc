use incremental_tree_set_union::macroset::Macroset;

#[test]
fn test_singleton() {
    let mut ms = Macroset::new(4);
    ms.make_set(0, 0);
    ms.make_set(1, 1);
    assert_eq!(ms.find(0), 0);
    assert_eq!(ms.find(1), 1);
    assert_eq!(ms.top(0), 0);
    assert_eq!(ms.top(1), 1);
}

#[test]
fn test_unite_and_top() {
    let mut ms = Macroset::new(4);
    ms.make_set(0, 0); // level 0 (root)
    ms.make_set(1, 1); // level 1
    ms.make_set(2, 2); // level 2
    ms.make_set(3, 3); // level 3

    // Unite 2 and 3 — top should be 2 (level 2)
    ms.unite(2, 3);
    assert_eq!(ms.top(3), 2);

    // Unite 1 and 2 — top should be 1 (level 1)
    ms.unite(1, 2);
    assert_eq!(ms.top(3), 1);
    assert_eq!(ms.top(2), 1);
    assert_eq!(ms.top(1), 1);

    // Unite 0 and 1 — top should be 0 (level 0)
    ms.unite(0, 1);
    assert_eq!(ms.top(3), 0);
}

#[test]
fn test_self_unite() {
    let mut ms = Macroset::new(4);
    ms.make_set(0, 0);
    ms.make_set(1, 1);
    ms.unite(0, 1);
    // Unite nodes already in the same set — should be a no-op.
    let root = ms.unite(0, 1);
    assert_eq!(ms.top(0), 0);
    assert_eq!(ms.top(1), 0);
    // The root should still be valid.
    assert_eq!(ms.find(0), root);
    assert_eq!(ms.find(1), root);
}

#[test]
fn test_path_compression() {
    let mut ms = Macroset::new(8);
    for i in 0..8 {
        ms.make_set(i, i);
    }
    // Build a chain
    ms.unite(0, 1);
    ms.unite(0, 2);
    ms.unite(0, 3);
    ms.unite(0, 4);
    // All should find the same root and top should be 0
    for i in 0..5 {
        assert_eq!(ms.top(i), 0);
    }
}

#[test]
fn unite_keeps_lowest_level_as_top() {
    let mut ms = Macroset::new(6);
    ms.make_set(0, 5);
    ms.make_set(1, 2);
    ms.make_set(2, 7);
    ms.make_set(3, 1);
    ms.unite(0, 1);
    assert_eq!(ms.top(0), 1);
    ms.unite(2, 3);
    assert_eq!(ms.top(2), 3);
    ms.unite(0, 2);
    for u in 0..4 {
        assert_eq!(ms.top(u), 3);
    }
    // Untouched elements stay on their own.
    ms.make_set(4, 0);
    assert_eq!(ms.top(4), 4);
    assert_ne!(ms.find(4), ms.find(0));
}

#[test]
fn unite_returns_common_root() {
    let mut ms = Macroset::new(3);
    ms.make_set(0, 0);
    ms.make_set(1, 1);
    ms.make_set(2, 2);
    let r = ms.unite(1, 2);
    assert_eq!(ms.find(1), r);
    assert_eq!(ms.find(2), r);
    assert_eq!(ms.find(0), 0);
}

/// On a tie of levels the first argument's top names the united set.
#[test]
fn unite_tie_keeps_first_arguments_top() {
    let mut ms = Macroset::new(3);
    ms.make_set(0, 5);
    ms.make_set(1, 5);
    ms.make_set(2, 6);
    ms.unite(1, 2);
    ms.unite(0, 1);
    assert_eq!(ms.top(0), 0);
    assert_eq!(ms.top(1), 0);
    assert_eq!(ms.top(2), 0);
}
