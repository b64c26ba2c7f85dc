use incremental_tree_set_union::answer_table::{
    ceil_log2, compute_b, encode_forest, floor_log2, log_star, AnswerTable,
};

#[test]
fn test_compute_b() {
    // Small n
    let (b, clb) = compute_b(2);
    assert!(b >= 2);
    assert!(clb >= 1);

    // Medium n
    let (b, _) = compute_b(1000);
    assert!((2..=10).contains(&b));

    // Large n
    let (b, _) = compute_b(1_000_000);
    assert!((4..=12).contains(&b));
}

#[test]
fn test_encode_decode_roundtrip() {
    // Simple path: 3 nodes, each with 0 or 1 child
    let child_counts = [1, 1, 0];
    let forest = encode_forest(&child_counts, 3);

    let mut parent = [0i32; 16];
    let mut cc = [0u32; 16];
    let count = AnswerTable::decode_forest(forest, &mut parent, &mut cc);
    assert_eq!(count, 3);
    assert_eq!(parent[0], -1); // root
    assert_eq!(parent[1], 0); // child of 0
    assert_eq!(parent[2], 1); // child of 1
}

#[test]
fn test_encode_decode_star() {
    // Star: node 0 has 2 children (nodes 1 and 2)
    let child_counts = [2, 0, 0];
    let forest = encode_forest(&child_counts, 3);

    let mut parent = [0i32; 16];
    let mut cc = [0u32; 16];
    let count = AnswerTable::decode_forest(forest, &mut parent, &mut cc);
    assert_eq!(count, 3);
    assert_eq!(parent[0], -1);
    assert_eq!(parent[1], 0);
    assert_eq!(parent[2], 0);
}

#[test]
fn test_answer_table_simple() {
    // Need b >= 4 so max_nodes >= 3. b=4 requires n >= 768.
    let at = AnswerTable::new(1000);
    assert!(at.b >= 4, "b={} too small for 3-node microsets", at.b);

    // Path microset: node 0 -> node 1 -> node 2
    let child_counts = [1, 1, 0];
    let forest = encode_forest(&child_counts, 3);

    // All nodes marked (mark = 0b000): find(j) = j+1 for all j
    let packed = at.lookup(forest, 0b000);
    assert_eq!(at.extract(packed, 0), 1);
    assert_eq!(at.extract(packed, 1), 2);
    assert_eq!(at.extract(packed, 2), 3);

    // Node 0 linked (mark = 0b001): find(0) has no marked ancestor
    let packed = at.lookup(forest, 0b001);
    assert_eq!(at.extract(packed, 0), 0);
    assert_eq!(at.extract(packed, 1), 2);
    assert_eq!(at.extract(packed, 2), 3);

    // Nodes 1 and 2 linked (mark = 0b110): find(2) -> 1(linked) -> 0(marked) = 1
    let packed = at.lookup(forest, 0b110);
    assert_eq!(at.extract(packed, 0), 1);
    assert_eq!(at.extract(packed, 1), 1);
    assert_eq!(at.extract(packed, 2), 1);
}

#[test]
fn test_answer_table_siblings() {
    let at = AnswerTable::new(1000);
    assert!(at.b >= 4, "b={} too small for 3-node microsets", at.b);

    // Star: node 0 has children 1 and 2
    let child_counts = [2, 0, 0];
    let forest = encode_forest(&child_counts, 3);

    // All marked
    let packed = at.lookup(forest, 0b000);
    assert_eq!(at.extract(packed, 0), 1);
    assert_eq!(at.extract(packed, 1), 2);
    assert_eq!(at.extract(packed, 2), 3);

    // Node 1 linked (mark = 0b010): find(1) -> 0(marked) = 1
    let packed = at.lookup(forest, 0b010);
    assert_eq!(at.extract(packed, 0), 1);
    assert_eq!(at.extract(packed, 1), 1);
    assert_eq!(at.extract(packed, 2), 3);
}

#[test]
fn test_compute_b_word_packing_limit() {
    // At bb=17 the word-packing constraint (16 * ceil_log2(17) = 80 > 63) fires.
    let (b, clb) = compute_b(usize::MAX);
    assert_eq!(b, 16);
    assert_eq!(clb, 4); // ceil_log2(16) = 4
}

#[test]
fn test_decode_forest_overflow() {
    let mut parent = [0i32; 16];
    let mut cc = [0u32; 16];

    // 0xFFFF = 16 one-bits = exactly 16 nodes. Fits in the buffer.
    let count = AnswerTable::decode_forest(0xFFFF, &mut parent, &mut cc);
    assert_eq!(count, 16);

    // 0x1FFFF = 17 one-bits. The 17th node triggers the overflow guard.
    let count = AnswerTable::decode_forest(0x1FFFF, &mut parent, &mut cc);
    assert_eq!(count, 0);
}

#[test]
fn test_floor_log2() {
    assert_eq!(floor_log2(1), 0);
    assert_eq!(floor_log2(2), 1);
    assert_eq!(floor_log2(3), 1);
    assert_eq!(floor_log2(4), 2);
    assert_eq!(floor_log2(8), 3);
    assert_eq!(floor_log2(1000), 9);
}

#[test]
fn test_ceil_log2() {
    assert_eq!(ceil_log2(1), 0);
    assert_eq!(ceil_log2(2), 1);
    assert_eq!(ceil_log2(3), 2);
    assert_eq!(ceil_log2(4), 2);
    assert_eq!(ceil_log2(5), 3);
}

#[test]
fn floor_and_ceil_log2_of_zero_and_max() {
    assert_eq!(floor_log2(0), 0);
    assert_eq!(ceil_log2(0), 0);
    assert_eq!(floor_log2(usize::MAX), usize::BITS - 1);
    assert_eq!(ceil_log2(usize::MAX), usize::BITS);
    assert_eq!(ceil_log2(1 << 20), 20);
    assert_eq!(ceil_log2((1 << 20) + 1), 21);
}

#[test]
fn log_star_values() {
    assert_eq!(log_star(0), 0);
    assert_eq!(log_star(1), 0);
    assert_eq!(log_star(2), 1);
    assert_eq!(log_star(4), 2);
    assert_eq!(log_star(16), 3);
    assert_eq!(log_star(65536), 4);
    assert_eq!(log_star(65537), 4);
}

#[test]
fn compute_b_small_and_exact_values() {
    assert_eq!(compute_b(0), (2, 1));
    assert_eq!(compute_b(2), (2, 1));
    // The answer table for 1000 nodes uses b = 4 (table of 2^8 entries).
    assert_eq!(compute_b(1000), (4, 2));
    assert_eq!(compute_b(767).0, 3);
    assert_eq!(compute_b(768).0, 4);
}

#[test]
fn compute_b_follows_the_documented_table() {
    assert_eq!(compute_b(63), (2, 1));
    assert_eq!(compute_b(64), (3, 2));
    assert_eq!(compute_b(8192), (4, 2));
    assert_eq!(compute_b(16_383), (4, 2));
    assert_eq!(compute_b(16_384), (5, 3));
    assert_eq!(compute_b(524_287), (5, 3));
    assert_eq!(compute_b(524_288), (6, 3));
    assert_eq!(compute_b(1_000_000), (6, 3));
    assert_eq!(compute_b(25_165_823), (6, 3));
    // From 25,165,824 nodes on: the largest b with (b - 1) * 2^(3b - 4) <= n.
    assert_eq!(compute_b(25_165_824), (8, 3));
    assert_eq!(compute_b(67_108_863), (8, 3));
    assert_eq!(compute_b(67_108_864), (9, 4));
    assert_eq!(compute_b(402_653_184), (9, 4));
    assert_eq!(compute_b(1_000_000_000), (10, 4));
}

#[test]
fn encode_forest_known_bitstrings() {
    // A lone node is the single bit 1.
    assert_eq!(encode_forest(&[0], 1), 0b1);
    // Path of three: each node one child.
    assert_eq!(encode_forest(&[1, 1, 0], 3), 0b11010);
    // Star of three: the root has two children.
    assert_eq!(encode_forest(&[2, 0, 0], 3), 0b11100);
    // Only the first `count` entries are encoded.
    assert_eq!(encode_forest(&[1, 0, 5], 2), 0b110);
}

#[test]
fn decode_forest_rejects_malformed() {
    let mut parent = [0i32; 16];
    let mut cc = [0u32; 16];
    // Empty bitstring.
    assert_eq!(AnswerTable::decode_forest(0, &mut parent, &mut cc), 0);
    // A root that asks for a child that never comes.
    assert_eq!(AnswerTable::decode_forest(0b10, &mut parent, &mut cc), 0);
    // Two roots side by side form a forest of two.
    assert_eq!(AnswerTable::decode_forest(0b11, &mut parent, &mut cc), 2);
    assert_eq!(parent[0], -1);
    assert_eq!(parent[1], -1);
    // Bitstrings with the top bit set decode like any other.
    assert_eq!(AnswerTable::decode_forest(0xFFFF_FFFF, &mut parent, &mut cc), 0);
    assert_eq!(AnswerTable::decode_forest(0x8000_0001, &mut parent, &mut cc), 0);
}

#[test]
fn compute_answer_walks_to_marked_ancestor() {
    let mut parent = [0i32; 16];
    parent[0] = -1;
    parent[1] = 0;
    parent[2] = 1;
    // All marked: each node answers itself, 1-indexed.
    assert_eq!(AnswerTable::compute_answer(2, 0b000, &parent, 3), 3);
    // 2 and 1 linked: the answer is node 0, 1-indexed.
    assert_eq!(AnswerTable::compute_answer(2, 0b110, &parent, 3), 1);
    // Everything linked: no marked ancestor inside the microset.
    assert_eq!(AnswerTable::compute_answer(2, 0b111, &parent, 3), 0);
}
