use merkle_core::hash::{HashEmptySubtree, KeccakHasher, H256};
use merkle_core::merkle::{tree_depth_by_size, verify_path, MiniMerkleTree};

fn leaf(b: u8) -> [u8; 88] {
    [b; 88]
}

fn hash_leaf(b: u8) -> H256 {
    KeccakHasher.hash_bytes(&leaf(b))
}

fn compress(l: &H256, r: &H256) -> H256 {
    KeccakHasher.compress(l, r)
}

fn empty(depth: usize) -> H256 {
    KeccakHasher.empty_subtree_hash(depth)
}

#[test]
fn tree_depth_by_size_is_log2() {
    assert_eq!(tree_depth_by_size(1), 0);
    assert_eq!(tree_depth_by_size(2), 1);
    assert_eq!(tree_depth_by_size(4), 2);
    assert_eq!(tree_depth_by_size(1 << 32), 32);
}

#[test]
fn three_leaves_padded_to_four() {
    // Three leaves with a minimum size of four: the tree has size 4, depth 2,
    // and its root is the naive full-tree construction with one empty leaf.
    let tree = MiniMerkleTree::<88>::new(vec![leaf(1), leaf(2), leaf(3)], Some(4));
    let expected = compress(
        &compress(&hash_leaf(1), &hash_leaf(2)),
        &compress(&hash_leaf(3), &empty(0)),
    );
    assert_eq!(tree.merkle_root(), expected);
    // Depth is observable through the path length.
    let (root, path) = tree.merkle_root_and_path(0);
    assert_eq!(root, expected);
    assert_eq!(path.len(), 2);
}

#[test]
fn proof_for_second_leaf() {
    let tree = MiniMerkleTree::<88>::new(vec![leaf(1), leaf(2), leaf(3)], Some(4));
    let (root, path) = tree.merkle_root_and_path(1);
    assert_eq!(path.len(), 2);
    assert_eq!(path[0], hash_leaf(1));
    assert_eq!(path[1], compress(&hash_leaf(3), &empty(0)));
    assert!(verify_path(&KeccakHasher, &hash_leaf(2), 1, &path, &root));
    // A wrong leaf hash does not verify.
    assert!(!verify_path(&KeccakHasher, &hash_leaf(3), 1, &path, &root));
}

#[test]
fn every_leaf_proof_verifies() {
    let leaves: Vec<[u8; 88]> = (1..=5u8).map(leaf).collect();
    let tree = MiniMerkleTree::<88>::new(leaves, None);
    let root = tree.merkle_root();
    for i in 0..5usize {
        let (r, path) = tree.merkle_root_and_path(i);
        assert_eq!(r, root);
        assert!(verify_path(
            &KeccakHasher,
            &hash_leaf((i + 1) as u8),
            i as u64,
            &path,
            &root
        ));
    }
}

#[test]
fn push_doubles_the_tree() {
    // A full 4-leaf tree doubles to size 8 (depth 3) on the fifth push, and
    // the root then incorporates the empty subtree of depth 2 on the right.
    let mut tree = MiniMerkleTree::<88>::new(vec![leaf(1), leaf(2), leaf(3), leaf(4)], None);
    let (_, path) = tree.merkle_root_and_path(0);
    assert_eq!(path.len(), 2);
    tree.push(leaf(5));
    let (root, path) = tree.merkle_root_and_path(0);
    assert_eq!(path.len(), 3);
    let left_half = compress(
        &compress(&hash_leaf(1), &hash_leaf(2)),
        &compress(&hash_leaf(3), &hash_leaf(4)),
    );
    let right_half = compress(&compress(&hash_leaf(5), &empty(0)), &empty(1));
    assert_eq!(root, compress(&left_half, &right_half));
    // The right half sits above an empty subtree of depth 2 when the fifth
    // leaf itself is absent.
    let empty_right = empty(2);
    let mut bare = MiniMerkleTree::<88>::new(vec![leaf(1), leaf(2), leaf(3), leaf(4)], Some(8));
    assert_eq!(bare.merkle_root(), compress(&left_half, &empty_right));
    bare.push(leaf(5));
    assert_eq!(bare.merkle_root(), root);
}

#[test]
fn trim_preserves_root() {
    let mut tree = MiniMerkleTree::<88>::new(vec![leaf(1), leaf(2), leaf(3), leaf(4)], None);
    let before = tree.merkle_root();
    tree.trim_start(2);
    assert_eq!(tree.merkle_root(), before);
    // The leaf at relative index 0 is now the third leaf; its proof still
    // verifies against the unchanged root, at absolute position 2.
    let (root, path) = tree.merkle_root_and_path(0);
    assert_eq!(root, before);
    assert_eq!(path.len(), 2);
    assert_eq!(path[0], hash_leaf(4));
    assert_eq!(path[1], compress(&hash_leaf(1), &hash_leaf(2)));
    assert!(verify_path(&KeccakHasher, &hash_leaf(3), 2, &path, &root));
}

#[test]
fn trimmed_and_untrimmed_trees_agree_after_pushes() {
    let base: Vec<[u8; 88]> = (1..=4u8).map(leaf).collect();
    let mut trimmed = MiniMerkleTree::<88>::new(base.clone(), None);
    let mut plain = MiniMerkleTree::<88>::new(base, None);
    trimmed.trim_start(3);
    assert_eq!(trimmed.merkle_root(), plain.merkle_root());
    for b in 5..=9u8 {
        trimmed.push(leaf(b));
        plain.push(leaf(b));
        assert_eq!(trimmed.merkle_root(), plain.merkle_root());
    }
}

#[test]
fn full_trim_then_push_keeps_history() {
    // Trimming everything keeps the prefix root in the cache, so growth on
    // the next push still reflects the trimmed leaves.
    let base: Vec<[u8; 88]> = (1..=4u8).map(leaf).collect();
    let mut trimmed = MiniMerkleTree::<88>::new(base.clone(), None);
    let mut plain = MiniMerkleTree::<88>::new(base, None);
    trimmed.trim_start(4);
    assert_eq!(trimmed.merkle_root(), plain.merkle_root());
    trimmed.push(leaf(5));
    plain.push(leaf(5));
    assert_eq!(trimmed.merkle_root(), plain.merkle_root());
}

#[test]
fn trim_nothing_on_emptied_window_is_a_no_op() {
    let base: Vec<[u8; 88]> = (1..=4u8).map(leaf).collect();
    let mut tree = MiniMerkleTree::<88>::new(base, None);
    let before = tree.merkle_root();
    tree.trim_start(4);
    tree.trim_start(0);
    assert_eq!(tree.merkle_root(), before);
    tree.push(leaf(5));
    let (root, path) = tree.merkle_root_and_path(0);
    assert_eq!(root, tree.merkle_root());
    assert_eq!(path.len(), 3);
}

#[test]
fn range_proof_matches_root_and_verifies() {
    let leaves: Vec<[u8; 88]> = (1..=6u8).map(leaf).collect();
    let mut tree = MiniMerkleTree::<88>::new(leaves, None);
    tree.trim_start(1);
    let root = tree.merkle_root();
    let (r, left_path, right_path) = tree.merkle_root_and_paths_for_range(4);
    assert_eq!(r, root);
    // The left path proves the leftmost untrimmed leaf (absolute index 1),
    // the right path the leaf at relative index 3 (absolute index 4).
    assert!(verify_path(&KeccakHasher, &hash_leaf(2), 1, &left_path, &root));
    assert!(verify_path(&KeccakHasher, &hash_leaf(5), 4, &right_path, &root));
}

#[test]
fn empty_tree_root_is_empty_subtree() {
    let tree = MiniMerkleTree::<88>::new(Vec::new(), Some(4));
    assert!(tree.is_empty());
    assert_eq!(tree.merkle_root(), empty(2));
    let one = MiniMerkleTree::<88>::new(Vec::new(), None);
    assert_eq!(one.merkle_root(), empty(0));
}
