use merkle_core::database::{Database, MemoryDatabase, PruneDatabase};
use merkle_core::hash::H256;
use merkle_core::parallel::{MaybeParallel, ParallelDatabase, PatchError};
use merkle_core::types::{
    Manifest, Node, NodeKey, PartialPatchSet, PatchSet, PrunePatchSet, Root,
};

fn key(path: u64) -> NodeKey {
    NodeKey { version: 7, nibble_path: path }
}

fn node(b: u8) -> Node {
    Node::Leaf(H256([b; 32]))
}

fn root_descr(b: u8) -> Root {
    Root { leaf_count: b as u64, hash: H256([b; 32]) }
}

fn patch(i: u8, stale: Vec<NodeKey>) -> PatchSet {
    PatchSet {
        manifest: Manifest { version_count: 8 + i as u64 },
        patches_by_version: vec![(
            7,
            PartialPatchSet { root: Some(root_descr(i)), nodes: vec![(key(i as u64), node(i))] },
        )],
        updated_version: Some(7),
        stale_keys_by_version: vec![(7, stale)],
    }
}

fn manifest_only(count: u64) -> PatchSet {
    PatchSet {
        manifest: Manifest { version_count: count },
        patches_by_version: Vec::new(),
        updated_version: None,
        stale_keys_by_version: Vec::new(),
    }
}

#[test]
fn reads_overlay_the_queue_newest_first() {
    let mut db = ParallelDatabase::new(MemoryDatabase::new(), 7, 4);
    for i in 1..=3u8 {
        assert!(db.apply_patch_checked(patch(i, Vec::new())).is_ok());
    }
    // Before any sync, reads come from the queue: the newest root wins, and a
    // node lands under the newest command that carries it.
    assert_eq!(db.try_root(7), Ok(Some(root_descr(3))));
    assert_eq!(db.try_tree_node(&key(2), true), Ok(Some(node(2))));
    assert_eq!(db.try_manifest(), Ok(Some(Manifest { version_count: 11 })));
    // After draining, the inner store reports the same results.
    db.wait_sync();
    assert_eq!(db.try_root(7), Ok(Some(root_descr(3))));
    assert_eq!(db.try_tree_node(&key(2), true), Ok(Some(node(2))));
    let inner = db.join();
    assert_eq!(inner.try_root(7), Ok(Some(root_descr(3))));
    assert_eq!(inner.try_tree_node(&key(2), true), Ok(Some(node(2))));
    assert_eq!(inner.try_manifest(), Ok(Some(Manifest { version_count: 11 })));
}

#[test]
fn newest_command_wins_for_a_repeated_key() {
    let mut db = ParallelDatabase::new(MemoryDatabase::new(), 7, 4);
    let mut first = patch(1, Vec::new());
    first.patches_by_version[0].1.nodes = vec![(key(5), node(1))];
    let mut second = patch(2, Vec::new());
    second.patches_by_version[0].1.nodes = vec![(key(5), node(2))];
    assert!(db.apply_patch_checked(first).is_ok());
    assert!(db.apply_patch_checked(second).is_ok());
    assert_eq!(db.try_tree_node(&key(5), true), Ok(Some(node(2))));
    let inner = db.join();
    assert_eq!(inner.try_tree_node(&key(5), true), Ok(Some(node(2))));
}

#[test]
fn reads_do_not_go_backwards_across_sync() {
    let mut db = ParallelDatabase::new(MemoryDatabase::new(), 7, 4);
    assert!(db.apply_patch_checked(patch(1, Vec::new())).is_ok());
    let before = db.try_root(7);
    db.wait_sync();
    assert_eq!(db.try_root(7), before);
}

#[test]
fn batch_lookup_preserves_length_and_order() {
    let mut db = ParallelDatabase::new(MemoryDatabase::new(), 7, 4);
    assert!(db.apply_patch_checked(patch(1, Vec::new())).is_ok());
    assert!(db.apply_patch_checked(patch(2, Vec::new())).is_ok());
    let keys = vec![(key(2), true), (key(9), true), (key(1), true)];
    let nodes = db.tree_nodes(&keys);
    assert_eq!(nodes.len(), 3);
    assert_eq!(nodes[0], Some(node(2)));
    assert_eq!(nodes[1], None);
    assert_eq!(nodes[2], Some(node(1)));
}

#[test]
fn version_mismatch_is_rejected() {
    let mut db = ParallelDatabase::new(MemoryDatabase::new(), 7, 4);
    let mut bad = patch(1, Vec::new());
    bad.updated_version = Some(8);
    assert_eq!(db.apply_patch_checked(bad), Err(PatchError::VersionMismatch));
    let mut two = patch(1, Vec::new());
    two.patches_by_version.push((
        6,
        PartialPatchSet { root: None, nodes: Vec::new() },
    ));
    assert_eq!(db.apply_patch_checked(two), Err(PatchError::NotSingleVersion));
    let mut stray = manifest_only(9);
    stray.patches_by_version.push((
        7,
        PartialPatchSet { root: None, nodes: Vec::new() },
    ));
    assert_eq!(db.apply_patch_checked(stray), Err(PatchError::UnexpectedPatches));
    let mut foreign_stale = patch(1, Vec::new());
    foreign_stale.stale_keys_by_version = vec![(6, Vec::new())];
    assert_eq!(db.apply_patch_checked(foreign_stale), Err(PatchError::InvalidStaleKeys));
    let mut foreign_node = patch(1, Vec::new());
    foreign_node.patches_by_version[0].1.nodes = vec![(
        NodeKey { version: 8, nibble_path: 1 },
        node(1),
    )];
    assert_eq!(db.apply_patch_checked(foreign_node), Err(PatchError::ForeignNodeKey));
    // Nothing was enqueued by the rejected patches.
    assert_eq!(db.try_root(7), Ok(None));
}

#[test]
fn keys_of_other_versions_read_from_the_store() {
    // A key of another version never reads from the queue: the wrapped
    // store's answer comes back even while writes are in flight.
    let mut inner = MemoryDatabase::new();
    let old_key = NodeKey { version: 5, nibble_path: 9 };
    inner.apply_patch(PatchSet {
        manifest: Manifest { version_count: 6 },
        patches_by_version: vec![(
            5,
            PartialPatchSet { root: Some(root_descr(5)), nodes: vec![(old_key, node(5))] },
        )],
        updated_version: Some(5),
        stale_keys_by_version: Vec::new(),
    });
    let mut db = ParallelDatabase::new(inner, 7, 4);
    assert!(db.apply_patch_checked(patch(1, Vec::new())).is_ok());
    assert_eq!(db.try_tree_node(&old_key, true), Ok(Some(node(5))));
    assert_eq!(db.try_root(5), Ok(Some(root_descr(5))));
    assert_eq!(
        db.try_tree_node(&NodeKey { version: 8, nibble_path: 1 }, true),
        Ok(None)
    );
}

#[test]
fn manifest_only_patch_changes_no_lookup() {
    let mut db = ParallelDatabase::new(MemoryDatabase::new(), 7, 4);
    assert!(db.apply_patch_checked(patch(1, Vec::new())).is_ok());
    let root_before = db.try_root(7);
    let node_before = db.try_tree_node(&key(1), true);
    assert!(db.apply_patch_checked(manifest_only(42)).is_ok());
    assert_eq!(db.try_root(7), root_before);
    assert_eq!(db.try_tree_node(&key(1), true), node_before);
    assert_eq!(db.try_manifest(), Ok(Some(Manifest { version_count: 42 })));
}

#[test]
fn stale_keys_combine_queue_and_store() {
    let mut db = ParallelDatabase::new(MemoryDatabase::new(), 7, 4);
    assert!(db.apply_patch_checked(patch(1, vec![key(11)])).is_ok());
    db.wait_sync();
    assert!(db.apply_patch_checked(patch(2, vec![key(12)])).is_ok());
    let mut stale = db.stale_keys(7);
    stale.sort_by(|a, b| a.nibble_path.cmp(&b.nibble_path));
    assert_eq!(stale, vec![key(11), key(12)]);
    assert_eq!(db.stale_keys(6), Vec::new());
}

#[test]
fn min_stale_version_reflects_empty_queued_lists() {
    let mut db = ParallelDatabase::new(MemoryDatabase::new(), 7, 4);
    assert_eq!(db.min_stale_key_version(), None);
    assert!(db.apply_patch_checked(patch(1, Vec::new())).is_ok());
    assert_eq!(db.min_stale_key_version(), Some(7));
}

#[test]
fn prune_drains_then_prunes() {
    let mut db = ParallelDatabase::new(MemoryDatabase::new(), 7, 4);
    assert!(db.apply_patch_checked(patch(1, vec![key(11)])).is_ok());
    assert!(db.apply_patch_checked(patch(2, vec![key(12)])).is_ok());
    // Pruning with writes in flight synchronizes first, then prunes.
    db.prune(PrunePatchSet {
        pruned_node_keys: vec![key(1)],
        deleted_stale_versions_start: 0,
        deleted_stale_versions_end: 8,
    });
    assert_eq!(db.try_tree_node(&key(1), true), Ok(None));
    assert_eq!(db.try_tree_node(&key(2), true), Ok(Some(node(2))));
    assert_eq!(db.stale_keys(7), Vec::new());
    let inner = db.join();
    assert_eq!(inner.try_tree_node(&key(1), true), Ok(None));
}

#[test]
fn join_returns_store_with_all_patches_applied() {
    let mut db = MaybeParallel::Just(MemoryDatabase::new());
    db = db.parallelize(7, 4);
    db.apply_patch(patch(1, Vec::new()));
    db.apply_patch(patch(2, Vec::new()));
    let inner = db.join();
    assert_eq!(inner.try_root(7), Ok(Some(root_descr(2))));
    assert_eq!(inner.try_tree_node(&key(1), true), Ok(Some(node(1))));
    assert_eq!(inner.try_tree_node(&key(2), true), Ok(Some(node(2))));
}

#[test]
fn plain_store_dispatch() {
    let mut db = MaybeParallel::Just(MemoryDatabase::new());
    assert_eq!(db.try_manifest(), Ok(None));
    db.apply_patch(PatchSet {
        manifest: Manifest { version_count: 1 },
        patches_by_version: vec![(
            3,
            PartialPatchSet { root: Some(root_descr(9)), nodes: vec![(key(5), node(9))] },
        )],
        updated_version: Some(3),
        stale_keys_by_version: Vec::new(),
    });
    assert_eq!(db.try_root(3), Ok(Some(root_descr(9))));
    assert_eq!(db.try_root(4), Ok(None));
    db.wait_sync();
    let inner = db.join();
    assert_eq!(inner.try_tree_node(&key(5), true), Ok(Some(node(9))));
}
