//! Shared data model of the versioned tree store: node keys, nodes, the
//! manifest, per-version roots, and patch sets.

use vstd::prelude::*;

use crate::hash::H256;

verus! {

/// Identifies a node of a versioned Merkle tree: the version it was written
/// at and its packed nibble path.
#[derive(Clone, Copy, Debug, PartialEq, Eq, Structural)]
pub struct NodeKey {
    pub version: u64,
    pub nibble_path: u64,
}

/// A node of the tree: internal or leaf, each carrying its hash.
#[derive(Clone, Copy, Debug, PartialEq, Eq)]
pub enum Node {
    Internal(H256),
    Leaf(H256),
}

impl Node {
    /// Whether this node is a leaf.
    pub fn is_leaf(&self) -> (b: bool)
        ensures
            b == (self is Leaf),
    {
        match self {
            Node::Leaf(_) => true,
            Node::Internal(_) => false,
        }
    }

    /// The hash carried by this node.
    pub open spec fn spec_hash(&self) -> H256 {
        match self {
            Node::Internal(h) => *h,
            Node::Leaf(h) => *h,
        }
    }

    /// Returns the hash carried by this node.
    pub fn hash(&self) -> (h: H256)
        ensures
            h == self.spec_hash(),
    {
        match self {
            Node::Internal(h) => *h,
            Node::Leaf(h) => *h,
        }
    }
}

/// Small metadata record of the store, overwritten monotonically.
#[derive(Clone, Copy, Debug, PartialEq, Eq, Structural)]
pub struct Manifest {
    pub version_count: u64,
}

/// Per-version root descriptor: root hash and leaf count.
#[derive(Clone, Copy, Debug, PartialEq, Eq)]
pub struct Root {
    pub leaf_count: u64,
    pub hash: H256,
}

/// Deserialization failure surfaced by the underlying store.
#[derive(Clone, Copy, Debug, PartialEq, Eq, Structural)]
pub struct DeserializeError {
    pub code: u64,
}

/// The body of a single-version update: an optional new root and the nodes
/// inserted or modified at that version.
#[derive(Clone, Debug)]
pub struct PartialPatchSet {
    pub root: Option<Root>,
    pub nodes: Vec<(NodeKey, Node)>,
}

impl PartialPatchSet {
    /// A patch body carrying no root and no nodes.
    pub fn empty() -> (p: PartialPatchSet)
        ensures
            p.root is None,
            p.nodes@ == Seq::<(NodeKey, Node)>::empty(),
    {
        PartialPatchSet { root: None, nodes: Vec::new() }
    }
}

/// A proposed update at the snapshot layer.
#[derive(Clone, Debug)]
pub struct PatchSet {
    pub manifest: Manifest,
    pub patches_by_version: Vec<(u64, PartialPatchSet)>,
    pub updated_version: Option<u64>,
    pub stale_keys_by_version: Vec<(u64, Vec<NodeKey>)>,
}

/// Exactly what the persistence worker needs to persist one patch: the new
/// manifest, the single-version patch body, and the keys made stale by it.
#[derive(Clone, Debug)]
pub struct PersistenceCommand {
    pub manifest: Manifest,
    pub patch: PartialPatchSet,
    pub stale_keys: Vec<NodeKey>,
}

/// A destructive prune request: node keys to drop, and the half-open range of
/// versions whose stale-key lists are deleted.
#[derive(Clone, Debug)]
pub struct PrunePatchSet {
    pub pruned_node_keys: Vec<NodeKey>,
    pub deleted_stale_versions_start: u64,
    pub deleted_stale_versions_end: u64,
}

/// Keys for a batch node lookup, each with its expected-shape hint.
pub type NodeKeys = Vec<(NodeKey, bool)>;

/// The map described by an association list: the earliest entry for a key
/// wins.
pub open spec fn assoc_map<K, V>(s: Seq<(K, V)>) -> Map<K, V>
    decreases s.len(),
{
    if s.len() == 0 {
        Map::empty()
    } else {
        assoc_map(s.skip(1)).insert(s[0].0, s[0].1)
    }
}

/// Entries before position `i` that do not mention `key` do not affect what
/// the association list says about `key`.
pub proof fn lemma_assoc_map_skip<K, V>(s: Seq<(K, V)>, key: K, i: int)
    requires
        0 <= i <= s.len(),
        forall|j: int| 0 <= j < i ==> (#[trigger] s[j]).0 != key,
    ensures
        assoc_map(s).contains_key(key) == assoc_map(s.skip(i)).contains_key(key),
        assoc_map(s).contains_key(key) ==> assoc_map(s)[key] == assoc_map(s.skip(i))[key],
    decreases i,
{
    if i > 0 {
        lemma_assoc_map_skip(s, key, i - 1);
        let t = s.skip(i - 1);
        assert(t[0] == s[i - 1]);
        assert(t.skip(1) =~= s.skip(i));
        assert(assoc_map(t) == assoc_map(t.skip(1)).insert(t[0].0, t[0].1));
    } else {
        assert(s.skip(0) =~= s);
    }
}

/// An association list contains a key exactly when one of its entries does.
pub proof fn lemma_assoc_map_domain<K, V>(s: Seq<(K, V)>, key: K)
    ensures
        assoc_map(s).contains_key(key) == exists|j: int|
            0 <= j < s.len() && (#[trigger] s[j]).0 == key,
    decreases s.len(),
{
    if s.len() > 0 {
        lemma_assoc_map_domain(s.skip(1), key);
        if s[0].0 == key {
        } else if assoc_map(s.skip(1)).contains_key(key) {
            let j = choose|j: int| 0 <= j < s.skip(1).len() && (#[trigger] s.skip(1)[j]).0 == key;
            assert(s[j + 1].0 == key);
        } else if exists|j: int| 0 <= j < s.len() && (#[trigger] s[j]).0 == key {
            let j = choose|j: int| 0 <= j < s.len() && (#[trigger] s[j]).0 == key;
            assert(s.skip(1)[j - 1].0 == key);
        }
    }
}

/// Concatenating association lists unions their maps, the left list winning.
pub proof fn lemma_assoc_map_concat<K, V>(a: Seq<(K, V)>, b: Seq<(K, V)>)
    ensures
        assoc_map(a + b) == assoc_map(b).union_prefer_right(assoc_map(a)),
    decreases a.len(),
{
    if a.len() == 0 {
        assert(a + b =~= b);
        assert(assoc_map(b).union_prefer_right(assoc_map(a)) =~= assoc_map(b));
    } else {
        lemma_assoc_map_concat(a.skip(1), b);
        assert((a + b).skip(1) =~= a.skip(1) + b);
        assert(assoc_map(a + b) == assoc_map(a.skip(1) + b).insert(a[0].0, a[0].1));
        assert(assoc_map(b).union_prefer_right(assoc_map(a.skip(1))).insert(a[0].0, a[0].1)
            =~= assoc_map(b).union_prefer_right(assoc_map(a.skip(1)).insert(a[0].0, a[0].1)));
        assert(assoc_map(a) == assoc_map(a.skip(1)).insert(a[0].0, a[0].1));
    }
}

} // verus!
