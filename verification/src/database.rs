//! The database capability: the abstract contract that the write-behind
//! wrapper and higher layers consume, and an in-memory store implementing it.

use vstd::prelude::*;

use crate::types::{
    assoc_map, lemma_assoc_map_concat, lemma_assoc_map_skip, DeserializeError, Manifest, Node,
    NodeKey, NodeKeys, PartialPatchSet, PatchSet, PrunePatchSet, Root,
};

verus! {

/// The abstract contents of a store: the manifest, the root of each version
/// that has one, the nodes by key, and for every version the keys made stale
/// at it (a total mapping; untouched versions map to the empty sequence).
#[verifier::ext_equal]
pub struct DbView {
    pub manifest: Option<Manifest>,
    pub roots: Map<u64, Root>,
    pub nodes: Map<NodeKey, Node>,
    pub stale: Map<u64, Seq<NodeKey>>,
}

/// The contents of a store holding nothing.
pub open spec fn empty_view() -> DbView {
    DbView {
        manifest: None,
        roots: Map::empty(),
        nodes: Map::empty(),
        stale: Map::new(|v: u64| true, |v: u64| Seq::empty()),
    }
}

/// The root recorded for a version, if any.
pub open spec fn spec_root_lookup(v: DbView, version: u64) -> Option<Root> {
    if v.roots.contains_key(version) {
        Some(v.roots[version])
    } else {
        None
    }
}

/// The node recorded for a key, if any.
pub open spec fn spec_node_lookup(v: DbView, key: NodeKey) -> Option<Node> {
    if v.nodes.contains_key(key) {
        Some(v.nodes[key])
    } else {
        None
    }
}

/// Applies the body of a single-version update: records the new root for the
/// version if one is carried, and overlays the inserted or modified nodes.
pub open spec fn apply_partial(v: DbView, version: u64, p: PartialPatchSet) -> DbView {
    DbView {
        manifest: v.manifest,
        roots: match p.root {
            Some(r) => v.roots.insert(version, r),
            None => v.roots,
        },
        nodes: v.nodes.union_prefer_right(assoc_map(p.nodes@)),
        stale: v.stale,
    }
}

/// Applies each per-version patch body in order.
pub open spec fn apply_patches_seq(v: DbView, s: Seq<(u64, PartialPatchSet)>) -> DbView
    decreases s.len(),
{
    if s.len() == 0 {
        v
    } else {
        apply_partial(apply_patches_seq(v, s.drop_last()), s.last().0, s.last().1)
    }
}

/// Appends newly stale keys to the list of a version.
pub open spec fn append_stale(v: DbView, version: u64, keys: Seq<NodeKey>) -> DbView {
    DbView { stale: v.stale.insert(version, v.stale[version] + keys), ..v }
}

/// Appends each per-version stale-key list in order.
pub open spec fn apply_stale_seq(v: DbView, s: Seq<(u64, Vec<NodeKey>)>) -> DbView
    decreases s.len(),
{
    if s.len() == 0 {
        v
    } else {
        append_stale(apply_stale_seq(v, s.drop_last()), s.last().0, s.last().1@)
    }
}

/// What applying a whole patch set does to a store: the per-version patch
/// bodies land, the manifest is overwritten, and the stale-key lists grow.
pub open spec fn apply_patch_spec(v: DbView, p: PatchSet) -> DbView {
    let v1 = apply_patches_seq(v, p.patches_by_version@);
    let v2 = DbView { manifest: Some(p.manifest), ..v1 };
    apply_stale_seq(v2, p.stale_keys_by_version@)
}

/// What pruning does to a store: the pruned node keys disappear, and the
/// stale-key lists of the deleted version range are emptied.
pub open spec fn prune_spec(v: DbView, p: PrunePatchSet) -> DbView {
    DbView {
        manifest: v.manifest,
        roots: v.roots,
        nodes: v.nodes.remove_keys(p.pruned_node_keys@.to_set()),
        stale: Map::new(
            |ver: u64| true,
            |ver: u64|
                if p.deleted_stale_versions_start <= ver < p.deleted_stale_versions_end {
                    Seq::empty()
                } else {
                    v.stale[ver]
                },
        ),
    }
}

/// Appending stale keys never changes the roots or the nodes of a store.
pub proof fn lemma_apply_stale_seq_preserves_lookups(v: DbView, s: Seq<(u64, Vec<NodeKey>)>)
    ensures
        apply_stale_seq(v, s).roots == v.roots,
        apply_stale_seq(v, s).nodes == v.nodes,
        apply_stale_seq(v, s).manifest == v.manifest,
    decreases s.len(),
{
    if s.len() > 0 {
        lemma_apply_stale_seq_preserves_lookups(v, s.drop_last());
    }
}

/// Law: applying a manifest-only patch — one that carries no patch bodies —
/// changes no root lookup and no node lookup.
pub proof fn lemma_manifest_only_patch_preserves_lookups(v: DbView, p: PatchSet)
    requires
        p.patches_by_version@.len() == 0,
    ensures
        forall|version: u64|
            spec_root_lookup(#[trigger] apply_patch_spec(v, p), version) == spec_root_lookup(
                v,
                version,
            ),
        forall|key: NodeKey|
            spec_node_lookup(#[trigger] apply_patch_spec(v, p), key) == spec_node_lookup(v, key),
{
    assert(apply_patches_seq(v, p.patches_by_version@) == v);
    let v2 = DbView { manifest: Some(p.manifest), ..v };
    lemma_apply_stale_seq_preserves_lookups(v2, p.stale_keys_by_version@);
}

/// The database capability consumed by the write-behind wrapper and by higher
/// layers: manifest lookup, root-by-version lookup, node lookup, batch node
/// lookup, and atomic sequential patch application.
pub trait Database: Sized {
    /// The abstract contents of this store.
    spec fn db_view(&self) -> DbView;

    /// Whether reads from this store may fail with a deserialization error.
    spec fn may_fail(&self) -> bool;

    /// Which patch sets this store accepts.
    spec fn apply_patch_req(&self, patch: PatchSet) -> bool;

    /// Returns the manifest, or `None` if the store holds none.
    fn try_manifest(&self) -> (r: Result<Option<Manifest>, DeserializeError>)
        ensures
            match r {
                Ok(m) => m == self.db_view().manifest,
                Err(_) => self.may_fail(),
            },
    ;

    /// Returns the root recorded for the version, if any.
    fn try_root(&self, version: u64) -> (r: Result<Option<Root>, DeserializeError>)
        ensures
            match r {
                Ok(root) => root == spec_root_lookup(self.db_view(), version),
                Err(_) => self.may_fail(),
            },
    ;

    /// Returns the node recorded for the key, if any. `is_leaf` is an
    /// expected-shape hint: handing in a key whose recorded node has the
    /// other shape is a programming error on the caller's side.
    fn try_tree_node(&self, key: &NodeKey, is_leaf: bool) -> (r: Result<
        Option<Node>,
        DeserializeError,
    >)
        requires
            spec_node_lookup(self.db_view(), *key) matches Some(n) ==> ((n is Leaf) <==> is_leaf),
        ensures
            match r {
                Ok(node) => node == spec_node_lookup(self.db_view(), *key),
                Err(_) => self.may_fail(),
            },
    ;

    /// Batch node lookup: one entry per key, in the order given, each with
    /// its expected-shape hint. A key whose value cannot be read comes back
    /// absent instead of failing the batch.
    fn tree_nodes(&self, keys: &NodeKeys) -> (r: Vec<Option<Node>>)
        requires
            forall|i: int|
                0 <= i < keys@.len() ==> (spec_node_lookup(
                    self.db_view(),
                    (#[trigger] keys@[i]).0,
                ) matches Some(n) ==> ((n is Leaf) <==> keys@[i].1)),
        ensures
            r@.len() == keys@.len(),
            forall|i: int|
                0 <= i < keys@.len() ==> (#[trigger] r@[i]) == spec_node_lookup(
                    self.db_view(),
                    keys@[i].0,
                ) || (self.may_fail() && r@[i] is None),
    ;

    /// Law: the stale-key mapping of a store's contents is total — every
    /// version has a (possibly empty) list.
    proof fn lemma_stale_total(&self)
        ensures
            forall|ver: u64| #[trigger] self.db_view().stale.contains_key(ver),
    ;

    /// Applies a patch set atomically.
    fn apply_patch(&mut self, patch: PatchSet)
        requires
            old(self).apply_patch_req(patch),
        ensures
            final(self).db_view() == apply_patch_spec(old(self).db_view(), patch),
            final(self).may_fail() == old(self).may_fail(),
            forall|p: PatchSet|
                final(self).apply_patch_req(p) == old(self).apply_patch_req(p),
    ;
}

/// Extension of `Database` for stores that track and prune stale keys.
pub trait PruneDatabase: Database {
    /// What `min_stale_key_version` returns.
    spec fn min_stale_spec(&self) -> Option<u64>;

    /// Which prune requests this store accepts in its current state.
    spec fn prune_req(&self) -> bool;

    /// The exact sequence `stale_keys` returns for a version; a permutation
    /// of the stale-key list the store's contents record for it.
    spec fn stale_seq(&self, version: u64) -> Seq<NodeKey>;

    /// The lowest version with stale keys, by this store's own accounting.
    fn min_stale_key_version(&self) -> (r: Option<u64>)
        ensures
            r == self.min_stale_spec(),
    ;

    /// Returns the stale keys of a version, in this store's stated order.
    fn stale_keys(&self, version: u64) -> (r: Vec<NodeKey>)
        ensures
            r@ == self.stale_seq(version),
            r@.to_multiset() == self.db_view().stale[version].to_multiset(),
    ;

    /// Prunes the given node keys and stale-key lists. Must not race with
    /// patch application.
    fn prune(&mut self, patch: PrunePatchSet)
        requires
            old(self).prune_req(),
        ensures
            final(self).db_view() == prune_spec(old(self).db_view(), patch),
            final(self).may_fail() == old(self).may_fail(),
            forall|p: PatchSet|
                final(self).apply_patch_req(p) == old(self).apply_patch_req(p),
    ;
}

/// The minimum version among association-list entries carrying a nonempty
/// stale-key list.
pub open spec fn spec_min_stale(s: Seq<(u64, Vec<NodeKey>)>) -> Option<u64>
    decreases s.len(),
{
    if s.len() == 0 {
        None
    } else {
        let rest = spec_min_stale(s.skip(1));
        if s[0].1@.len() == 0 {
            rest
        } else {
            match rest {
                None => Some(s[0].0),
                Some(m) => Some(if s[0].0 < m {
                    s[0].0
                } else {
                    m
                }),
            }
        }
    }
}

/// In-memory store: association lists behind the `Database` contract. Reads
/// never fail; every patch set is accepted.
pub struct MemoryDatabase {
    manifest: Option<Manifest>,
    roots: Vec<(u64, Root)>,
    nodes: Vec<(NodeKey, Node)>,
    stale: Vec<(u64, Vec<NodeKey>)>,
}

/// The stale-key list an association list records for a version; empty when
/// the version has no entry.
pub open spec fn stale_lookup(s: Seq<(u64, Vec<NodeKey>)>, version: u64) -> Seq<NodeKey> {
    if assoc_map(s).contains_key(version) {
        assoc_map(s)[version]@
    } else {
        Seq::empty()
    }
}

impl MemoryDatabase {
    /// Creates an empty store.
    pub fn new() -> (db: Self)
        ensures
            db.db_view() == empty_view(),
            !db.may_fail(),
            forall|p: PatchSet| #[trigger] db.apply_patch_req(p),
            db.min_stale_spec() is None,
            db.prune_req(),
    {
        let db = MemoryDatabase { manifest: None, roots: Vec::new(), nodes: Vec::new(), stale: Vec::new() };
        proof {
            assert(db.db_view().roots =~= empty_view().roots);
            assert(db.db_view().nodes =~= empty_view().nodes);
            assert(db.db_view().stale =~= empty_view().stale);
        }
        db
    }

    /// Looks up the first root entry for a version.
    fn root_get(&self, version: u64) -> (r: Option<Root>)
        ensures
            r == spec_root_lookup(self.db_view(), version),
    {
        let mut i: usize = 0;
        while i < self.roots.len()
            invariant
                i <= self.roots@.len(),
                forall|j: int| 0 <= j < i ==> (#[trigger] self.roots@[j]).0 != version,
            decreases self.roots@.len() - i,
        {
            if self.roots[i].0 == version {
                proof {
                    lemma_assoc_map_skip(self.roots@, version, i as int);
                    let t = self.roots@.skip(i as int);
                    assert(t[0] == self.roots@[i as int]);
                    assert(t.skip(1) =~= self.roots@.skip(i + 1));
                    assert(assoc_map(t) == assoc_map(t.skip(1)).insert(t[0].0, t[0].1));
                    assert(assoc_map(self.roots@).contains_key(version));
                    assert(assoc_map(self.roots@)[version] == self.roots@[i as int].1);
                }
                return Some(self.roots[i].1);
            }
            i = i + 1;
        }
        proof {
            lemma_assoc_map_skip(self.roots@, version, self.roots@.len() as int);
            assert(self.roots@.skip(self.roots@.len() as int) =~= Seq::<(u64, Root)>::empty());
        }
        None
    }

    /// Looks up the first node entry for a key.
    fn node_get(&self, key: &NodeKey) -> (r: Option<Node>)
        ensures
            r == spec_node_lookup(self.db_view(), *key),
    {
        let mut i: usize = 0;
        while i < self.nodes.len()
            invariant
                i <= self.nodes@.len(),
                forall|j: int| 0 <= j < i ==> (#[trigger] self.nodes@[j]).0 != *key,
            decreases self.nodes@.len() - i,
        {
            if self.nodes[i].0 == *key {
                proof {
                    lemma_assoc_map_skip(self.nodes@, *key, i as int);
                    let t = self.nodes@.skip(i as int);
                    assert(t[0] == self.nodes@[i as int]);
                    assert(t.skip(1) =~= self.nodes@.skip(i + 1));
                    assert(assoc_map(t) == assoc_map(t.skip(1)).insert(t[0].0, t[0].1));
                    assert(assoc_map(self.nodes@).contains_key(*key));
                    assert(assoc_map(self.nodes@)[*key] == self.nodes@[i as int].1);
                }
                return Some(self.nodes[i].1);
            }
            i = i + 1;
        }
        proof {
            lemma_assoc_map_skip(self.nodes@, *key, self.nodes@.len() as int);
            assert(self.nodes@.skip(self.nodes@.len() as int) =~= Seq::<(NodeKey, Node)>::empty());
        }
        None
    }

    /// Looks up the first stale entry for a version and copies its keys.
    fn stale_get(&self, version: u64) -> (r: Vec<NodeKey>)
        ensures
            r@ == stale_lookup(self.stale@, version),
            r@ == self.db_view().stale[version],
    {
        let mut i: usize = 0;
        while i < self.stale.len()
            invariant
                i <= self.stale@.len(),
                forall|j: int| 0 <= j < i ==> (#[trigger] self.stale@[j]).0 != version,
            decreases self.stale@.len() - i,
        {
            if self.stale[i].0 == version {
                proof {
                    lemma_assoc_map_skip(self.stale@, version, i as int);
                    let t = self.stale@.skip(i as int);
                    assert(t[0] == self.stale@[i as int]);
                    assert(t.skip(1) =~= self.stale@.skip(i + 1));
                    assert(assoc_map(t) == assoc_map(t.skip(1)).insert(t[0].0, t[0].1));
                    assert(assoc_map(self.stale@).contains_key(version));
                    assert(assoc_map(self.stale@)[version] == self.stale@[i as int].1);
                }
                let entry = &self.stale[i].1;
                let mut out: Vec<NodeKey> = Vec::new();
                let mut k: usize = 0;
                while k < entry.len()
                    invariant
                        k <= entry@.len(),
                        out@ == entry@.take(k as int),
                    decreases entry@.len() - k,
                {
                    out.push(entry[k]);
                    proof {
                        assert(out@ =~= entry@.take(k + 1));
                    }
                    k = k + 1;
                }
                proof {
                    assert(out@ =~= entry@);
                }
                return out;
            }
            i = i + 1;
        }
        proof {
            lemma_assoc_map_skip(self.stale@, version, self.stale@.len() as int);
            assert(self.stale@.skip(self.stale@.len() as int) =~= Seq::<(u64, Vec<NodeKey>)>::empty());
        }
        Vec::new()
    }

    /// Applies one per-version patch body.
    fn apply_one_partial(&mut self, version: u64, p: &PartialPatchSet)
        ensures
            final(self).db_view() == apply_partial(old(self).db_view(), version, *p),
            final(self).manifest == old(self).manifest,
            final(self).stale == old(self).stale,
    {
        match &p.root {
            Some(r) => {
                let ghost pre = self.roots@;
                self.roots.insert(0, (version, *r));
                proof {
                    assert(self.roots@.skip(1) =~= pre);
                }
            },
            None => {},
        }
        let mut nn: Vec<(NodeKey, Node)> = Vec::new();
        let mut i: usize = 0;
        while i < p.nodes.len()
            invariant
                i <= p.nodes@.len(),
                nn@ == p.nodes@.take(i as int),
            decreases p.nodes@.len() - i,
        {
            nn.push(p.nodes[i]);
            proof {
                assert(nn@ =~= p.nodes@.take(i + 1));
            }
            i = i + 1;
        }
        let mut k: usize = 0;
        while k < self.nodes.len()
            invariant
                k <= self.nodes@.len(),
                nn@ == p.nodes@ + self.nodes@.take(k as int),
            decreases self.nodes@.len() - k,
        {
            nn.push(self.nodes[k]);
            proof {
                assert(nn@ =~= p.nodes@ + self.nodes@.take(k + 1));
            }
            k = k + 1;
        }
        proof {
            assert(nn@ =~= p.nodes@ + self.nodes@);
            lemma_assoc_map_concat(p.nodes@, self.nodes@);
        }
        self.nodes = nn;
        proof {
            assert(self.db_view() =~= apply_partial(old(self).db_view(), version, *p));
        }
    }

    /// Appends newly stale keys to a version's list.
    fn append_stale_exec(&mut self, version: u64, keys: &Vec<NodeKey>)
        ensures
            final(self).db_view() == append_stale(old(self).db_view(), version, keys@),
            final(self).manifest == old(self).manifest,
            final(self).roots == old(self).roots,
            final(self).nodes == old(self).nodes,
    {
        let mut merged = self.stale_get(version);
        let mut k: usize = 0;
        let ghost base = merged@;
        while k < keys.len()
            invariant
                k <= keys@.len(),
                merged@ == base + keys@.take(k as int),
            decreases keys@.len() - k,
        {
            merged.push(keys[k]);
            proof {
                assert(merged@ =~= base + keys@.take(k + 1));
            }
            k = k + 1;
        }
        proof {
            assert(merged@ =~= base + keys@);
        }
        let mut filtered: Vec<(u64, Vec<NodeKey>)> = Vec::new();
        let mut i: usize = self.stale.len();
        proof {
            assert(self.stale@.skip(i as int) =~= Seq::<(u64, Vec<NodeKey>)>::empty());
        }
        while i > 0
            invariant
                i <= self.stale@.len(),
                !assoc_map(filtered@).contains_key(version),
                forall|v: u64|
                    v != version ==> (#[trigger] assoc_map(filtered@).contains_key(v) == assoc_map(
                        self.stale@.skip(i as int),
                    ).contains_key(v) && (assoc_map(filtered@).contains_key(v) ==> assoc_map(
                        filtered@,
                    )[v]@ == assoc_map(self.stale@.skip(i as int))[v]@)),
            decreases i,
        {
            i = i - 1;
            let ghost t = self.stale@.skip(i as int);
            proof {
                assert(t[0] == self.stale@[i as int]);
                assert(t.skip(1) =~= self.stale@.skip(i + 1));
                assert(assoc_map(t) == assoc_map(t.skip(1)).insert(t[0].0, t[0].1));
            }
            let ver = self.stale[i].0;
            if ver != version {
                let ck = copy_keys(&self.stale[i].1);
                let ghost pre = filtered@;
                filtered.insert(0, (ver, ck));
                proof {
                    assert(filtered@.skip(1) =~= pre);
                    assert(assoc_map(filtered@) == assoc_map(pre).insert(ver, ck));
                    assert forall|v: u64|
                        v != version implies (#[trigger] assoc_map(filtered@).contains_key(v)
                        == assoc_map(t).contains_key(v) && (assoc_map(filtered@).contains_key(v)
                        ==> assoc_map(filtered@)[v]@ == assoc_map(t)[v]@)) by {
                        if v == ver {
                            assert(assoc_map(filtered@)[v] == ck);
                            assert(assoc_map(t)[v] == t[0].1);
                            assert(ck@ == t[0].1@);
                        }
                    }
                }
            } else {
                proof {
                    assert forall|v: u64|
                        v != version implies (#[trigger] assoc_map(filtered@).contains_key(v)
                        == assoc_map(t).contains_key(v) && (assoc_map(filtered@).contains_key(v)
                        ==> assoc_map(filtered@)[v]@ == assoc_map(t)[v]@)) by {}
                }
            }
        }
        let ghost pre2 = filtered@;
        filtered.insert(0, (version, merged));
        proof {
            assert(filtered@.skip(1) =~= pre2);
            assert(assoc_map(filtered@) == assoc_map(pre2).insert(version, merged));
            assert(self.stale@.skip(0) =~= self.stale@);
        }
        self.stale = filtered;
        proof {
            let oldv = old(self).db_view();
            let target = oldv.stale.insert(version, oldv.stale[version] + keys@);
            assert forall|v: u64| stale_lookup(self.stale@, v) == target[v] by {
                if v == version {
                    assert(assoc_map(self.stale@).contains_key(version));
                    assert(assoc_map(self.stale@)[version] == merged);
                    assert(merged@ == base + keys@);
                } else {
                    assert(assoc_map(self.stale@).contains_key(v) == assoc_map(
                        pre2,
                    ).contains_key(v));
                    assert(target[v] == oldv.stale[v]);
                    assert(oldv.stale[v] == stale_lookup(old(self).stale@, v));
                }
            }
            assert(self.db_view().stale =~= target);
            assert(self.db_view() =~= append_stale(oldv, version, keys@));
        }
    }
}

/// Looks up the first entry for a key in a list of node entries.
pub fn assoc_node_get(entries: &Vec<(NodeKey, Node)>, key: &NodeKey) -> (r: Option<Node>)
    ensures
        r == if assoc_map(entries@).contains_key(*key) {
            Some(assoc_map(entries@)[*key])
        } else {
            None::<Node>
        },
{
    let mut i: usize = 0;
    while i < entries.len()
        invariant
            i <= entries@.len(),
            forall|j: int| 0 <= j < i ==> (#[trigger] entries@[j]).0 != *key,
        decreases entries@.len() - i,
    {
        if entries[i].0 == *key {
            proof {
                lemma_assoc_map_skip(entries@, *key, i as int);
                let t = entries@.skip(i as int);
                assert(t[0] == entries@[i as int]);
                assert(t.skip(1) =~= entries@.skip(i + 1));
                assert(assoc_map(t) == assoc_map(t.skip(1)).insert(t[0].0, t[0].1));
                assert(assoc_map(entries@).contains_key(*key));
                assert(assoc_map(entries@)[*key] == entries@[i as int].1);
            }
            return Some(entries[i].1);
        }
        i = i + 1;
    }
    proof {
        lemma_assoc_map_skip(entries@, *key, entries@.len() as int);
        assert(entries@.skip(entries@.len() as int) =~= Seq::<(NodeKey, Node)>::empty());
    }
    None
}

/// Copies a list of node entries.
pub fn copy_node_entries(v: &Vec<(NodeKey, Node)>) -> (r: Vec<(NodeKey, Node)>)
    ensures
        r@ == v@,
{
    let mut r: Vec<(NodeKey, Node)> = Vec::new();
    let mut i: usize = 0;
    while i < v.len()
        invariant
            i <= v@.len(),
            r@ == v@.take(i as int),
        decreases v@.len() - i,
    {
        r.push(v[i]);
        proof {
            assert(r@ =~= v@.take(i + 1));
        }
        i = i + 1;
    }
    proof {
        assert(r@ =~= v@);
    }
    r
}

/// Copies a list of node keys.
pub fn copy_keys(v: &Vec<NodeKey>) -> (r: Vec<NodeKey>)
    ensures
        r@ == v@,
{
    let mut r: Vec<NodeKey> = Vec::new();
    let mut i: usize = 0;
    while i < v.len()
        invariant
            i <= v@.len(),
            r@ == v@.take(i as int),
        decreases v@.len() - i,
    {
        r.push(v[i]);
        proof {
            assert(r@ =~= v@.take(i + 1));
        }
        i = i + 1;
    }
    proof {
        assert(r@ =~= v@);
    }
    r
}

impl Database for MemoryDatabase {
    closed spec fn db_view(&self) -> DbView {
        DbView {
            manifest: self.manifest,
            roots: assoc_map(self.roots@),
            nodes: assoc_map(self.nodes@),
            stale: Map::new(|v: u64| true, |v: u64| stale_lookup(self.stale@, v)),
        }
    }

    closed spec fn may_fail(&self) -> bool {
        false
    }

    closed spec fn apply_patch_req(&self, patch: PatchSet) -> bool {
        true
    }

    proof fn lemma_stale_total(&self) {
    }

    fn try_manifest(&self) -> (r: Result<Option<Manifest>, DeserializeError>) {
        Ok(self.manifest)
    }

    fn try_root(&self, version: u64) -> (r: Result<Option<Root>, DeserializeError>) {
        Ok(self.root_get(version))
    }

    fn try_tree_node(&self, key: &NodeKey, is_leaf: bool) -> (r: Result<
        Option<Node>,
        DeserializeError,
    >) {
        Ok(self.node_get(key))
    }

    fn tree_nodes(&self, keys: &NodeKeys) -> (r: Vec<Option<Node>>) {
        let mut out: Vec<Option<Node>> = Vec::new();
        let mut i: usize = 0;
        while i < keys.len()
            invariant
                i <= keys@.len(),
                out@.len() == i,
                forall|j: int|
                    0 <= j < i ==> (#[trigger] out@[j]) == spec_node_lookup(
                        self.db_view(),
                        keys@[j].0,
                    ),
            decreases keys@.len() - i,
        {
            let n = self.node_get(&keys[i].0);
            out.push(n);
            i = i + 1;
        }
        out
    }

    fn apply_patch(&mut self, patch: PatchSet) {
        let ghost v0 = self.db_view();
        let pbv = patch.patches_by_version;
        let mut i: usize = 0;
        proof {
            assert(pbv@.take(0) =~= Seq::<(u64, PartialPatchSet)>::empty());
        }
        while i < pbv.len()
            invariant
                i <= pbv@.len(),
                self.db_view() == apply_patches_seq(v0, pbv@.take(i as int)),
            decreases pbv@.len() - i,
        {
            let version = pbv[i].0;
            self.apply_one_partial(version, &pbv[i].1);
            proof {
                assert(pbv@.take(i + 1).drop_last() =~= pbv@.take(i as int));
                assert(pbv@.take(i + 1).last() == pbv@[i as int]);
            }
            i = i + 1;
        }
        proof {
            assert(pbv@.take(pbv@.len() as int) =~= pbv@);
        }
        self.manifest = Some(patch.manifest);
        let ghost v2 = self.db_view();
        proof {
            assert(v2 =~= DbView { manifest: Some(patch.manifest), ..apply_patches_seq(v0, pbv@) });
        }
        let skv = patch.stale_keys_by_version;
        let mut k: usize = 0;
        proof {
            assert(skv@.take(0) =~= Seq::<(u64, Vec<NodeKey>)>::empty());
        }
        while k < skv.len()
            invariant
                k <= skv@.len(),
                self.db_view() == apply_stale_seq(v2, skv@.take(k as int)),
            decreases skv@.len() - k,
        {
            let version = skv[k].0;
            self.append_stale_exec(version, &skv[k].1);
            proof {
                assert(skv@.take(k + 1).drop_last() =~= skv@.take(k as int));
                assert(skv@.take(k + 1).last() == skv@[k as int]);
            }
            k = k + 1;
        }
        proof {
            assert(skv@.take(skv@.len() as int) =~= skv@);
        }
    }
}

impl PruneDatabase for MemoryDatabase {
    closed spec fn min_stale_spec(&self) -> Option<u64> {
        spec_min_stale(self.stale@)
    }

    closed spec fn prune_req(&self) -> bool {
        true
    }

    closed spec fn stale_seq(&self, version: u64) -> Seq<NodeKey> {
        stale_lookup(self.stale@, version)
    }

    fn min_stale_key_version(&self) -> (r: Option<u64>) {
        let mut best: Option<u64> = None;
        let mut i: usize = self.stale.len();
        proof {
            assert(self.stale@.skip(i as int) =~= Seq::<(u64, Vec<NodeKey>)>::empty());
        }
        while i > 0
            invariant
                i <= self.stale@.len(),
                best == spec_min_stale(self.stale@.skip(i as int)),
            decreases i,
        {
            i = i - 1;
            proof {
                assert(self.stale@.skip(i as int)[0] == self.stale@[i as int]);
                assert(self.stale@.skip(i as int).skip(1) =~= self.stale@.skip(i + 1));
            }
            if self.stale[i].1.len() > 0 {
                best = match best {
                    None => Some(self.stale[i].0),
                    Some(m) => Some(
                        if self.stale[i].0 < m {
                            self.stale[i].0
                        } else {
                            m
                        },
                    ),
                };
            }
        }
        proof {
            assert(self.stale@.skip(0) =~= self.stale@);
        }
        best
    }

    fn stale_keys(&self, version: u64) -> (r: Vec<NodeKey>) {
        self.stale_get(version)
    }

    fn prune(&mut self, patch: PrunePatchSet) {
        let ghost v0 = self.db_view();
        let ghost pruned = patch.pruned_node_keys@.to_set();
        let mut kept: Vec<(NodeKey, Node)> = Vec::new();
        let mut i: usize = self.nodes.len();
        proof {
            assert(self.nodes@.skip(i as int) =~= Seq::<(NodeKey, Node)>::empty());
            assert(assoc_map(kept@) =~= assoc_map(self.nodes@.skip(i as int)).remove_keys(pruned));
        }
        while i > 0
            invariant
                i <= self.nodes@.len(),
                pruned == patch.pruned_node_keys@.to_set(),
                assoc_map(kept@) == assoc_map(self.nodes@.skip(i as int)).remove_keys(pruned),
            decreases i,
        {
            i = i - 1;
            proof {
                assert(self.nodes@.skip(i as int)[0] == self.nodes@[i as int]);
                assert(self.nodes@.skip(i as int).skip(1) =~= self.nodes@.skip(i + 1));
            }
            let entry = self.nodes[i];
            if !key_in_list(&entry.0, &patch.pruned_node_keys) {
                let ghost pre = kept@;
                kept.insert(0, entry);
                proof {
                    assert(kept@.skip(1) =~= pre);
                    assert(assoc_map(kept@) =~= assoc_map(
                        self.nodes@.skip(i as int),
                    ).remove_keys(pruned));
                }
            } else {
                proof {
                    assert(assoc_map(kept@) =~= assoc_map(
                        self.nodes@.skip(i as int),
                    ).remove_keys(pruned));
                }
            }
        }
        proof {
            assert(self.nodes@.skip(0) =~= self.nodes@);
        }
        self.nodes = kept;
        let lo = patch.deleted_stale_versions_start;
        let hi = patch.deleted_stale_versions_end;
        let mut kept_stale: Vec<(u64, Vec<NodeKey>)> = Vec::new();
        let mut k: usize = self.stale.len();
        proof {
            assert(self.stale@.skip(k as int) =~= Seq::<(u64, Vec<NodeKey>)>::empty());
        }
        while k > 0
            invariant
                k <= self.stale@.len(),
                forall|v: u64|
                    !(lo <= v < hi) ==> (#[trigger] assoc_map(kept_stale@).contains_key(v)
                        == assoc_map(self.stale@.skip(k as int)).contains_key(v) && (assoc_map(
                        kept_stale@,
                    ).contains_key(v) ==> assoc_map(kept_stale@)[v]@ == assoc_map(
                        self.stale@.skip(k as int),
                    )[v]@)),
                forall|v: u64| lo <= v < hi ==> !(#[trigger] assoc_map(
                    kept_stale@,
                ).contains_key(v)),
            decreases k,
        {
            k = k - 1;
            let ghost t = self.stale@.skip(k as int);
            proof {
                assert(t[0] == self.stale@[k as int]);
                assert(t.skip(1) =~= self.stale@.skip(k + 1));
                assert(assoc_map(t) == assoc_map(t.skip(1)).insert(t[0].0, t[0].1));
            }
            let ver = self.stale[k].0;
            if !(lo <= ver && ver < hi) {
                let ck = copy_keys(&self.stale[k].1);
                let ghost pre = kept_stale@;
                kept_stale.insert(0, (ver, ck));
                proof {
                    assert(kept_stale@.skip(1) =~= pre);
                    assert(assoc_map(kept_stale@) == assoc_map(pre).insert(ver, ck));
                    assert forall|v: u64|
                        !(lo <= v < hi) implies (#[trigger] assoc_map(
                        kept_stale@,
                    ).contains_key(v) == assoc_map(t).contains_key(v) && (assoc_map(
                        kept_stale@,
                    ).contains_key(v) ==> assoc_map(kept_stale@)[v]@ == assoc_map(t)[v]@)) by {
                        if v == ver {
                            assert(assoc_map(kept_stale@)[v] == ck);
                            assert(assoc_map(t)[v] == t[0].1);
                            assert(ck@ == t[0].1@);
                        }
                    }
                }
            } else {
                proof {
                    assert forall|v: u64|
                        !(lo <= v < hi) implies (#[trigger] assoc_map(
                        kept_stale@,
                    ).contains_key(v) == assoc_map(t).contains_key(v) && (assoc_map(
                        kept_stale@,
                    ).contains_key(v) ==> assoc_map(kept_stale@)[v]@ == assoc_map(t)[v]@)) by {
                        if assoc_map(t).contains_key(v) {
                            assert(v != ver);
                        }
                    }
                }
            }
        }
        proof {
            assert(self.stale@.skip(0) =~= self.stale@);
        }
        let ghost old_stale = self.stale@;
        self.stale = kept_stale;
        proof {
            assert forall|v: u64|
                stale_lookup(self.stale@, v) == prune_spec(v0, patch).stale[v] by {
                if lo <= v < hi {
                    assert(!assoc_map(self.stale@).contains_key(v));
                } else {
                    assert(assoc_map(self.stale@).contains_key(v) == assoc_map(
                        old_stale,
                    ).contains_key(v));
                    assert(prune_spec(v0, patch).stale[v] == stale_lookup(old_stale, v));
                }
            }
            assert(self.db_view().stale =~= prune_spec(v0, patch).stale);
            assert(self.db_view() =~= prune_spec(v0, patch));
        }
    }
}

/// Whether a key occurs in a list of keys.
fn key_in_list(key: &NodeKey, list: &Vec<NodeKey>) -> (b: bool)
    ensures
        b == list@.to_set().contains(*key),
{
    let mut i: usize = 0;
    while i < list.len()
        invariant
            i <= list@.len(),
            forall|j: int| 0 <= j < i ==> (#[trigger] list@[j]) != *key,
        decreases list@.len() - i,
    {
        if list[i] == *key {
            proof {
                assert(list@.contains(*key));
            }
            return true;
        }
        i = i + 1;
    }
    proof {
        assert(!list@.contains(*key));
    }
    false
}

} // verus!
