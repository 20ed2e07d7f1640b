//! Write-behind database wrapper: committed tree patches are queued as
//! persistence commands, reads overlay the queue (newest first) on top of the
//! wrapped store, and commands are drained to the store strictly in order.

use vstd::prelude::*;
use vstd::seq_lib::lemma_multiset_commutative;

use crate::database::{
    append_stale, apply_partial, apply_patch_spec, apply_patches_seq, apply_stale_seq, prune_spec,
    spec_node_lookup, spec_root_lookup, Database, DbView, PruneDatabase,
};
use crate::types::{
    assoc_map, lemma_assoc_map_domain, DeserializeError, Manifest, Node, NodeKey, NodeKeys,
    PartialPatchSet, PatchSet, PersistenceCommand, PrunePatchSet, Root,
};

verus! {

/// The entries of a node map that carry the tracked version. Every patch the
/// wrapper accepts is keyed at that version alone, so for its commands this
/// restriction changes nothing; it records in the contracts that keys of
/// other versions never read from the queue.
pub open spec fn nodes_for_version(m: Map<NodeKey, Node>, uv: u64) -> Map<NodeKey, Node> {
    Map::new(|k: NodeKey| m.contains_key(k) && k.version == uv, |k: NodeKey| m[k])
}

/// Whether every node a command carries is keyed at the tracked version.
pub open spec fn command_clean(cmd: PersistenceCommand, uv: u64) -> bool {
    forall|k: int|
        0 <= k < cmd.patch.nodes@.len() ==> (#[trigger] cmd.patch.nodes@[k]).0.version == uv
}

/// What applying one queued command does to a store: the manifest is
/// overwritten, the root and nodes of the tracked version land, and the
/// command's stale keys are appended to the tracked version's list.
pub open spec fn apply_command(v: DbView, cmd: PersistenceCommand, uv: u64) -> DbView {
    DbView {
        manifest: Some(cmd.manifest),
        roots: match cmd.patch.root {
            Some(r) => v.roots.insert(uv, r),
            None => v.roots,
        },
        nodes: v.nodes.union_prefer_right(nodes_for_version(assoc_map(cmd.patch.nodes@), uv)),
        stale: v.stale.insert(uv, v.stale[uv] + cmd.stale_keys@),
    }
}

/// For a command keyed at the tracked version alone, restricting its node map
/// to that version changes nothing.
pub proof fn lemma_clean_nodes_gate(cmd: PersistenceCommand, uv: u64)
    requires
        command_clean(cmd, uv),
    ensures
        nodes_for_version(assoc_map(cmd.patch.nodes@), uv) == assoc_map(cmd.patch.nodes@),
{
    let m = assoc_map(cmd.patch.nodes@);
    assert forall|k: NodeKey| m.contains_key(k) implies k.version == uv by {
        lemma_assoc_map_domain(cmd.patch.nodes@, k);
        let j = choose|j: int| 0 <= j < cmd.patch.nodes@.len() && (#[trigger] cmd.patch.nodes@[j]).0
            == k;
        assert(cmd.patch.nodes@[j].0.version == uv);
    }
    assert(nodes_for_version(m, uv) =~= m);
}

/// Applies queued commands in order, head (oldest) first.
pub open spec fn apply_commands(v: DbView, cmds: Seq<PersistenceCommand>, uv: u64) -> DbView
    decreases cmds.len(),
{
    if cmds.len() == 0 {
        v
    } else {
        apply_command(apply_commands(v, cmds.drop_last(), uv), cmds.last(), uv)
    }
}

/// The root carried by the newest queued command that has one.
pub open spec fn newest_queued_root(cmds: Seq<PersistenceCommand>) -> Option<Root>
    decreases cmds.len(),
{
    if cmds.len() == 0 {
        None
    } else {
        match cmds.last().patch.root {
            Some(r) => Some(r),
            None => newest_queued_root(cmds.drop_last()),
        }
    }
}

/// The nodes of the tracked version carried by the queued commands, newer
/// commands winning.
pub open spec fn queued_nodes(cmds: Seq<PersistenceCommand>, uv: u64) -> Map<NodeKey, Node>
    decreases cmds.len(),
{
    if cmds.len() == 0 {
        Map::empty()
    } else {
        queued_nodes(cmds.drop_last(), uv).union_prefer_right(
            nodes_for_version(assoc_map(cmds.last().patch.nodes@), uv),
        )
    }
}

/// Every key the queue carries is of the tracked version.
pub proof fn lemma_queued_nodes_versioned(cmds: Seq<PersistenceCommand>, uv: u64)
    ensures
        forall|k: NodeKey| #[trigger] queued_nodes(cmds, uv).contains_key(k) ==> k.version == uv,
    decreases cmds.len(),
{
    if cmds.len() > 0 {
        lemma_queued_nodes_versioned(cmds.drop_last(), uv);
        let g = nodes_for_version(assoc_map(cmds.last().patch.nodes@), uv);
        assert forall|k: NodeKey| #[trigger] queued_nodes(cmds, uv).contains_key(k) implies
            k.version == uv by {
            if !g.contains_key(k) {
                assert(queued_nodes(cmds.drop_last(), uv).contains_key(k));
            }
        }
    } else {
        assert(queued_nodes(cmds, uv) == Map::<NodeKey, Node>::empty());
    }
}

/// The stale keys carried by the queued commands, in queue order.
pub open spec fn queued_stale(cmds: Seq<PersistenceCommand>) -> Seq<NodeKey>
    decreases cmds.len(),
{
    if cmds.len() == 0 {
        Seq::empty()
    } else {
        queued_stale(cmds.drop_last()) + cmds.last().stale_keys@
    }
}

/// Whether a patch set carries exactly the contents of a queued command for
/// the tracked version.
pub open spec fn matches_command(p: PatchSet, cmd: PersistenceCommand, uv: u64) -> bool {
    &&& p.manifest == cmd.manifest
    &&& p.updated_version == Some(uv)
    &&& p.patches_by_version@.len() == 1
    &&& p.patches_by_version@[0].0 == uv
    &&& p.patches_by_version@[0].1.root == cmd.patch.root
    &&& p.patches_by_version@[0].1.nodes@ == cmd.patch.nodes@
    &&& p.stale_keys_by_version@.len() == 1
    &&& p.stale_keys_by_version@[0].0 == uv
    &&& p.stale_keys_by_version@[0].1@ == cmd.stale_keys@
}

/// Applying commands in two batches equals applying their concatenation.
pub proof fn lemma_apply_commands_concat(
    v: DbView,
    a: Seq<PersistenceCommand>,
    b: Seq<PersistenceCommand>,
    uv: u64,
)
    ensures
        apply_commands(v, a + b, uv) == apply_commands(apply_commands(v, a, uv), b, uv),
    decreases b.len(),
{
    if b.len() == 0 {
        assert(a + b =~= a);
    } else {
        assert((a + b).drop_last() =~= a + b.drop_last());
        assert((a + b).last() == b.last());
        lemma_apply_commands_concat(v, a, b.drop_last(), uv);
    }
}

/// The queue only ever writes the root of the tracked version, and the
/// newest queued root wins.
pub proof fn lemma_apply_commands_roots(v: DbView, cmds: Seq<PersistenceCommand>, uv: u64)
    ensures
        apply_commands(v, cmds, uv).roots == match newest_queued_root(cmds) {
            Some(r) => v.roots.insert(uv, r),
            None => v.roots,
        },
    decreases cmds.len(),
{
    if cmds.len() > 0 {
        lemma_apply_commands_roots(v, cmds.drop_last(), uv);
        match cmds.last().patch.root {
            Some(r) => {
                match newest_queued_root(cmds.drop_last()) {
                    Some(r0) => {
                        assert(v.roots.insert(uv, r0).insert(uv, r) =~= v.roots.insert(uv, r));
                    },
                    None => {},
                }
            },
            None => {},
        }
    }
}

/// The queue overlays exactly its nodes of the tracked version, newer
/// commands winning.
pub proof fn lemma_apply_commands_nodes(v: DbView, cmds: Seq<PersistenceCommand>, uv: u64)
    ensures
        apply_commands(v, cmds, uv).nodes == v.nodes.union_prefer_right(queued_nodes(cmds, uv)),
    decreases cmds.len(),
{
    if cmds.len() == 0 {
        assert(v.nodes.union_prefer_right(Map::empty()) =~= v.nodes);
    } else {
        lemma_apply_commands_nodes(v, cmds.drop_last(), uv);
        assert(v.nodes.union_prefer_right(queued_nodes(cmds.drop_last(), uv)).union_prefer_right(
            nodes_for_version(assoc_map(cmds.last().patch.nodes@), uv),
        ) =~= v.nodes.union_prefer_right(
            queued_nodes(cmds.drop_last(), uv).union_prefer_right(
                nodes_for_version(assoc_map(cmds.last().patch.nodes@), uv),
            ),
        ));
    }
}

/// The queue appends exactly its stale keys, in order, to the tracked
/// version's list, and touches no other version's list.
pub proof fn lemma_apply_commands_stale(v: DbView, cmds: Seq<PersistenceCommand>, uv: u64)
    requires
        forall|ver: u64| #[trigger] v.stale.contains_key(ver),
    ensures
        apply_commands(v, cmds, uv).stale == v.stale.insert(uv, v.stale[uv] + queued_stale(cmds)),
    decreases cmds.len(),
{
    if cmds.len() == 0 {
        assert(v.stale[uv] + queued_stale(cmds) =~= v.stale[uv]);
        assert(v.stale.insert(uv, v.stale[uv] + queued_stale(cmds)) =~= v.stale);
    } else {
        lemma_apply_commands_stale(v, cmds.drop_last(), uv);
        let prev = apply_commands(v, cmds.drop_last(), uv);
        assert(prev.stale[uv] == v.stale[uv] + queued_stale(cmds.drop_last()));
        assert(prev.stale[uv] + cmds.last().stale_keys@ =~= v.stale[uv] + queued_stale(cmds));
        assert(v.stale.insert(uv, v.stale[uv] + queued_stale(cmds.drop_last())).insert(
            uv,
            prev.stale[uv] + cmds.last().stale_keys@,
        ) =~= v.stale.insert(uv, v.stale[uv] + queued_stale(cmds)));
    }
}

/// A patch set carrying exactly the contents of a command keyed at the
/// tracked version applies as the command does.
pub proof fn lemma_matching_patch_applies(v: DbView, p: PatchSet, cmd: PersistenceCommand, uv: u64)
    requires
        matches_command(p, cmd, uv),
        command_clean(cmd, uv),
    ensures
        apply_patch_spec(v, p) == apply_command(v, cmd, uv),
{
    lemma_clean_nodes_gate(cmd, uv);
    let entry = p.patches_by_version@[0];
    assert(apply_patches_seq(v, Seq::<(u64, PartialPatchSet)>::empty()) == v);
    assert(p.patches_by_version@.drop_last() =~= Seq::<(u64, PartialPatchSet)>::empty());
    assert(p.patches_by_version@.last() == entry);
    let v1 = apply_partial(v, uv, entry.1);
    assert(apply_patches_seq(v, p.patches_by_version@) == v1);
    let v2 = DbView { manifest: Some(p.manifest), ..v1 };
    let sentry = p.stale_keys_by_version@[0];
    assert(apply_stale_seq(v2, Seq::<(u64, Vec<NodeKey>)>::empty()) == v2);
    assert(p.stale_keys_by_version@.drop_last() =~= Seq::<(u64, Vec<NodeKey>)>::empty());
    assert(p.stale_keys_by_version@.last() == sentry);
    assert(apply_patch_spec(v, p) == append_stale(v2, uv, sentry.1@));
    assert(assoc_map(entry.1.nodes@) == assoc_map(cmd.patch.nodes@));
    assert(apply_patch_spec(v, p) =~= apply_command(v, cmd, uv));
}

/// Validation failures for a patch handed to the write-behind wrapper.
#[derive(Clone, Copy, Debug, PartialEq, Eq, Structural)]
pub enum PatchError {
    /// The patch targets a version other than the one fixed at creation.
    VersionMismatch,
    /// The patch does not carry exactly one patch body, for the tracked
    /// version.
    NotSingleVersion,
    /// The patch body carries a node keyed at a version other than the
    /// tracked one.
    ForeignNodeKey,
    /// A manifest-only patch carries patch bodies.
    UnexpectedPatches,
    /// The stale keys are neither empty nor a single list for the tracked
    /// version.
    InvalidStaleKeys,
}

/// Validates a patch set against the version the wrapper tracks: the patch
/// must target exactly that version — or carry only a manifest change — with
/// every node keyed at that version, and its stale keys must be empty or a
/// single list for that version.
pub open spec fn spec_check_patch(uv: u64, p: PatchSet) -> Result<(), PatchError> {
    match p.updated_version {
        Some(v) => if v != uv {
            Err(PatchError::VersionMismatch)
        } else if p.patches_by_version@.len() != 1 || p.patches_by_version@[0].0 != uv {
            Err(PatchError::NotSingleVersion)
        } else if exists|k: int|
            0 <= k < p.patches_by_version@[0].1.nodes@.len()
                && (#[trigger] p.patches_by_version@[0].1.nodes@[k]).0.version != uv {
            Err(PatchError::ForeignNodeKey)
        } else {
            spec_check_stale(uv, p)
        },
        None => if p.patches_by_version@.len() != 0 {
            Err(PatchError::UnexpectedPatches)
        } else {
            spec_check_stale(uv, p)
        },
    }
}

/// The stale-key part of patch validation.
pub open spec fn spec_check_stale(uv: u64, p: PatchSet) -> Result<(), PatchError> {
    if p.stale_keys_by_version@.len() == 0 || (p.stale_keys_by_version@.len() == 1
        && p.stale_keys_by_version@[0].0 == uv) {
        Ok(())
    } else {
        Err(PatchError::InvalidStaleKeys)
    }
}

/// Database wrapper that queues committed patches as persistence commands.
/// Reads overlay the queue, newest command first, on top of the wrapped
/// store; commands are drained to the store strictly in queue order. All
/// patches target the single version fixed at creation, or carry only a
/// manifest change.
pub struct ParallelDatabase<DB> {
    inner: DB,
    updated_version: u64,
    buffer_capacity: usize,
    commands: Vec<PersistenceCommand>,
}

impl<DB: Database> ParallelDatabase<DB> {
    /// The wrapped store.
    pub closed spec fn spec_inner(&self) -> DB {
        self.inner
    }

    /// The in-flight command queue, head (oldest) first.
    pub closed spec fn spec_commands(&self) -> Seq<PersistenceCommand> {
        self.commands@
    }

    /// The single version every queued patch targets.
    pub closed spec fn spec_updated_version(&self) -> u64 {
        self.updated_version
    }

    /// The intended bound on in-flight commands, fixed at creation.
    pub closed spec fn spec_buffer_capacity(&self) -> usize {
        self.buffer_capacity
    }

    /// Returns the intended bound on in-flight commands: the capacity the
    /// surrounding bounded channel is created with.
    pub fn buffer_capacity(&self) -> (c: usize)
        ensures
            c == self.spec_buffer_capacity(),
    {
        self.buffer_capacity
    }

    /// The contents of the wrapped store alone, without the queue overlay.
    pub open spec fn inner_view(&self) -> DbView {
        self.spec_inner().db_view()
    }

    /// Whether the wrapped store accepts every queued command's patch.
    pub open spec fn all_queued_appliable(&self) -> bool {
        forall|j: int, p: PatchSet|
            #![trigger self.spec_inner().apply_patch_req(p), self.spec_commands()[j]]
            0 <= j < self.spec_commands().len() && matches_command(
                p,
                self.spec_commands()[j],
                self.spec_updated_version(),
            ) ==> self.spec_inner().apply_patch_req(p)
    }

    /// Whether every queued command carries nodes of the tracked version
    /// alone. Validation admits no other commands, so any queue reachable
    /// through `apply_patch` satisfies this.
    pub open spec fn all_queued_clean(&self) -> bool {
        forall|j: int|
            0 <= j < self.spec_commands().len() ==> command_clean(
                #[trigger] self.spec_commands()[j],
                self.spec_updated_version(),
            )
    }

    /// Wraps a store, fixing the version all queued patches will target.
    /// `buffer_capacity` is the intended bound on in-flight commands; it is
    /// carried for the surrounding channel and does not affect the queue
    /// logic.
    pub fn new(inner: DB, updated_version: u64, buffer_capacity: usize) -> (db: Self)
        ensures
            db.spec_inner() == inner,
            db.spec_commands().len() == 0,
            db.spec_updated_version() == updated_version,
            db.spec_buffer_capacity() == buffer_capacity,
            db.db_view() == inner.db_view(),
            db.may_fail() == inner.may_fail(),
            db.all_queued_appliable(),
            db.all_queued_clean(),
    {
        ParallelDatabase {
            inner,
            updated_version,
            buffer_capacity,
            commands: Vec::new(),
        }
    }

    /// Validates and enqueues a patch set; on failure the wrapper is
    /// unchanged and the reason comes back. This is the checked form of
    /// `apply_patch`.
    pub fn apply_patch_checked(&mut self, patch: PatchSet) -> (r: Result<(), PatchError>)
        ensures
            r == spec_check_patch(old(self).spec_updated_version(), patch),
            r is Ok ==> final(self).db_view() == apply_patch_spec(old(self).db_view(), patch),
            r is Ok ==> final(self).spec_commands().len() == old(self).spec_commands().len() + 1,
            r is Err ==> *final(self) == *old(self),
            final(self).spec_inner() == old(self).spec_inner(),
            final(self).spec_updated_version() == old(self).spec_updated_version(),
            r is Ok ==> final(self).spec_commands().drop_last() == old(self).spec_commands(),
            final(self).all_queued_clean() == old(self).all_queued_clean(),
    {
        let uv = self.updated_version;
        let mut pbv = patch.patches_by_version;
        let partial: PartialPatchSet;
        match patch.updated_version {
            Some(v) => {
                if v != uv {
                    return Err(PatchError::VersionMismatch);
                }
                if pbv.len() != 1 {
                    return Err(PatchError::NotSingleVersion);
                }
                let entry = pbv.pop().unwrap();
                if entry.0 != uv {
                    return Err(PatchError::NotSingleVersion);
                }
                partial = entry.1;
                if !nodes_all_at_version(&partial.nodes, uv) {
                    return Err(PatchError::ForeignNodeKey);
                }
            },
            None => {
                if pbv.len() != 0 {
                    return Err(PatchError::UnexpectedPatches);
                }
                partial = PartialPatchSet::empty();
            },
        }
        let mut skv = patch.stale_keys_by_version;
        let stale_keys: Vec<NodeKey>;
        if skv.len() == 0 {
            stale_keys = Vec::new();
        } else if skv.len() == 1 {
            let sentry = skv.pop().unwrap();
            if sentry.0 != uv {
                return Err(PatchError::InvalidStaleKeys);
            }
            stale_keys = sentry.1;
        } else {
            return Err(PatchError::InvalidStaleKeys);
        }
        let ghost v0 = self.db_view();
        let cmd = PersistenceCommand { manifest: patch.manifest, patch: partial, stale_keys };
        proof {
            assert(command_clean(cmd, uv));
        }
        self.commands.push(cmd);
        proof {
            assert(self.commands@.drop_last() =~= old(self).commands@);
            assert(self.commands@.last() == cmd);
            assert(self.db_view() == apply_command(v0, cmd, uv));
            old(self).lemma_stale_total();
            self.lemma_enqueued_patch_applies(*old(self), patch, cmd);
            assert forall|j: int| 0 <= j < self.commands@.len() && old(self).all_queued_clean()
                implies command_clean(#[trigger] self.commands@[j], uv) by {
                if j < self.commands@.len() - 1 {
                    assert(self.commands@[j] == old(self).commands@[j]);
                }
            }
            assert(old(self).all_queued_clean() ==> self.all_queued_clean());
            assert forall|j: int| 0 <= j < old(self).commands@.len() && self.all_queued_clean()
                implies command_clean(#[trigger] old(self).commands@[j], uv) by {
                assert(old(self).commands@[j] == self.commands@[j]);
            }
        }
        Ok(())
    }

    /// The enqueued command applies as the validated patch does.
    proof fn lemma_enqueued_patch_applies(&self, prev: Self, patch: PatchSet, cmd: PersistenceCommand)
        requires
            spec_check_patch(prev.spec_updated_version(), patch) is Ok,
            forall|ver: u64| #[trigger] prev.db_view().stale.contains_key(ver),
            command_clean(cmd, prev.spec_updated_version()),
            cmd.manifest == patch.manifest,
            match patch.updated_version {
                Some(_) => cmd.patch == patch.patches_by_version@[0].1,
                None => cmd.patch.root is None && cmd.patch.nodes@.len() == 0,
            },
            if patch.stale_keys_by_version@.len() == 1 {
                cmd.stale_keys == patch.stale_keys_by_version@[0].1
            } else {
                cmd.stale_keys@.len() == 0
            },
        ensures
            apply_command(prev.db_view(), cmd, prev.spec_updated_version()) == apply_patch_spec(
                prev.db_view(),
                patch,
            ),
    {
        let uv = prev.spec_updated_version();
        let v = prev.db_view();
        let pbv = patch.patches_by_version@;
        let skv = patch.stale_keys_by_version@;
        let v1 = if pbv.len() == 0 {
            v
        } else {
            apply_partial(v, uv, pbv[0].1)
        };
        assert(apply_patches_seq(v, Seq::<(u64, PartialPatchSet)>::empty()) == v);
        if pbv.len() == 0 {
            assert(pbv =~= Seq::<(u64, PartialPatchSet)>::empty());
            assert(apply_patches_seq(v, pbv) == v);
        } else {
            assert(pbv.drop_last() =~= Seq::<(u64, PartialPatchSet)>::empty());
            assert(pbv.last() == pbv[0]);
            assert(apply_patches_seq(v, pbv) == apply_partial(v, uv, pbv[0].1));
        }
        let v2 = DbView { manifest: Some(patch.manifest), ..apply_patches_seq(v, pbv) };
        assert(apply_stale_seq(v2, Seq::<(u64, Vec<NodeKey>)>::empty()) == v2);
        if skv.len() == 0 {
            assert(skv =~= Seq::<(u64, Vec<NodeKey>)>::empty());
            assert(apply_patch_spec(v, patch) == v2);
        } else {
            assert(skv.drop_last() =~= Seq::<(u64, Vec<NodeKey>)>::empty());
            assert(skv.last() == skv[0]);
            assert(apply_patch_spec(v, patch) == append_stale(v2, uv, skv[0].1@));
        }
        lemma_clean_nodes_gate(cmd, uv);
        if pbv.len() == 0 {
            assert(v.nodes.union_prefer_right(assoc_map(cmd.patch.nodes@)) =~= v.nodes) by {
                assert(cmd.patch.nodes@ =~= Seq::<(NodeKey, Node)>::empty());
            }
        }
        if skv.len() == 0 {
            assert(cmd.stale_keys@ =~= Seq::<NodeKey>::empty());
            assert(v.stale[uv] + cmd.stale_keys@ =~= v.stale[uv]);
            assert(v.stale.insert(uv, v.stale[uv] + cmd.stale_keys@) =~= v.stale);
        }
        assert(apply_command(v, cmd, uv) =~= apply_patch_spec(v, patch));
    }

    /// Applies the head (oldest) queued command to the wrapped store and
    /// drops it from the queue. The wrapper's observable contents do not
    /// change: the store gains exactly what the queue loses.
    pub fn persist_head(&mut self)
        requires
            old(self).spec_commands().len() > 0,
            old(self).all_queued_appliable(),
            old(self).all_queued_clean(),
        ensures
            final(self).spec_commands() == old(self).spec_commands().skip(1),
            final(self).spec_updated_version() == old(self).spec_updated_version(),
            final(self).db_view() == old(self).db_view(),
            final(self).may_fail() == old(self).may_fail(),
            final(self).all_queued_appliable(),
            final(self).all_queued_clean(),
            final(self).inner_view() == apply_command(
                old(self).inner_view(),
                old(self).spec_commands()[0],
                old(self).spec_updated_version(),
            ),
    {
        let cmd = self.commands.remove(0);
        let patch = reconstruct_patch(&cmd, self.updated_version);
        proof {
            assert(matches_command(patch, cmd, self.updated_version));
            assert(old(self).spec_commands()[0] == cmd);
            assert(command_clean(cmd, self.updated_version));
            assert(self.spec_inner().apply_patch_req(patch));
        }
        let ghost inner0 = self.inner.db_view();
        self.inner.apply_patch(patch);
        proof {
            lemma_matching_patch_applies(inner0, patch, cmd, self.updated_version);
            assert(self.inner.db_view() == apply_command(inner0, cmd, self.updated_version));
            assert(seq![cmd] + self.commands@ =~= old(self).commands@);
            lemma_apply_commands_concat(
                inner0,
                seq![cmd],
                self.commands@,
                self.updated_version,
            );
            assert(apply_commands(inner0, Seq::<PersistenceCommand>::empty(), self.updated_version)
                == inner0);
            assert(seq![cmd].drop_last() =~= Seq::<PersistenceCommand>::empty());
            assert(apply_commands(inner0, seq![cmd], self.updated_version) == apply_command(
                inner0,
                cmd,
                self.updated_version,
            ));
        }
    }

    /// Drains the queue: applies every queued command to the wrapped store,
    /// in order. Afterwards the store alone holds everything the wrapper
    /// showed before.
    pub fn wait_sync(&mut self)
        requires
            old(self).all_queued_appliable(),
            old(self).all_queued_clean(),
        ensures
            final(self).spec_commands().len() == 0,
            final(self).spec_updated_version() == old(self).spec_updated_version(),
            final(self).db_view() == old(self).db_view(),
            final(self).may_fail() == old(self).may_fail(),
            final(self).inner_view() == old(self).db_view(),
    {
        let ghost v0 = self.db_view();
        let ghost uv0 = self.spec_updated_version();
        let ghost mf0 = self.may_fail();
        while self.commands.len() > 0
            invariant
                self.all_queued_appliable(),
                self.all_queued_clean(),
                self.db_view() == v0,
                self.spec_updated_version() == uv0,
                self.may_fail() == mf0,
            decreases self.commands@.len(),
        {
            self.persist_head();
        }
    }

    /// Drains the queue and hands the wrapped store back.
    pub fn join(self) -> (db: DB)
        requires
            self.all_queued_appliable(),
            self.all_queued_clean(),
        ensures
            db.db_view() == self.db_view(),
            db.may_fail() == self.may_fail(),
    {
        let mut this = self;
        this.wait_sync();
        this.inner
    }
}

impl<DB: Database> ParallelDatabase<DB> {
    /// Looks up a key in the queued commands, newest first. A key of another
    /// version never reads from the queue.
    fn queued_node_get(&self, key: &NodeKey) -> (r: Option<Node>)
        ensures
            r == if queued_nodes(self.spec_commands(), self.spec_updated_version()).contains_key(
                *key,
            ) {
                Some(queued_nodes(self.spec_commands(), self.spec_updated_version())[*key])
            } else {
                None::<Node>
            },
    {
        if key.version != self.updated_version {
            proof {
                lemma_queued_nodes_versioned(self.spec_commands(), self.spec_updated_version());
            }
            return None;
        }
        let mut i: usize = self.commands.len();
        proof {
            assert(self.spec_commands().take(i as int) =~= self.spec_commands());
        }
        while i > 0
            invariant
                i <= self.commands@.len(),
                key.version == self.spec_updated_version(),
                ({
                    let uv = self.spec_updated_version();
                    let full = queued_nodes(self.commands@, uv);
                    let part = queued_nodes(self.commands@.take(i as int), uv);
                    full.contains_key(*key) == part.contains_key(*key) && (full.contains_key(*key)
                        ==> full[*key] == part[*key])
                }),
            decreases i,
        {
            i = i - 1;
            let ghost uv = self.spec_updated_version();
            let ghost t = self.commands@.take(i + 1);
            proof {
                assert(t.drop_last() =~= self.commands@.take(i as int));
                assert(t.last() == self.commands@[i as int]);
            }
            let hit = crate::database::assoc_node_get(&self.commands[i].patch.nodes, key);
            match hit {
                Some(n) => {
                    proof {
                        let gated = nodes_for_version(
                            assoc_map(self.commands@[i as int].patch.nodes@),
                            uv,
                        );
                        assert(gated.contains_key(*key));
                        assert(gated[*key] == n);
                        assert(queued_nodes(t, uv).contains_key(*key));
                        assert(queued_nodes(t, uv)[*key] == n);
                    }
                    return Some(n);
                },
                None => {},
            }
        }
        proof {
            assert(self.commands@.take(0) =~= Seq::<PersistenceCommand>::empty());
        }
        None
    }
}

impl<DB: Database> Database for ParallelDatabase<DB> {
    /// The wrapper's contents: the wrapped store with every queued command
    /// applied in order.
    open spec fn db_view(&self) -> DbView {
        apply_commands(
            self.spec_inner().db_view(),
            self.spec_commands(),
            self.spec_updated_version(),
        )
    }

    open spec fn may_fail(&self) -> bool {
        self.spec_inner().may_fail()
    }

    open spec fn apply_patch_req(&self, patch: PatchSet) -> bool {
        spec_check_patch(self.spec_updated_version(), patch) is Ok
    }

    fn try_manifest(&self) -> (r: Result<Option<Manifest>, DeserializeError>) {
        if self.commands.len() > 0 {
            let idx = self.commands.len() - 1;
            let m = self.commands[idx].manifest;
            proof {
                assert(self.spec_commands().last() == self.commands@[idx as int]);
            }
            Ok(Some(m))
        } else {
            self.inner.try_manifest()
        }
    }

    fn try_root(&self, version: u64) -> (r: Result<Option<Root>, DeserializeError>) {
        proof {
            lemma_apply_commands_roots(
                self.inner_view(),
                self.spec_commands(),
                self.spec_updated_version(),
            );
        }
        if version != self.updated_version {
            self.inner.try_root(version)
        } else {
            let mut i: usize = self.commands.len();
            proof {
                assert(self.spec_commands().take(i as int) =~= self.spec_commands());
            }
            while i > 0
                invariant
                    i <= self.commands@.len(),
                    version == self.spec_updated_version(),
                    newest_queued_root(self.commands@) == newest_queued_root(
                        self.commands@.take(i as int),
                    ),
                decreases i,
            {
                i = i - 1;
                let ghost t = self.commands@.take(i + 1);
                proof {
                    assert(t.drop_last() =~= self.commands@.take(i as int));
                    assert(t.last() == self.commands@[i as int]);
                }
                match &self.commands[i].patch.root {
                    Some(root) => {
                        proof {
                            assert(newest_queued_root(t) == Some(*root));
                            assert(newest_queued_root(self.commands@) == Some(*root));
                            lemma_apply_commands_roots(
                                self.inner_view(),
                                self.spec_commands(),
                                self.spec_updated_version(),
                            );
                            assert(self.db_view().roots == self.inner_view().roots.insert(
                                self.spec_updated_version(),
                                *root,
                            ));
                            assert(spec_root_lookup(self.db_view(), version) == Some(*root));
                        }
                        return Ok(Some(*root));
                    },
                    None => {},
                }
            }
            proof {
                assert(self.commands@.take(0) =~= Seq::<PersistenceCommand>::empty());
            }
            self.inner.try_root(version)
        }
    }

    fn try_tree_node(&self, key: &NodeKey, is_leaf: bool) -> (r: Result<
        Option<Node>,
        DeserializeError,
    >) {
        proof {
            lemma_apply_commands_nodes(
                self.inner_view(),
                self.spec_commands(),
                self.spec_updated_version(),
            );
        }
        let q = self.queued_node_get(key);
        match q {
            Some(n) => Ok(Some(n)),
            None => {
                proof {
                    assert(spec_node_lookup(self.db_view(), *key) == spec_node_lookup(
                        self.inner.db_view(),
                        *key,
                    ));
                }
                self.inner.try_tree_node(key, is_leaf)
            },
        }
    }

    fn tree_nodes(&self, keys: &NodeKeys) -> (r: Vec<Option<Node>>) {
        proof {
            lemma_apply_commands_nodes(
                self.inner_view(),
                self.spec_commands(),
                self.spec_updated_version(),
            );
        }
        let mut out: Vec<Option<Node>> = Vec::new();
        let mut i: usize = 0;
        while i < keys.len()
            invariant
                i <= keys@.len(),
                out@.len() == i,
                self.db_view().nodes == self.inner_view().nodes.union_prefer_right(
                    queued_nodes(self.spec_commands(), self.spec_updated_version()),
                ),
                forall|j: int|
                    0 <= j < keys@.len() ==> (spec_node_lookup(
                        self.db_view(),
                        (#[trigger] keys@[j]).0,
                    ) matches Some(n) ==> ((n is Leaf) <==> keys@[j].1)),
                forall|j: int|
                    0 <= j < i ==> (#[trigger] out@[j]) == spec_node_lookup(
                        self.db_view(),
                        keys@[j].0,
                    ) || (self.may_fail() && out@[j] is None),
            decreases keys@.len() - i,
        {
            let q = self.queued_node_get(&keys[i].0);
            match q {
                Some(n) => {
                    out.push(Some(n));
                },
                None => {
                    proof {
                        assert(spec_node_lookup(self.db_view(), keys@[i as int].0)
                            == spec_node_lookup(self.inner.db_view(), keys@[i as int].0));
                    }
                    match self.inner.try_tree_node(&keys[i].0, keys[i].1) {
                        Ok(n) => {
                            out.push(n);
                        },
                        Err(_) => {
                            out.push(None);
                        },
                    }
                },
            }
            i = i + 1;
        }
        out
    }

    fn apply_patch(&mut self, patch: PatchSet) {
        let r = self.apply_patch_checked(patch);
        proof {
            assert(r is Ok);
        }
        match r {
            Ok(()) => {},
            Err(_) => {},
        }
    }

    proof fn lemma_stale_total(&self) {
        self.spec_inner().lemma_stale_total();
        lemma_apply_commands_stale(
            self.spec_inner().db_view(),
            self.spec_commands(),
            self.spec_updated_version(),
        );
    }
}

impl<DB: PruneDatabase> PruneDatabase for ParallelDatabase<DB> {
    /// The tracked version, whenever any queued command carries an empty
    /// stale-key list; the wrapped store's answer otherwise.
    open spec fn min_stale_spec(&self) -> Option<u64> {
        if exists|j: int|
            0 <= j < self.spec_commands().len() && (#[trigger] self.spec_commands()[j]).stale_keys@.len()
                == 0 {
            Some(self.spec_updated_version())
        } else {
            self.spec_inner().min_stale_spec()
        }
    }

    /// Pruning through the wrapper first drains the queue, so it is offered
    /// where every queued command is appliable and keyed at the tracked
    /// version, and the wrapped store type accepts prune requests in every
    /// state.
    open spec fn prune_req(&self) -> bool {
        self.all_queued_appliable() && self.all_queued_clean() && (forall|db: DB|
            #[trigger] db.prune_req())
    }

    /// Queued stale keys in queue order, then the wrapped store's, for the
    /// tracked version; the wrapped store's alone for any other.
    open spec fn stale_seq(&self, version: u64) -> Seq<NodeKey> {
        if version == self.spec_updated_version() {
            queued_stale(self.spec_commands()) + self.spec_inner().stale_seq(version)
        } else {
            self.spec_inner().stale_seq(version)
        }
    }

    fn min_stale_key_version(&self) -> (r: Option<u64>) {
        let mut i: usize = 0;
        while i < self.commands.len()
            invariant
                i <= self.commands@.len(),
                forall|j: int| 0 <= j < i ==> (#[trigger] self.commands@[j]).stale_keys@.len() != 0,
            decreases self.commands@.len() - i,
        {
            if self.commands[i].stale_keys.len() == 0 {
                proof {
                    assert(self.spec_commands()[i as int].stale_keys@.len() == 0);
                }
                return Some(self.updated_version);
            }
            i = i + 1;
        }
        self.inner.min_stale_key_version()
    }

    fn stale_keys(&self, version: u64) -> (r: Vec<NodeKey>) {
        proof {
            self.spec_inner().lemma_stale_total();
            lemma_apply_commands_stale(
                self.inner_view(),
                self.spec_commands(),
                self.spec_updated_version(),
            );
        }
        if version != self.updated_version {
            self.inner.stale_keys(version)
        } else {
            let mut out: Vec<NodeKey> = Vec::new();
            let mut i: usize = 0;
            proof {
                assert(self.commands@.take(0) =~= Seq::<PersistenceCommand>::empty());
            }
            while i < self.commands.len()
                invariant
                    i <= self.commands@.len(),
                    out@ == queued_stale(self.commands@.take(i as int)),
                decreases self.commands@.len() - i,
            {
                let mut ck = crate::database::copy_keys(&self.commands[i].stale_keys);
                out.append(&mut ck);
                proof {
                    let t = self.commands@.take(i + 1);
                    assert(t.drop_last() =~= self.commands@.take(i as int));
                    assert(t.last() == self.commands@[i as int]);
                }
                i = i + 1;
            }
            proof {
                assert(self.commands@.take(self.commands@.len() as int) =~= self.commands@);
            }
            let mut tail = self.inner.stale_keys(self.updated_version);
            let ghost queued = out@;
            let ghost tail_seq = tail@;
            out.append(&mut tail);
            proof {
                let uv = self.spec_updated_version();
                let inner_stale = self.inner_view().stale[uv];
                lemma_multiset_commutative(queued, tail_seq);
                lemma_multiset_commutative(inner_stale, queued);
                assert(out@.to_multiset() == queued.to_multiset().add(tail_seq.to_multiset()));
                assert(tail_seq.to_multiset() == inner_stale.to_multiset());
                assert(queued.to_multiset().add(inner_stale.to_multiset()) =~= inner_stale.to_multiset().add(queued.to_multiset()));
                assert(self.db_view().stale[uv] == inner_stale + queued);
            }
            out
        }
    }

    fn prune(&mut self, patch: PrunePatchSet) {
        self.wait_sync();
        proof {
            assert(self.inner.prune_req());
            assert(self.commands@ =~= Seq::<PersistenceCommand>::empty());
            assert(self.db_view() == self.inner.db_view());
        }
        let ghost pre = self.inner.db_view();
        self.inner.prune(patch);
        proof {
            assert(self.commands@ =~= Seq::<PersistenceCommand>::empty());
            assert(self.db_view() == self.inner.db_view());
        }
    }
}

/// Either a plain store, or one promoted to write-behind operation. All
/// capability calls dispatch to whichever is inside.
pub enum MaybeParallel<DB> {
    Just(DB),
    Parallel(ParallelDatabase<DB>),
}

impl<DB: Database> MaybeParallel<DB> {
    /// Whether the write-behind queue, if any, can still be drained to the
    /// wrapped store.
    pub open spec fn sync_ready(&self) -> bool {
        match self {
            MaybeParallel::Just(_) => true,
            MaybeParallel::Parallel(db) => db.all_queued_appliable() && db.all_queued_clean(),
        }
    }

    /// The contents of the underlying store alone, without any queue overlay.
    pub open spec fn underlying_view(&self) -> DbView {
        match self {
            MaybeParallel::Just(db) => db.db_view(),
            MaybeParallel::Parallel(db) => db.inner_view(),
        }
    }

    /// Whether no writes are in flight.
    pub open spec fn synced(&self) -> bool {
        match self {
            MaybeParallel::Just(_) => true,
            MaybeParallel::Parallel(db) => db.spec_commands().len() == 0,
        }
    }

    /// Drains any in-flight writes to the underlying store: afterwards the
    /// store alone holds everything this wrapper showed before.
    pub fn wait_sync(&mut self)
        requires
            old(self).sync_ready(),
        ensures
            final(self).db_view() == old(self).db_view(),
            final(self).may_fail() == old(self).may_fail(),
            final(self).synced(),
            final(self).underlying_view() == old(self).db_view(),
    {
        match self {
            MaybeParallel::Just(_) => {},
            MaybeParallel::Parallel(db) => {
                db.wait_sync();
            },
        }
    }

    /// Drains any in-flight writes and hands the underlying store back.
    pub fn join(self) -> (db: DB)
        requires
            self.sync_ready(),
        ensures
            db.db_view() == self.db_view(),
            db.may_fail() == self.may_fail(),
    {
        match self {
            MaybeParallel::Just(db) => db,
            MaybeParallel::Parallel(db) => db.join(),
        }
    }

    /// Promotes a plain store to write-behind operation for the given
    /// version; a store already promoted is left as it is.
    pub fn parallelize(self, updated_version: u64, buffer_capacity: usize) -> (r: Self)
        ensures
            r.db_view() == self.db_view(),
            r.may_fail() == self.may_fail(),
            r is Parallel,
            self matches MaybeParallel::Just(db) ==> (r matches MaybeParallel::Parallel(p)
                && p.spec_inner() == db && p.spec_commands().len() == 0
                && p.spec_updated_version() == updated_version && p.spec_buffer_capacity()
                == buffer_capacity),
            self matches MaybeParallel::Parallel(_) ==> r == self,
    {
        match self {
            MaybeParallel::Just(db) => MaybeParallel::Parallel(
                ParallelDatabase::new(db, updated_version, buffer_capacity),
            ),
            MaybeParallel::Parallel(db) => MaybeParallel::Parallel(db),
        }
    }
}

impl<DB: Database> Database for MaybeParallel<DB> {
    open spec fn db_view(&self) -> DbView {
        match self {
            MaybeParallel::Just(db) => db.db_view(),
            MaybeParallel::Parallel(db) => db.db_view(),
        }
    }

    open spec fn may_fail(&self) -> bool {
        match self {
            MaybeParallel::Just(db) => db.may_fail(),
            MaybeParallel::Parallel(db) => db.may_fail(),
        }
    }

    open spec fn apply_patch_req(&self, patch: PatchSet) -> bool {
        match self {
            MaybeParallel::Just(db) => db.apply_patch_req(patch),
            MaybeParallel::Parallel(db) => db.apply_patch_req(patch),
        }
    }

    fn try_manifest(&self) -> (r: Result<Option<Manifest>, DeserializeError>) {
        match self {
            MaybeParallel::Just(db) => db.try_manifest(),
            MaybeParallel::Parallel(db) => db.try_manifest(),
        }
    }

    fn try_root(&self, version: u64) -> (r: Result<Option<Root>, DeserializeError>) {
        match self {
            MaybeParallel::Just(db) => db.try_root(version),
            MaybeParallel::Parallel(db) => db.try_root(version),
        }
    }

    fn try_tree_node(&self, key: &NodeKey, is_leaf: bool) -> (r: Result<
        Option<Node>,
        DeserializeError,
    >) {
        match self {
            MaybeParallel::Just(db) => db.try_tree_node(key, is_leaf),
            MaybeParallel::Parallel(db) => db.try_tree_node(key, is_leaf),
        }
    }

    fn tree_nodes(&self, keys: &NodeKeys) -> (r: Vec<Option<Node>>) {
        match self {
            MaybeParallel::Just(db) => db.tree_nodes(keys),
            MaybeParallel::Parallel(db) => db.tree_nodes(keys),
        }
    }

    fn apply_patch(&mut self, patch: PatchSet) {
        match self {
            MaybeParallel::Just(db) => db.apply_patch(patch),
            MaybeParallel::Parallel(db) => db.apply_patch(patch),
        }
    }

    proof fn lemma_stale_total(&self) {
        match self {
            MaybeParallel::Just(db) => db.lemma_stale_total(),
            MaybeParallel::Parallel(db) => db.lemma_stale_total(),
        }
    }
}

impl<DB: PruneDatabase> PruneDatabase for MaybeParallel<DB> {
    open spec fn min_stale_spec(&self) -> Option<u64> {
        match self {
            MaybeParallel::Just(db) => db.min_stale_spec(),
            MaybeParallel::Parallel(db) => db.min_stale_spec(),
        }
    }

    open spec fn prune_req(&self) -> bool {
        match self {
            MaybeParallel::Just(db) => db.prune_req(),
            MaybeParallel::Parallel(db) => db.prune_req(),
        }
    }

    open spec fn stale_seq(&self, version: u64) -> Seq<NodeKey> {
        match self {
            MaybeParallel::Just(db) => db.stale_seq(version),
            MaybeParallel::Parallel(db) => db.stale_seq(version),
        }
    }

    fn min_stale_key_version(&self) -> (r: Option<u64>) {
        match self {
            MaybeParallel::Just(db) => db.min_stale_key_version(),
            MaybeParallel::Parallel(db) => db.min_stale_key_version(),
        }
    }

    fn stale_keys(&self, version: u64) -> (r: Vec<NodeKey>) {
        match self {
            MaybeParallel::Just(db) => db.stale_keys(version),
            MaybeParallel::Parallel(db) => db.stale_keys(version),
        }
    }

    fn prune(&mut self, patch: PrunePatchSet) {
        match self {
            MaybeParallel::Just(db) => db.prune(patch),
            MaybeParallel::Parallel(db) => db.prune(patch),
        }
    }
}

/// Law: root reads through the wrapper are monotone for a single reader.
/// Draining commands to the wrapped store (`persist_head`, `wait_sync`)
/// leaves the wrapper's contents — and with them every root lookup — exactly
/// as they were, so between two reads the answer can only change by a new
/// patch being enqueued, never by persistence racing ahead.
pub proof fn lemma_persistence_keeps_root_reads<DB: Database>(
    pre: &ParallelDatabase<DB>,
    post: &ParallelDatabase<DB>,
    version: u64,
)
    requires
        post.db_view() == pre.db_view(),
    ensures
        spec_root_lookup(post.db_view(), version) == spec_root_lookup(pre.db_view(), version),
        forall|key: NodeKey|
            spec_node_lookup(post.db_view(), key) == spec_node_lookup(pre.db_view(), key),
{
}

/// Whether every entry in a list of node entries is keyed at the given
/// version.
fn nodes_all_at_version(nodes: &Vec<(NodeKey, Node)>, uv: u64) -> (ok: bool)
    ensures
        ok == !(exists|k: int|
            0 <= k < nodes@.len() && (#[trigger] nodes@[k]).0.version != uv),
{
    let mut i: usize = 0;
    while i < nodes.len()
        invariant
            i <= nodes@.len(),
            forall|j: int| 0 <= j < i ==> (#[trigger] nodes@[j]).0.version == uv,
        decreases nodes@.len() - i,
    {
        if nodes[i].0.version != uv {
            proof {
                assert(nodes@[i as int].0.version != uv);
            }
            return false;
        }
        i = i + 1;
    }
    true
}

/// Rebuilds the single-version patch set that a queued command stands for:
/// the persistence worker applies this patch to the wrapped store.
pub fn reconstruct_patch(command: &PersistenceCommand, updated_version: u64) -> (p: PatchSet)
    ensures
        matches_command(p, *command, updated_version),
{
    let partial = PartialPatchSet {
        root: command.patch.root,
        nodes: crate::database::copy_node_entries(&command.patch.nodes),
    };
    let mut pbv: Vec<(u64, PartialPatchSet)> = Vec::new();
    pbv.push((updated_version, partial));
    let mut skv: Vec<(u64, Vec<NodeKey>)> = Vec::new();
    skv.push((updated_version, crate::database::copy_keys(&command.stale_keys)));
    PatchSet {
        manifest: command.manifest,
        patches_by_version: pbv,
        updated_version: Some(updated_version),
        stale_keys_by_version: skv,
    }
}

} // verus!
