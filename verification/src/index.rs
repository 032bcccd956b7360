//! The sync index of a folder: its Merkle tree, a clock for every file, and what was deleted.

use vstd::prelude::*;

use crate::config::StorageConfig;
use crate::conflict;
use crate::conflict::{PeerId, Tombstone, TombstoneModel, VectorClock};
use crate::merkle;
use crate::merkle::{Node, Tree, remove_path, update_file_with_chunk_size};
use crate::names;
use crate::names::NameMap;
use crate::path;
use crate::path::Component;
use crate::reconcile;
use crate::scan;
use crate::scan::{DiskEntry, ScanError, from_path_configured};
use crate::text;
use crate::tree_laws;
use crate::util::now_secs;

verus! {

broadcast use {
    crate::names::lemma_value_smaller,
    vstd::string::group_string_axioms,
    vstd::seq::group_seq_axioms,
};

/// Per-file metadata tracked alongside the Merkle tree.
#[derive(Debug, PartialEq, Eq)]
pub struct FileMeta {
    pub clock: VectorClock,
    pub last_modified: u64,
    pub last_modified_by: PeerId,
}

/// What stands in the metadata of a file.
#[verifier::ext_equal]
pub ghost struct MetaModel {
    pub clock: Map<PeerId, u64>,
    pub last_modified: u64,
    pub last_modified_by: PeerId,
}

impl View for FileMeta {
    type V = MetaModel;

    open spec fn view(&self) -> MetaModel {
        MetaModel {
            clock: self.clock@,
            last_modified: self.last_modified,
            last_modified_by: self.last_modified_by,
        }
    }
}

impl Clone for FileMeta {
    fn clone(&self) -> (r: Self)
        ensures
            r@ == self@,
    {
        FileMeta {
            clock: self.clock.clone(),
            last_modified: self.last_modified,
            last_modified_by: self.last_modified_by,
        }
    }
}

/// What stands in the metadata of every file.
pub open spec fn metas_model(s: Seq<(Seq<char>, FileMeta)>) -> Seq<(Seq<char>, MetaModel)> {
    names::with_values(s, |m: FileMeta| m@)
}

/// What stands in a list of tombstones.
pub open spec fn tombstone_models(v: Seq<Tombstone>) -> Seq<TombstoneModel> {
    v.map_values(|t: Tombstone| t@)
}

/// The full sync index: Merkle tree + per-file clocks + tombstones. The metadata of a file is kept
/// under its path in the shortest form.
#[derive(Debug, PartialEq, Eq)]
pub struct SyncIndex {
    pub tree: Node,
    pub file_meta: NameMap<FileMeta>,
    pub tombstones: Vec<Tombstone>,
    pub local_peer: PeerId,
    pub root_path: String,
    pub exclude_patterns: Vec<String>,
    pub chunk_size: usize,
    pub tombstone_ttl_secs: u64,
}

/// What stands in an index.
#[verifier::ext_equal]
pub ghost struct IndexModel {
    pub tree: Tree,
    pub file_meta: Seq<(Seq<char>, MetaModel)>,
    pub tombstones: Seq<TombstoneModel>,
    pub local_peer: PeerId,
    pub root_path: Seq<char>,
    pub exclude_patterns: Seq<Seq<char>>,
    pub chunk_size: nat,
    pub tombstone_ttl_secs: u64,
}

impl View for SyncIndex {
    type V = IndexModel;

    open spec fn view(&self) -> IndexModel {
        IndexModel {
            tree: self.tree.model(),
            file_meta: metas_model(self.file_meta@),
            tombstones: tombstone_models(self.tombstones@),
            local_peer: self.local_peer,
            root_path: self.root_path@,
            exclude_patterns: text::texts(self.exclude_patterns@),
            chunk_size: self.chunk_size as nat,
            tombstone_ttl_secs: self.tombstone_ttl_secs,
        }
    }
}

/// The metadata of the file at a path.
pub open spec fn meta_at(ix: IndexModel, rel: Seq<char>) -> Option<MetaModel> {
    names::lookup(ix.file_meta, path::clean_text(rel))
}

/// The clock of the file at a path: one that has counted nothing where no file is known.
pub open spec fn clock_at(ix: IndexModel, rel: Seq<char>) -> Map<PeerId, u64> {
    match meta_at(ix, rel) {
        Some(m) => m.clock,
        None => Map::empty(),
    }
}

/// Whether a path leads below another one: it has the names of the other, and more.
pub open spec fn lies_below(k: Seq<char>, rel: Seq<char>) -> bool {
    &&& path::path_names(rel).len() > 0
    &&& path::path_names(k).len() > path::path_names(rel).len()
    &&& tree_laws::begins_with(path::path_names(k), path::path_names(rel))
}

/// The entries whose paths do not lead below the given one.
pub open spec fn outside<V>(s: Seq<(Seq<char>, V)>, rel: Seq<char>) -> Seq<(Seq<char>, V)>
    decreases s.len(),
{
    if s.len() == 0 {
        Seq::empty()
    } else if lies_below(s.last().0, rel) {
        outside(s.drop_last(), rel)
    } else {
        outside(s.drop_last(), rel).push(s.last())
    }
}

/// The index once the local peer has written `data` to the file at a path. A directory that stood there is
/// gone, with all that was known below it.
pub open spec fn after_change(ix: IndexModel, rel: Seq<char>, data: Seq<u8>, now: u64) -> IndexModel {
    IndexModel {
        tree: merkle::tree_insert(ix.tree, path::path_names(rel), merkle::file_tree(data, ix.chunk_size)),
        file_meta: names::put(
            outside(ix.file_meta, rel),
            path::clean_text(rel),
            MetaModel {
                clock: conflict::ticked(clock_at(ix, rel), ix.local_peer),
                last_modified: now,
                last_modified_by: ix.local_peer,
            },
        ),
        ..ix
    }
}

/// The tombstone that the local peer leaves for the file at a path.
pub open spec fn tombstone_for(ix: IndexModel, rel: Seq<char>, now: u64) -> TombstoneModel {
    TombstoneModel { path: rel, deleted_by: ix.local_peer, clock: clock_at(ix, rel), timestamp: now }
}

/// The index once the local peer has deleted what stood at a path, with all that stood below it.
pub open spec fn after_delete(ix: IndexModel, rel: Seq<char>, now: u64) -> IndexModel {
    IndexModel {
        tree: merkle::tree_remove(ix.tree, path::path_names(rel)),
        file_meta: names::without(outside(ix.file_meta, rel), path::clean_text(rel)),
        tombstones: ix.tombstones.push(tombstone_for(ix, rel, now)),
        ..ix
    }
}

/// The tombstones that have not expired.
pub open spec fn unexpired(ts: Seq<TombstoneModel>, now: u64, ttl_secs: u64) -> Seq<TombstoneModel> {
    ts.filter(|t: TombstoneModel| !conflict::outlived(now, t.timestamp, ttl_secs))
}

/// The index once expired tombstones are purged.
pub open spec fn after_gc(ix: IndexModel, now: u64) -> IndexModel {
    IndexModel { tombstones: unexpired(ix.tombstones, now, ix.tombstone_ttl_secs), ..ix }
}

/// Whether a pattern occurs in one of the names.
pub open spec fn matches_name(names: Seq<Seq<char>>, pattern: Seq<char>) -> bool {
    exists|j: int| 0 <= j < names.len() && text::occurs(pattern, #[trigger] names[j])
}

/// Whether some pattern occurs in some name among the components.
pub open spec fn matches_pattern(parts: Seq<path::Part>, patterns: Seq<Seq<char>>) -> bool {
    exists|i: int| 0 <= i < patterns.len() && matches_name(path::names_in(parts), #[trigger] patterns[i])
}

/// Whether a path is excluded: some component below the root contains some of the patterns.
pub open spec fn excluded(path: Seq<char>, root: Seq<char>, patterns: Seq<Seq<char>>) -> bool {
    matches_pattern(path::relative_parts(path, root), patterns)
}

/// Whether `k` is the path, in its shortest form, of a file in a tree that stands at `prefix`.
pub open spec fn is_file_key(t: Tree, prefix: Seq<char>, k: Seq<char>) -> bool
    decreases t,
{
    match t {
        Tree::File { .. } => k == path::clean_text(prefix),
        Tree::Directory { children, .. } => exists|i: int|
            0 <= i < children.len() && is_file_key(
                (#[trigger] children[i]).1,
                path::join_text(prefix, children[i].0),
                k,
            ),
    }
}

/// Whether metadata is that of a file that was just found.
pub open spec fn is_new_meta(m: FileMeta, local_peer: PeerId) -> bool {
    m.clock@ == Map::<PeerId, u64>::empty() && m.last_modified_by == local_peer
}

/// The bytes of all files of a tree together.
pub open spec fn total_bytes(t: Tree) -> nat
    decreases t, 0nat,
{
    match t {
        Tree::File { size, .. } => size as nat,
        Tree::Directory { children, .. } => children_bytes(children, children.len()),
    }
}

/// The bytes of all files under the first `n` children.
pub open spec fn children_bytes(children: Seq<(Seq<char>, Tree)>, n: nat) -> nat
    decreases children, n,
{
    if n == 0 || n > children.len() {
        0
    } else {
        children_bytes(children, (n - 1) as nat) + total_bytes(children[n - 1].1)
    }
}

impl SyncIndex {
    /// The tree is well-formed, the metadata is in the order of the paths, and chunks are not empty.
    pub open spec fn wf(self) -> bool {
        &&& self.tree.wf()
        &&& names::in_order(self.file_meta@)
        &&& self.chunk_size > 0
    }

    /// Build a new index from what stands on disk under the root, with the given config. The file
    /// times are those of the scan; nothing is known of them.
    pub fn build(
        found: &DiskEntry,
        root: &str,
        local_peer: PeerId,
        exclude_patterns: Vec<String>,
        storage_config: &StorageConfig,
    ) -> (r: Result<Self, ScanError>)
        requires
            found.wf(),
            storage_config.chunk_size > 0,
        ensures
            match r {
                Err(e) => scan::tree_at(
                    *found,
                    root@,
                    |p: Seq<char>| excluded(p, root@, text::texts(exclude_patterns@)),
                    storage_config.chunk_size as nat,
                ) == Err::<Tree, ScanError>(e),
                Ok(ix) => {
                    &&& ix.wf()
                    &&& scan::tree_at(
                        *found,
                        root@,
                        |p: Seq<char>| excluded(p, root@, text::texts(exclude_patterns@)),
                        storage_config.chunk_size as nat,
                    ) == Ok::<Tree, ScanError>(ix@.tree)
                    &&& forall|k: Seq<char>| #[trigger]
                        names::has_name(ix.file_meta@, k) <==> is_file_key(ix@.tree, Seq::empty(), k)
                    &&& forall|i: int|
                        0 <= i < ix.file_meta@.len() ==> is_new_meta((#[trigger] ix.file_meta@[i]).1, local_peer)
                    &&& ix@.tombstones == Seq::<TombstoneModel>::empty()
                    &&& ix.local_peer == local_peer
                    &&& ix.root_path@ == root@
                    &&& ix.exclude_patterns == exclude_patterns
                    &&& ix.chunk_size == storage_config.chunk_size
                    &&& ix.tombstone_ttl_secs == storage_config.tombstone_ttl_secs
                },
            },
    {
        let ghost skip = |p: Seq<char>| excluded(p, root@, text::texts(exclude_patterns@));
        let patterns = &exclude_patterns;
        let exclude = |p: &str| -> (b: bool)
            ensures
                b == excluded(p@, root@, text::texts(patterns@)),
            { should_exclude(p, root, patterns) };
        assert(scan::decides(exclude, skip));
        let tree = match from_path_configured(found, root, &exclude, storage_config.chunk_size) {
            Ok(tree) => tree,
            Err(e) => {
                return Err(e);
            },
        };
        let mut file_meta: NameMap<FileMeta> = NameMap::new();
        let prefix = String::new();
        collect_file_meta(&tree, prefix.as_str(), local_peer, &mut file_meta);
        proof {
            let empty = Seq::<char>::empty();
            assert(prefix@ == empty);
            assert forall|k: Seq<char>| #[trigger] names::has_name(file_meta@, k) <==> is_file_key(
                tree.model(),
                empty,
                k,
            ) by {
                assert(collected(Seq::empty(), file_meta@, tree.model(), empty, local_peer, k));
            }
            assert forall|i: int| 0 <= i < file_meta@.len() implies is_new_meta(
                (#[trigger] file_meta@[i]).1,
                local_peer,
            ) by {
                let k = file_meta@[i].0;
                names::lemma_lookup_at(file_meta@, i);
                assert(collected(Seq::empty(), file_meta@, tree.model(), empty, local_peer, k));
            }
        }
        let tombstones: Vec<Tombstone> = Vec::new();
        assert(tombstone_models(tombstones@) =~= Seq::<TombstoneModel>::empty());
        Ok(
            SyncIndex {
                tree,
                file_meta,
                tombstones,
                local_peer,
                root_path: root.to_owned(),
                exclude_patterns,
                chunk_size: storage_config.chunk_size,
                tombstone_ttl_secs: storage_config.tombstone_ttl_secs,
            },
        )
    }

    /// The metadata of the file at a path.
    pub fn meta(&self, rel_path: &str) -> (r: Option<&FileMeta>)
        requires
            self.wf(),
        ensures
            match r {
                Some(m) => meta_at(self@, rel_path@) == Some(m@),
                None => meta_at(self@, rel_path@) is None,
            },
    {
        let key = path::clean(rel_path);
        proof {
            names::lemma_with_values(self.file_meta@, |m: FileMeta| m@, key@, arbitrary());
        }
        self.file_meta.get(key.as_str())
    }

    /// The clock of the file at a path.
    pub fn clock(&self, rel_path: &str) -> (r: VectorClock)
        requires
            self.wf(),
        ensures
            r@ == clock_at(self@, rel_path@),
    {
        match self.meta(rel_path) {
            Some(m) => m.clock.clone(),
            None => VectorClock::new(),
        }
    }

    /// Drops the metadata of every file below a path.
    fn forget_below(&mut self, rel_path: &str)
        requires
            old(self).wf(),
        ensures
            final(self).wf(),
            final(self)@ == (IndexModel { file_meta: outside(old(self)@.file_meta, rel_path@), ..old(self)@ }),
    {
        let start = path::names(rel_path);
        let ghost all = self@.file_meta;
        let mut kept: NameMap<FileMeta> = NameMap::new();
        let mut i: usize = 0;
        assert(metas_model(kept@) =~= outside(all.take(0), rel_path@));
        while i < self.file_meta.len()
            invariant
                0 <= i <= self.file_meta@.len(),
                all == metas_model(self.file_meta@),
                text::texts(start@) == path::path_names(rel_path@),
                names::in_order(self.file_meta@),
                names::in_order(kept@),
                metas_model(kept@) == outside(all.take(i as int), rel_path@),
                forall|j: int| 0 <= j < kept@.len() ==> exists|k: int|
                    0 <= k < i && #[trigger] kept@[j].0 == (#[trigger] self.file_meta@[k]).0,
            decreases self.file_meta@.len() - i,
        {
            let name = self.file_meta.name_at(i);
            let ghost upto = all.take(i + 1);
            assert(upto.drop_last() =~= all.take(i as int));
            assert(upto.last() == (self.file_meta@[i as int].0, self.file_meta@[i as int].1@));
            let ns = path::names(name.as_str());
            let below = start.len() > 0 && names_go_on(&ns, &start);
            assert(below == lies_below(name@, rel_path@));
            if !below {
                let ghost before = metas_model(kept@);
                let meta = self.file_meta.value_at(i).clone();
                assert forall|j: int| 0 <= j < kept@.len() implies text::lex_lt(#[trigger] kept@[j].0, name@) by {
                    let k = choose|k: int| 0 <= k < i && kept@[j].0 == (#[trigger] self.file_meta@[k]).0;
                    assert(text::lex_lt(self.file_meta@[k].0, self.file_meta@[i as int].0));
                }
                let ghost old_kept = kept@;
                kept.append(name.clone(), meta);
                assert(metas_model(kept@) =~= before.push((name@, self.file_meta@[i as int].1@)));
                assert forall|j: int| 0 <= j < kept@.len() implies exists|k: int|
                    0 <= k < i + 1 && #[trigger] kept@[j].0 == (#[trigger] self.file_meta@[k]).0 by {
                    if j < old_kept.len() {
                        assert(kept@[j] == old_kept[j]);
                        let k = choose|k: int| 0 <= k < i && old_kept[j].0 == (#[trigger] self.file_meta@[k]).0;
                        assert(kept@[j].0 == self.file_meta@[k].0);
                    } else {
                        assert(kept@[j].0 == self.file_meta@[i as int].0);
                    }
                }
            }
            i = i + 1;
        }
        assert(all.take(all.len() as int) =~= all);
        self.file_meta = kept;
    }

    /// Sets the metadata of the file at a path, and drops that of every file below it.
    pub(crate) fn set_meta(&mut self, rel_path: &str, meta: FileMeta)
        requires
            old(self).wf(),
        ensures
            final(self).wf(),
            final(self)@ == (IndexModel {
                file_meta: names::put(outside(old(self)@.file_meta, rel_path@), path::clean_text(rel_path@), meta@),
                ..old(self)@
            }),
    {
        self.forget_below(rel_path);
        let key = path::clean(rel_path);
        proof {
            names::lemma_with_values(self.file_meta@, |m: FileMeta| m@, key@, meta);
        }
        self.file_meta.insert(key, meta);
    }

    /// Drops the metadata of the file at a path, and of every file below it.
    pub(crate) fn drop_meta(&mut self, rel_path: &str)
        requires
            old(self).wf(),
        ensures
            final(self).wf(),
            final(self)@ == (IndexModel {
                file_meta: names::without(outside(old(self)@.file_meta, rel_path@), path::clean_text(rel_path@)),
                ..old(self)@
            }),
    {
        self.forget_below(rel_path);
        let key = path::clean(rel_path);
        proof {
            names::lemma_with_values(self.file_meta@, |m: FileMeta| m@, key@, arbitrary());
        }
        self.file_meta.remove(key.as_str());
    }

    /// Update the index after a local file change; `data` is what the file holds now.
    pub fn local_file_changed(&mut self, rel_path: &str, data: &[u8])
        requires
            old(self).wf(),
            conflict::count(clock_at(old(self)@, rel_path@), old(self).local_peer) < u64::MAX,
        ensures
            final(self).wf(),
            exists|now: u64| final(self)@ == #[trigger] after_change(old(self)@, rel_path@, data@, now),
    {
        let now: u64 = now_secs();
        self.local_file_changed_at(rel_path, data, now);
    }

    /// Update the index after a local file change at the time `now`.
    pub fn local_file_changed_at(&mut self, rel_path: &str, data: &[u8], now: u64)
        requires
            old(self).wf(),
            conflict::count(clock_at(old(self)@, rel_path@), old(self).local_peer) < u64::MAX,
        ensures
            final(self).wf(),
            final(self)@ == after_change(old(self)@, rel_path@, data@, now),
    {
        let mut clock = self.clock(rel_path);
        clock.tick(self.local_peer);
        update_file_with_chunk_size(&mut self.tree, rel_path, data, self.chunk_size);
        let meta = FileMeta { clock, last_modified: now, last_modified_by: self.local_peer };
        self.set_meta(rel_path, meta);
        assert(self@ =~= after_change(old(self)@, rel_path@, data@, now));
    }

    /// Mark a file as deleted locally.
    pub fn local_file_deleted(&mut self, rel_path: &str)
        requires
            old(self).wf(),
        ensures
            final(self).wf(),
            exists|now: u64| final(self)@ == #[trigger] after_delete(old(self)@, rel_path@, now),
    {
        let now: u64 = now_secs();
        self.local_file_deleted_at(rel_path, now);
    }

    /// Mark a file as deleted locally at the time `now`.
    pub fn local_file_deleted_at(&mut self, rel_path: &str, now: u64)
        requires
            old(self).wf(),
        ensures
            final(self).wf(),
            final(self)@ == after_delete(old(self)@, rel_path@, now),
    {
        let clock = self.clock(rel_path);
        remove_path(&mut self.tree, rel_path);
        self.drop_meta(rel_path);
        let tombstone = Tombstone {
            path: rel_path.to_owned(),
            deleted_by: self.local_peer,
            clock,
            timestamp: now,
        };
        self.add_tombstone(tombstone);
        assert(self@ =~= after_delete(old(self)@, rel_path@, now));
    }

    /// Adds a tombstone behind the others.
    pub(crate) fn add_tombstone(&mut self, tombstone: Tombstone)
        requires
            old(self).wf(),
        ensures
            final(self).wf(),
            final(self)@ == (IndexModel { tombstones: old(self)@.tombstones.push(tombstone@), ..old(self)@ }),
    {
        self.tombstones.push(tombstone);
        assert(tombstone_models(self.tombstones@) =~= old(self)@.tombstones.push(tombstone@));
    }

    /// Purge expired tombstones.
    pub fn gc_tombstones(&mut self)
        requires
            old(self).wf(),
        ensures
            final(self).wf(),
            exists|now: u64| final(self)@ == #[trigger] after_gc(old(self)@, now),
    {
        let now: u64 = now_secs();
        self.gc_tombstones_at(now);
    }

    /// Purge the tombstones that have expired at the time `now`.
    pub fn gc_tombstones_at(&mut self, now: u64)
        requires
            old(self).wf(),
        ensures
            final(self).wf(),
            final(self)@ == after_gc(old(self)@, now),
    {
        let ttl: u64 = self.tombstone_ttl_secs;
        let ghost all = self@.tombstones;
        let ghost keep = |t: TombstoneModel| !conflict::outlived(now, t.timestamp, ttl);
        let mut kept: Vec<Tombstone> = Vec::new();
        let mut i: usize = 0;
        assert(tombstone_models(kept@) =~= all.take(0).filter(keep)) by {
            reveal(Seq::filter);
        }
        while i < self.tombstones.len()
            invariant
                0 <= i <= self.tombstones@.len(),
                all == tombstone_models(self.tombstones@),
                keep == (|t: TombstoneModel| !conflict::outlived(now, t.timestamp, ttl)),
                tombstone_models(kept@) == all.take(i as int).filter(keep),
            decreases self.tombstones@.len() - i,
        {
            let t = &self.tombstones[i];
            proof {
                let upto = all.take(i + 1);
                assert(upto.drop_last() =~= all.take(i as int));
                assert(upto.last() == t@);
                reveal(Seq::filter);
            }
            if !t.is_expired_at(now, ttl) {
                let ghost before = tombstone_models(kept@);
                kept.push(t.clone());
                assert(tombstone_models(kept@) =~= before.push(t@));
            }
            i = i + 1;
        }
        assert(all.take(all.len() as int) =~= all);
        self.tombstones = kept;
    }

    /// Get file count in the tree. No machine holds more files than can be counted.
    pub fn file_count(&self) -> (n: usize)
        ensures
            n == counted(reconcile::file_total(self@.tree)),
    {
        count_files(&self.tree)
    }

    /// Get total size of all tracked files.
    pub fn total_size(&self) -> (n: u64)
        requires
            total_bytes(self@.tree) <= u64::MAX,
        ensures
            n == total_bytes(self@.tree),
    {
        count_size(&self.tree)
    }

    /// Get total size of all tracked files, where it can be counted.
    pub fn checked_total_size(&self) -> (n: Option<u64>)
        ensures
            match n {
                Some(n) => n == total_bytes(self@.tree),
                None => total_bytes(self@.tree) > u64::MAX,
            },
    {
        checked_size(&self.tree)
    }

    /// Check if a path should be excluded.
    pub fn is_excluded(&self, path: &str) -> (r: bool)
        ensures
            r == excluded(path@, self@.root_path, self@.exclude_patterns),
    {
        should_exclude(path, self.root_path.as_str(), &self.exclude_patterns)
    }
}

/// Check if a path below a root should be excluded by some of the patterns: each pattern is looked for in
/// every path component (substring match).
pub fn should_exclude(path: &str, root: &str, patterns: &Vec<String>) -> (r: bool)
    ensures
        r == excluded(path@, root@, text::texts(patterns@)),
{
    let rel = path::relative_components(path, root);
    some_pattern_matches(&rel, patterns)
}

/// Whether some pattern occurs in some of the components.
pub(crate) fn some_pattern_matches(components: &Vec<Component>, patterns: &Vec<String>) -> (r: bool)
    ensures
        r == matches_pattern(path::views(components@), text::texts(patterns@)),
{
    let ghost ps = path::views(components@);
    let mut i: usize = 0;
    while i < patterns.len()
        invariant
            0 <= i <= patterns@.len(),
            ps == path::views(components@),
            forall|j: int| 0 <= j < i ==> !matches_name(path::names_in(ps), #[trigger] text::texts(patterns@)[j]),
        decreases patterns@.len() - i,
    {
        if some_component_contains(components, patterns[i].as_str()) {
            assert(matches_name(path::names_in(ps), text::texts(patterns@)[i as int]));
            return true;
        }
        i = i + 1;
    }
    false
}

/// Whether a pattern occurs in some of the components.
fn some_component_contains(components: &Vec<Component>, pattern: &str) -> (r: bool)
    ensures
        r == matches_name(path::names_in(path::views(components@)), pattern@),
{
    let ghost ps = path::views(components@);
    let mut i: usize = 0;
    assert(ps.take(0) =~= Seq::<path::Part>::empty());
    while i < components.len()
        invariant
            0 <= i <= components@.len(),
            ps == path::views(components@),
            !matches_name(path::names_in(ps.take(i as int)), pattern@),
        decreases components@.len() - i,
    {
        let ghost upto = ps.take(i + 1);
        assert(upto.drop_last() =~= ps.take(i as int));
        assert(upto.last() == components@[i as int]@);
        if let Component::Normal(s) = &components[i] {
            if text::contains_text(s.as_str(), pattern) {
                proof {
                    let ns = path::names_in(upto);
                    assert(text::occurs(pattern@, ns[ns.len() - 1]));
                    lemma_names_grow(ps, i + 1, pattern@);
                }
                return true;
            }
            proof {
                let before = path::names_in(ps.take(i as int));
                let after = path::names_in(upto);
                if matches_name(after, pattern@) {
                    let j = choose|j: int| 0 <= j < after.len() && text::occurs(pattern@, #[trigger] after[j]);
                    assert(before[j] == after[j]);
                }
            }
        }
        i = i + 1;
    }
    assert(ps.take(ps.len() as int) =~= ps);
    false
}

/// What occurs in a name among the first components occurs in one among all of them.
proof fn lemma_names_grow(ps: Seq<path::Part>, n: int, pattern: Seq<char>)
    requires
        0 <= n <= ps.len(),
        matches_name(path::names_in(ps.take(n)), pattern),
    ensures
        matches_name(path::names_in(ps), pattern),
    decreases ps.len(),
{
    if n == ps.len() {
        assert(ps.take(n) =~= ps);
    } else {
        assert(ps.drop_last().take(n) =~= ps.take(n));
        lemma_names_grow(ps.drop_last(), n, pattern);
        let before = path::names_in(ps.drop_last());
        let j = choose|j: int| 0 <= j < before.len() && text::occurs(pattern, #[trigger] before[j]);
        assert(path::names_in(ps)[j] == before[j]);
    }
}

/// What collecting the files of a tree does to the metadata kept under `k`.
pub open spec fn collected(
    before: Seq<(Seq<char>, FileMeta)>,
    after: Seq<(Seq<char>, FileMeta)>,
    t: Tree,
    prefix: Seq<char>,
    local_peer: PeerId,
    k: Seq<char>,
) -> bool {
    if is_file_key(t, prefix, k) {
        names::lookup(after, k) matches Some(m) && is_new_meta(m, local_peer)
    } else {
        names::lookup(after, k) == names::lookup(before, k)
    }
}

/// The files of a directory are those of its children.
proof fn lemma_directory_file_key(hash: Seq<u8>, m: Seq<(Seq<char>, Tree)>, prefix: Seq<char>, k: Seq<char>)
    ensures
        is_file_key(Tree::Directory { hash, children: m }, prefix, k) <==> exists|j: int|
            0 <= j < m.len() && is_file_key((#[trigger] m[j]).1, path::join_text(prefix, m[j].0), k),
{
    let t = Tree::Directory { hash, children: m };
    if is_file_key(t, prefix, k) {
        let j = choose|j: int|
            0 <= j < t->children.len() && is_file_key(
                (#[trigger] t->children[j]).1,
                path::join_text(prefix, t->children[j].0),
                k,
            );
        assert(is_file_key(m[j].1, path::join_text(prefix, m[j].0), k));
    }
    if exists|j: int| 0 <= j < m.len() && is_file_key((#[trigger] m[j]).1, path::join_text(prefix, m[j].0), k) {
        let j = choose|j: int|
            0 <= j < m.len() && is_file_key((#[trigger] m[j]).1, path::join_text(prefix, m[j].0), k);
        assert(t->children[j] == m[j]);
        assert(is_file_key(t->children[j].1, path::join_text(prefix, t->children[j].0), k));
        assert(is_file_key(t, prefix, k));
    }
}

/// Adds new metadata for every file of a tree that stands at `prefix`.
fn collect_file_meta(node: &Node, prefix: &str, local_peer: PeerId, out: &mut NameMap<FileMeta>)
    requires
        names::in_order(old(out)@),
    ensures
        names::in_order(final(out)@),
        forall|k: Seq<char>| #[trigger]
            collected(old(out)@, final(out)@, node.model(), prefix@, local_peer, k),
    decreases node,
{
    let ghost start = out@;
    match node {
        Node::File { .. } => {
            let meta = FileMeta {
                clock: VectorClock::new(),
                last_modified: now_secs(),
                last_modified_by: local_peer,
            };
            let key = path::clean(prefix);
            let ghost k0 = key@;
            out.insert(key, meta);
            assert forall|k: Seq<char>| #[trigger]
                collected(start, out@, node.model(), prefix@, local_peer, k) by {
                names::lemma_lookup_put(start, k0, meta, k);
            }
        },
        Node::Directory { children, hash } => {
            let ghost m = merkle::children_model(children@);
            proof {
                merkle::lemma_directory_model(*hash, *children);
            }
            let mut i: usize = 0;
            while i < children.len()
                invariant
                    0 <= i <= children@.len(),
                    *node == (Node::Directory { hash: *hash, children: *children }),
                    m == merkle::children_model(children@),
                    names::in_order(out@),
                    forall|k: Seq<char>|
                        #![trigger names::lookup(out@, k)]
                        if exists|j: int|
                            0 <= j < i && is_file_key(
                                (#[trigger] m[j]).1,
                                path::join_text(prefix@, m[j].0),
                                k,
                            ) {
                            names::lookup(out@, k) matches Some(v) && is_new_meta(v, local_peer)
                        } else {
                            names::lookup(out@, k) == names::lookup(start, k)
                        },
                decreases children@.len() - i,
            {
                let name = children.name_at(i);
                let child = children.value_at(i);
                let child_path = path::join(prefix, name.as_str());
                assert(m[i as int] == (name@, child.model()));
                assert(decreases_to!(*node => *child)) by {
                    names::lemma_value_smaller(*children, i as int);
                    assert(decreases_to!(*node => node->children));
                }
                let ghost before = out@;
                collect_file_meta(child, child_path.as_str(), local_peer, out);
                assert forall|k: Seq<char>|
                    #![trigger names::lookup(out@, k)]
                    if exists|j: int|
                        0 <= j < i + 1 && is_file_key((#[trigger] m[j]).1, path::join_text(prefix@, m[j].0), k) {
                        names::lookup(out@, k) matches Some(v) && is_new_meta(v, local_peer)
                    } else {
                        names::lookup(out@, k) == names::lookup(start, k)
                    } by {
                    assert(collected(before, out@, child.model(), child_path@, local_peer, k));
                    assert(names::lookup(before, k) == names::lookup(before, k));
                    if is_file_key(child.model(), child_path@, k) {
                        assert(is_file_key(m[i as int].1, path::join_text(prefix@, m[i as int].0), k));
                    } else if exists|j: int|
                        0 <= j < i + 1 && is_file_key((#[trigger] m[j]).1, path::join_text(prefix@, m[j].0), k) {
                        let j = choose|j: int|
                            0 <= j < i + 1 && is_file_key((#[trigger] m[j]).1, path::join_text(prefix@, m[j].0), k);
                        assert(j < i);
                        assert(is_file_key(m[j].1, path::join_text(prefix@, m[j].0), k));
                    }
                }
                i = i + 1;
            }
            assert(node.model() == (Tree::Directory { hash: hash@, children: m }));
            assert forall|k: Seq<char>| #[trigger]
                collected(start, out@, node.model(), prefix@, local_peer, k) by {
                lemma_directory_file_key(hash@, m, prefix@, k);
                assert(names::lookup(out@, k) == names::lookup(out@, k));
            }
        },
    }
}

/// A number of files as it is counted: the largest number stands for all that are larger.
pub open spec fn counted(n: nat) -> usize {
    if n <= usize::MAX {
        n as usize
    } else {
        usize::MAX
    }
}

fn count_files(node: &Node) -> (n: usize)
    ensures
        n == counted(reconcile::file_total(node.model())),
    decreases node,
{
    match node {
        Node::File { .. } => 1,
        Node::Directory { children, hash } => {
            let ghost m = merkle::children_model(children@);
            proof {
                merkle::lemma_directory_model(*hash, *children);
            }
            let mut sum: usize = 0;
            let mut i: usize = 0;
            while i < children.len()
                invariant
                    0 <= i <= children@.len(),
                    *node == (Node::Directory { hash: *hash, children: *children }),
                    m == merkle::children_model(children@),
                    sum == counted(reconcile::file_total_under(m, i as nat)),
                decreases children@.len() - i,
            {
                let child = children.value_at(i);
                assert(decreases_to!(*node => *child)) by {
                    names::lemma_value_smaller(*children, i as int);
                    assert(decreases_to!(*node => node->children));
                }
                assert(m[i as int].1 == child.model());
                sum = match sum.checked_add(count_files(child)) {
                    Some(more) => more,
                    None => usize::MAX,
                };
                i = i + 1;
            }
            sum
        },
    }
}

/// Whether a list of names begins with another one, and goes on behind it.
fn names_go_on(ns: &Vec<String>, start: &Vec<String>) -> (r: bool)
    ensures
        r == (ns@.len() > start@.len() && tree_laws::begins_with(text::texts(ns@), text::texts(start@))),
{
    if ns.len() <= start.len() {
        return false;
    }
    let ghost a = text::texts(ns@);
    let ghost b = text::texts(start@);
    let mut i: usize = 0;
    while i < start.len()
        invariant
            0 <= i <= start@.len() < ns@.len(),
            a == text::texts(ns@),
            b == text::texts(start@),
            forall|j: int| 0 <= j < i ==> a[j] == b[j],
        decreases start@.len() - i,
    {
        if !text::same_text(ns[i].as_str(), start[i].as_str()) {
            assert(a.take(b.len() as int)[i as int] != b[i as int]);
            return false;
        }
        i = i + 1;
    }
    assert(a.take(b.len() as int) =~= b);
    true
}

/// The bytes under the first children are no more than those under all of them.
proof fn lemma_bytes_grow(children: Seq<(Seq<char>, Tree)>, n: nat, m: nat)
    requires
        n <= m <= children.len(),
    ensures
        children_bytes(children, n) <= children_bytes(children, m),
    decreases m,
{
    if n < m {
        lemma_bytes_grow(children, n, (m - 1) as nat);
    }
}

fn checked_size(node: &Node) -> (n: Option<u64>)
    ensures
        match n {
            Some(n) => n == total_bytes(node.model()),
            None => total_bytes(node.model()) > u64::MAX,
        },
    decreases node,
{
    match node {
        Node::File { size, .. } => Some(*size),
        Node::Directory { children, hash } => {
            let ghost m = merkle::children_model(children@);
            proof {
                merkle::lemma_directory_model(*hash, *children);
            }
            let mut sum: u64 = 0;
            let mut i: usize = 0;
            while i < children.len()
                invariant
                    0 <= i <= children@.len(),
                    *node == (Node::Directory { hash: *hash, children: *children }),
                    m == merkle::children_model(children@),
                    total_bytes(node.model()) == children_bytes(m, m.len()),
                    sum == children_bytes(m, i as nat),
                decreases children@.len() - i,
            {
                let child = children.value_at(i);
                assert(decreases_to!(*node => *child)) by {
                    names::lemma_value_smaller(*children, i as int);
                    assert(decreases_to!(*node => node->children));
                }
                assert(m[i as int].1 == child.model());
                proof {
                    lemma_bytes_grow(m, (i + 1) as nat, m.len());
                }
                let size: u64 = match checked_size(child) {
                    Some(size) => size,
                    None => {
                        return None;
                    },
                };
                sum = match sum.checked_add(size) {
                    Some(more) => more,
                    None => {
                        return None;
                    },
                };
                i = i + 1;
            }
            Some(sum)
        },
    }
}

fn count_size(node: &Node) -> (n: u64)
    requires
        total_bytes(node.model()) <= u64::MAX,
    ensures
        n == total_bytes(node.model()),
    decreases node,
{
    match node {
        Node::File { size, .. } => *size,
        Node::Directory { children, hash } => {
            let ghost m = merkle::children_model(children@);
            proof {
                merkle::lemma_directory_model(*hash, *children);
            }
            let mut sum: u64 = 0;
            let mut i: usize = 0;
            while i < children.len()
                invariant
                    0 <= i <= children@.len(),
                    *node == (Node::Directory { hash: *hash, children: *children }),
                    m == merkle::children_model(children@),
                    sum == children_bytes(m, i as nat),
                    children_bytes(m, m.len()) <= u64::MAX,
                decreases children@.len() - i,
            {
                let child = children.value_at(i);
                assert(decreases_to!(*node => *child)) by {
                    names::lemma_value_smaller(*children, i as int);
                    assert(decreases_to!(*node => node->children));
                }
                assert(m[i as int].1 == child.model());
                proof {
                    lemma_bytes_grow(m, (i + 1) as nat, m.len());
                }
                sum = sum + count_size(child);
                i = i + 1;
            }
            sum
        },
    }
}

} // verus!
