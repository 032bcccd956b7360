//! What happens in the folder of this peer, and how the others learn of it.

use vstd::prelude::*;

use crate::chunk;
use crate::chunk::{ChunkMeta, Meta};
use crate::conflict;
use crate::conflict::Tombstone;
use crate::hash::same_hash;
use crate::index;
use crate::index::{IndexModel, SyncIndex};
use crate::merkle;
use crate::merkle::{Node, Tree};
use crate::names;
use crate::path;
use crate::protocol::{NotificationModel, SyncNotification};
use crate::sync_engine;
use crate::sync_engine::{EventGuard, EventModel, GuardModel, SyncEvent, find_node};
use crate::text;
use crate::watcher::{FsEvent, FsEventModel};

verus! {

broadcast use {vstd::string::group_string_axioms, vstd::seq::group_seq_axioms};

/// What is done about an event of the file system.
#[derive(Debug, PartialEq, Eq)]
pub enum FsStep {
    /// Nothing.
    Ignore,
    /// If there is a file at `abs_path` that is not excluded, its change is recorded and told.
    Check { abs_path: String },
    /// The deletion is recorded and told.
    Delete,
}

/// What is done about an event, with the two guards afterwards.
#[verifier::ext_equal]
pub ghost struct FsOutcome {
    /// None to ignore the event, else what is done.
    pub check: Option<Seq<char>>,
    pub delete: bool,
    pub write_guard: GuardModel,
    pub debounce: GuardModel,
}

/// What is done about a file that was created or modified: nothing if the sync engine itself wrote it a
/// moment ago, or if it was looked at a moment ago, or if it is a conflict backup.
pub open spec fn change_step(
    rel: Seq<char>,
    root: Seq<char>,
    write_guard: GuardModel,
    debounce: GuardModel,
    now: u128,
) -> FsOutcome {
    let write_guard2 = sync_engine::after_lookup(write_guard, rel, now);
    let debounce2 = sync_engine::after_lookup(debounce, rel, now);
    if sync_engine::fresh(write_guard, rel, now) {
        FsOutcome { check: None, delete: false, write_guard: write_guard2, debounce }
    } else if sync_engine::fresh(debounce, rel, now) {
        FsOutcome { check: None, delete: false, write_guard: write_guard2, debounce: debounce2 }
    } else {
        FsOutcome {
            check: if text::occurs(".conflict."@, rel) {
                None
            } else {
                Some(path::join_text(root, rel))
            },
            delete: false,
            write_guard: write_guard2,
            debounce: sync_engine::after_mark(debounce2, rel, now),
        }
    }
}

/// What is done about an event of the file system. A peer that does not push ignores all of them.
pub open spec fn fs_outcome(
    event: FsEventModel,
    root: Seq<char>,
    no_push: bool,
    write_guard: GuardModel,
    debounce: GuardModel,
    now: u128,
) -> FsOutcome {
    if no_push {
        FsOutcome { check: None, delete: false, write_guard, debounce }
    } else {
        match event {
            FsEventModel::Created(rel) => change_step(rel, root, write_guard, debounce, now),
            FsEventModel::Modified(rel) => change_step(rel, root, write_guard, debounce, now),
            FsEventModel::Removed(_) => FsOutcome { check: None, delete: true, write_guard, debounce },
        }
    }
}

/// Decides what is done about an event of the file system.
pub fn on_fs_event(
    event: &FsEvent,
    root: &str,
    no_push: bool,
    write_guard: &mut EventGuard,
    debounce: &mut EventGuard,
    now: u128,
) -> (r: FsStep)
    requires
        old(write_guard).wf(),
        old(debounce).wf(),
    ensures
        final(write_guard).wf(),
        final(debounce).wf(),
        ({
            let out = fs_outcome(event@, root@, no_push, old(write_guard)@, old(debounce)@, now);
            &&& final(write_guard)@ == out.write_guard
            &&& final(debounce)@ == out.debounce
            &&& match r {
                FsStep::Ignore => out.check is None && !out.delete,
                FsStep::Check { abs_path } => out.check == Some(abs_path@),
                FsStep::Delete => out.check is None && out.delete,
            }
        }),
        r is Delete <==> event@ is Removed && !no_push,
        match event@ {
            FsEventModel::Created(rel) | FsEventModel::Modified(rel) => {
                let looked_at = !no_push && !sync_engine::fresh(old(write_guard)@, rel, now) && !sync_engine::fresh(
                    old(debounce)@,
                    rel,
                    now,
                ) && !text::occurs(".conflict."@, rel);
                &&& r is Check <==> looked_at
                &&& looked_at ==> r->abs_path@ == path::join_text(root@, rel)
            },
            FsEventModel::Removed(_) => !(r is Check),
        },
{
    if no_push {
        return FsStep::Ignore;
    }
    if let FsEvent::Removed(_) = event {
        return FsStep::Delete;
    }
    let rel = event.path();
    // Skip if this was recently written by the sync engine itself
    if write_guard.is_suppressed(rel, now) {
        return FsStep::Ignore;
    }
    // Debounce: skip if we already processed this file recently
    if debounce.is_suppressed(rel, now) {
        return FsStep::Ignore;
    }
    debounce.mark(rel, now);
    // Skip conflict backup files
    if text::contains_text(rel, ".conflict.") {
        return FsStep::Ignore;
    }
    FsStep::Check { abs_path: path::join(root, rel) }
}

/// Whether a file with the chunks `old` has the same chunk at the same place.
pub open spec fn has_same(old: Seq<Meta>, m: Meta) -> bool {
    0 <= m.index < old.len() && old[m.index].hash == m.hash
}

/// The chunks of `new` that differ from the chunk of `old` at the same place, or that `old` lacks.
pub open spec fn changed_chunks(old: Seq<Meta>, new: Seq<Meta>) -> Seq<Meta>
    decreases new.len(),
{
    if new.len() == 0 {
        Seq::empty()
    } else if has_same(old, new.last()) {
        changed_chunks(old, new.drop_last())
    } else {
        changed_chunks(old, new.drop_last()).push(new.last())
    }
}

/// The chunks of the file that the names lead to; none where there is no file.
pub open spec fn chunks_at(t: Tree, ns: Seq<Seq<char>>) -> Seq<Meta> {
    match merkle::find(t, ns) {
        Some(Tree::File { chunks, .. }) => chunks,
        _ => Seq::empty(),
    }
}

/// What the others are told of a file that changed, from the index before the change: the hash of the new
/// content, the chunks that are new, and the clock after the change.
pub open spec fn change_notice(ix: IndexModel, rel: Seq<char>, data: Seq<u8>, now: u64) -> NotificationModel {
    NotificationModel::FileChanged {
        path: rel,
        hash: chunk::file_digest(chunk::metas_of(data, ix.chunk_size)),
        chunks_changed: changed_chunks(
            chunks_at(ix.tree, path::path_names(rel)),
            chunk::metas_of(data, ix.chunk_size),
        ),
        clock: index::clock_at(index::after_change(ix, rel, data, now), rel),
        timestamp: now,
        peer: ix.local_peer,
    }
}

/// Picks the chunks that changed.
fn pick_changed(old: &Vec<ChunkMeta>, new: &Vec<ChunkMeta>) -> (v: Vec<ChunkMeta>)
    ensures
        chunk::metas_view(v@) == changed_chunks(chunk::metas_view(old@), chunk::metas_view(new@)),
{
    let ghost os = chunk::metas_view(old@);
    let ghost ns = chunk::metas_view(new@);
    let mut v: Vec<ChunkMeta> = Vec::new();
    let mut i: usize = 0;
    assert(chunk::metas_view(v@) =~= changed_chunks(os, ns.take(0)));
    while i < new.len()
        invariant
            0 <= i <= new@.len(),
            os == chunk::metas_view(old@),
            ns == chunk::metas_view(new@),
            chunk::metas_view(v@) == changed_chunks(os, ns.take(i as int)),
        decreases new@.len() - i,
    {
        let m = new[i];
        let ghost upto = ns.take(i + 1);
        assert(upto.drop_last() =~= ns.take(i as int));
        assert(upto.last() == m@);
        let known = m.index < old.len() && same_hash(&old[m.index].hash, &m.hash);
        assert(known == has_same(os, m@));
        if !known {
            let ghost before = chunk::metas_view(v@);
            v.push(m);
            assert(chunk::metas_view(v@) =~= before.push(m@));
        }
        i = i + 1;
    }
    assert(ns.take(ns.len() as int) =~= ns);
    v
}

/// The chunks of the file at a path, as the index has it.
fn known_chunks(index: &SyncIndex, rel_path: &str) -> (v: Vec<ChunkMeta>)
    requires
        index.wf(),
    ensures
        chunk::metas_view(v@) == chunks_at(index@.tree, path::path_names(rel_path@)),
{
    if let Some(Node::File { chunks, .. }) = find_node(&index.tree, rel_path) {
        let copy = chunks.clone();
        assert(copy@ =~= chunks@);
        copy
    } else {
        let none: Vec<ChunkMeta> = Vec::new();
        assert(chunk::metas_view(none@) =~= Seq::<Meta>::empty());
        none
    }
}

/// Records a change of a file, and says what the others and the user are told.
pub fn record_change(index: &mut SyncIndex, rel_path: &str, data: &[u8], now: u64) -> (r: (SyncNotification, SyncEvent))
    requires
        old(index).wf(),
        conflict::count(index::clock_at(old(index)@, rel_path@), old(index).local_peer) < u64::MAX,
    ensures
        final(index).wf(),
        final(index)@ == index::after_change(old(index)@, rel_path@, data@, now),
        r.0@ == change_notice(old(index)@, rel_path@, data@, now),
        r.1@ == EventModel::Log("modified "@ + rel_path@),
{
    let before = known_chunks(index, rel_path);
    index.local_file_changed_at(rel_path, data, now);
    let chunks = chunk::metadata(data, index.chunk_size);
    let hash = chunk::file_hash(chunks.as_slice());
    let chunks_changed = pick_changed(&before, &chunks);
    let clock = index.clock(rel_path);
    let notification = SyncNotification::FileChanged {
        path: rel_path.to_owned(),
        hash,
        chunks_changed,
        clock,
        timestamp: now,
        peer: index.local_peer,
    };
    (notification, SyncEvent::Log(text::joined("modified ", rel_path)))
}

/// Records the deletion of a file, and says what the others and the user are told.
pub fn record_deletion(index: &mut SyncIndex, rel_path: &str, now: u64) -> (r: (SyncNotification, SyncEvent))
    requires
        old(index).wf(),
    ensures
        final(index).wf(),
        final(index)@ == index::after_delete(old(index)@, rel_path@, now),
        r.0@ == (NotificationModel::FileDeleted { tombstone: index::tombstone_for(old(index)@, rel_path@, now) }),
        r.1@ == EventModel::Log("deleted "@ + rel_path@),
{
    let clock = index.clock(rel_path);
    let deleted_by = index.local_peer;
    index.local_file_deleted_at(rel_path, now);
    let tombstone = Tombstone { path: rel_path.to_owned(), deleted_by, clock, timestamp: now };
    (SyncNotification::FileDeleted { tombstone }, SyncEvent::Log(text::joined("deleted ", rel_path)))
}

/// What the sync engine writes is not taken for a local change: within the window after the mark, an
/// event for the same path is ignored.
pub proof fn lemma_own_writes_are_ignored(
    written: Seq<char>,
    reported: Seq<char>,
    root: Seq<char>,
    write_guard: GuardModel,
    debounce: GuardModel,
    then: u128,
    now: u128,
)
    requires
        names::in_order(write_guard.marks),
        path::parts(written) == path::parts(reported),
        sync_engine::elapsed(then, now) < write_guard.ttl,
    ensures
        change_step(reported, root, sync_engine::after_mark(write_guard, written, then), debounce, now).check is None,
{
    sync_engine::lemma_mark_lasts(write_guard, written, then, now);
    path::lemma_clean_same_parts(written, reported);
}

/// Of two events for one path within the window at most one is looked at.
pub proof fn lemma_events_are_debounced(
    rel: Seq<char>,
    root: Seq<char>,
    write_guard: GuardModel,
    debounce: GuardModel,
    first: u128,
    second: u128,
)
    requires
        names::in_order(write_guard.marks),
        names::in_order(debounce.marks),
        sync_engine::elapsed(first, second) < debounce.ttl,
        change_step(rel, root, write_guard, debounce, first).check is Some,
    ensures
        ({
            let after = change_step(rel, root, write_guard, debounce, first);
            change_step(rel, root, after.write_guard, after.debounce, second).check is None
        }),
{
    let cleared = sync_engine::after_lookup(debounce, rel, first);
    names::lemma_without_in_order(debounce.marks, path::clean_text(rel));
    sync_engine::lemma_mark_lasts(cleared, rel, first, second);
}

/// A conflict backup is never told to the others.
pub proof fn lemma_backups_stay_local(
    original: Seq<char>,
    loser: conflict::PeerId,
    root: Seq<char>,
    write_guard: GuardModel,
    debounce: GuardModel,
    now: u128,
)
    ensures
        change_step(conflict::conflict_name(original, loser), root, write_guard, debounce, now).check is None,
{
    conflict::lemma_conflict_name_is_marked(original, loser);
}

} // verus!
