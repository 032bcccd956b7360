//! What happens in the folder is seen and told: no change is passed over but for the reasons given here.

use vstd::prelude::*;

use crate::chunk;
use crate::chunk::Meta;
use crate::config;
use crate::conflict;
use crate::conflict::PeerId;
use crate::inbound;
use crate::inbound::PlanModel;
use crate::index;
use crate::index::IndexModel;
use crate::index_laws;
use crate::local;
use crate::merkle;
use crate::names;
use crate::path;
use crate::protocol::NotificationModel;
use crate::sync_engine;
use crate::sync_engine::{EventGuard, GuardModel, OriginModel};
use crate::text;
use crate::watcher;
use crate::watcher::{FsEvent, FsEventModel, RawKind};

verus! {

broadcast use vstd::seq::group_seq_axioms;

/// A path that carries no mark is not suppressed.
pub proof fn lemma_an_unmarked_path_is_not_suppressed(g: GuardModel, rel: Seq<char>, now: u128)
    requires
        forall|i: int| 0 <= i < g.marks.len() ==> path::parts((#[trigger] g.marks[i]).0) != path::parts(rel),
    ensures
        !sync_engine::fresh(g, rel, now),
{
    let key = path::clean_text(rel);
    path::lemma_clean_keeps_parts(rel);
    if names::has_name(g.marks, key) {
        let i = choose|i: int| 0 <= i < g.marks.len() && (#[trigger] g.marks[i]).0 == key;
        assert(path::parts(g.marks[i].0) == path::parts(rel));
    }
}

/// The time between two moments is their difference, and none where the clock went back.
pub proof fn lemma_time_between_moments(then: u128, now: u128)
    ensures
        now >= then ==> then + sync_engine::elapsed(then, now) == now,
        now < then ==> sync_engine::elapsed(then, now) == 0,
{
}

/// A file that was created or modified is looked at, wherever in the folder it is: unless this peer wrote it a
/// moment ago, it was looked at a moment ago, or it is a conflict backup.
pub proof fn lemma_every_change_is_looked_at(
    rel: Seq<char>,
    root: Seq<char>,
    write_guard: GuardModel,
    debounce: GuardModel,
    now: u128,
)
    requires
        !sync_engine::fresh(write_guard, rel, now),
        !sync_engine::fresh(debounce, rel, now),
        !text::occurs(".conflict."@, rel),
    ensures
        local::fs_outcome(FsEventModel::Created(rel), root, false, write_guard, debounce, now).check == Some(
            path::join_text(root, rel),
        ),
        local::fs_outcome(FsEventModel::Modified(rel), root, false, write_guard, debounce, now).check == Some(
            path::join_text(root, rel),
        ),
{
}

/// Only what was created or modified is looked at, and each of the reasons keeps it from being looked at.
pub proof fn lemma_what_is_not_looked_at(
    event: FsEventModel,
    root: Seq<char>,
    no_push: bool,
    write_guard: GuardModel,
    debounce: GuardModel,
    now: u128,
)
    ensures
        ({
            let out = local::fs_outcome(event, root, no_push, write_guard, debounce, now);
            &&& no_push ==> out.check is None
            &&& event is Removed ==> out.check is None
            &&& event matches FsEventModel::Created(rel) ==> (sync_engine::fresh(write_guard, rel, now)
                || sync_engine::fresh(debounce, rel, now) || text::occurs(".conflict."@, rel)) ==> out.check is None
            &&& event matches FsEventModel::Modified(rel) ==> (sync_engine::fresh(write_guard, rel, now)
                || sync_engine::fresh(debounce, rel, now) || text::occurs(".conflict."@, rel)) ==> out.check is None
        }),
{
}

/// Every removal is recorded, by a peer that pushes, whatever was marked; and nothing but a removal is.
pub proof fn lemma_every_removal_is_recorded(
    event: FsEventModel,
    root: Seq<char>,
    no_push: bool,
    write_guard: GuardModel,
    debounce: GuardModel,
    now: u128,
)
    ensures
        local::fs_outcome(event, root, no_push, write_guard, debounce, now).delete <==> event is Removed && !no_push,
{
}

/// A path that was looked at is marked, so that it is not looked at again within the window. The guard against
/// the peer's own writes gains no mark, and no event changes what is known of another path.
pub proof fn lemma_an_event_marks_its_path_only(
    rel: Seq<char>,
    other: Seq<char>,
    root: Seq<char>,
    write_guard: GuardModel,
    debounce: GuardModel,
    now: u128,
    later: u128,
)
    requires
        names::in_order(write_guard.marks),
        names::in_order(debounce.marks),
        path::parts(other) != path::parts(rel),
    ensures
        ({
            let out = local::fs_outcome(FsEventModel::Modified(rel), root, false, write_guard, debounce, now);
            &&& out.check is Some ==> (sync_engine::fresh(out.debounce, rel, later) <==> sync_engine::elapsed(now, later)
                < debounce.ttl)
            &&& out.check is Some ==> !sync_engine::fresh(out.write_guard, rel, later)
            &&& sync_engine::fresh(out.debounce, other, later) == sync_engine::fresh(debounce, other, later)
            &&& sync_engine::fresh(out.write_guard, other, later) == sync_engine::fresh(write_guard, other, later)
            &&& out.debounce.ttl == debounce.ttl
            &&& out.write_guard.ttl == write_guard.ttl
        }),
{
    let key = path::clean_text(rel);
    sync_engine::lemma_guard_leaves_others(write_guard, rel, other, now, later);
    sync_engine::lemma_guard_leaves_others(debounce, rel, other, now, later);
    names::lemma_without_in_order(debounce.marks, key);
    names::lemma_lookup_without(write_guard.marks, key, key);
    let cleared = sync_engine::after_lookup(debounce, rel, now);
    sync_engine::lemma_mark_lasts(cleared, rel, now, later);
    sync_engine::lemma_guard_leaves_others(cleared, rel, other, now, later);
}

/// What is excluded goes by the components of a path below the root: a path is excluded exactly where one of
/// the patterns occurs in one of its names.
pub proof fn lemma_exclusion_goes_by_components(root: Seq<char>, rel: Seq<char>, patterns: Seq<Seq<char>>)
    requires
        sync_engine::is_safe(rel),
    ensures
        index::excluded(path::join_text(root, rel), root, patterns) <==> exists|i: int, j: int|
            0 <= i < patterns.len() && 0 <= j < path::path_names(rel).len() && #[trigger] text::occurs(
                patterns[i],
                path::path_names(rel)[j],
            ),
{
    sync_engine::lemma_safe_path_stays_below(root, rel);
    let ns = path::path_names(rel);
    if index::excluded(path::join_text(root, rel), root, patterns) {
        let i = choose|i: int| 0 <= i < patterns.len() && index::matches_name(ns, #[trigger] patterns[i]);
        let j = choose|j: int| 0 <= j < ns.len() && text::occurs(patterns[i], #[trigger] ns[j]);
        assert(text::occurs(patterns[i], ns[j]));
    }
    if exists|i: int, j: int|
        0 <= i < patterns.len() && 0 <= j < ns.len() && #[trigger] text::occurs(patterns[i], ns[j]) {
        let (i, j) = choose|i: int, j: int|
            0 <= i < patterns.len() && 0 <= j < ns.len() && #[trigger] text::occurs(patterns[i], ns[j]);
        assert(text::occurs(patterns[i], ns[j]));
        assert(index::matches_name(ns, patterns[i]));
    }
}

/// What happens below the watched folder is an event of the folder, of the kind that it is, at the path below
/// the folder: unless one of the patterns occurs in one of the names of that path.
pub proof fn lemma_every_change_below_the_folder_is_an_event(
    root: Seq<char>,
    rel: Seq<char>,
    exclude: Seq<Seq<char>>,
    kind: RawKind,
)
    requires
        sync_engine::is_safe(rel),
    ensures
        ({
            let e = watcher::event_of(path::join_text(root, rel), root, exclude, kind);
            let left_out = exists|i: int, j: int|
                0 <= i < exclude.len() && 0 <= j < path::path_names(rel).len() && #[trigger] text::occurs(
                    exclude[i],
                    path::path_names(rel)[j],
                );
            &&& left_out || kind == RawKind::Other ==> e is None
            &&& !left_out ==> match kind {
                RawKind::Create => e matches Some(FsEventModel::Created(p)) && path::parts(p) == path::parts(rel),
                RawKind::Modify => e matches Some(FsEventModel::Modified(p)) && path::parts(p) == path::parts(rel),
                RawKind::Remove => e matches Some(FsEventModel::Removed(p)) && path::parts(p) == path::parts(rel),
                RawKind::Other => true,
            }
        }),
{
    sync_engine::lemma_safe_path_stays_below(root, rel);
    lemma_exclusion_goes_by_components(root, rel, exclude);
    path::lemma_clean_keeps_parts(rel);
}

/// What happens elsewhere is no event.
pub proof fn lemma_nothing_outside_the_folder_is_an_event(
    at: Seq<char>,
    root: Seq<char>,
    exclude: Seq<Seq<char>>,
    kind: RawKind,
)
    requires
        path::parts(at).len() < path::parts(root).len() || exists|i: int|
            0 <= i < path::parts(root).len() && #[trigger] path::parts(at)[i] != path::parts(root)[i],
    ensures
        watcher::event_of(at, root, exclude, kind) is None,
{
    let ps = path::parts(at);
    let base = path::parts(root);
    if path::starts_with(ps, base) {
        let i = choose|i: int| 0 <= i < base.len() && #[trigger] ps[i] != base[i];
        assert(ps.take(base.len() as int)[i] == ps[i]);
    }
}

/// The chunks that are told of are picked one by one: a chunk is told exactly where the file had another chunk
/// at its place, or none.
pub proof fn lemma_changed_chunks_are_picked_one_by_one(before: Seq<Meta>, after: Seq<Meta>, m: Meta)
    ensures
        local::changed_chunks(before, Seq::empty()) == Seq::<Meta>::empty(),
        local::changed_chunks(before, after.push(m)) == if 0 <= m.index < before.len() && before[m.index].hash == m.hash {
            local::changed_chunks(before, after)
        } else {
            local::changed_chunks(before, after).push(m)
        },
{
    assert(after.push(m).drop_last() =~= after);
}

/// Every chunk of a file that changed is told, and no other: chunk `i` of the new version is among the told
/// ones exactly where the old version had no chunk `i`, or one with another hash.
pub proof fn lemma_every_changed_chunk_is_told(before: Seq<u8>, after: Seq<u8>, chunk_size: nat, i: int)
    requires
        0 <= i < chunk::metas_of(after, chunk_size).len(),
    ensures
        ({
            let old_chunks = chunk::metas_of(before, chunk_size);
            let new_chunks = chunk::metas_of(after, chunk_size);
            local::changed_chunks(old_chunks, new_chunks).contains(new_chunks[i]) <==> i >= old_chunks.len()
                || old_chunks[i].hash != new_chunks[i].hash
        }),
{
    let old_chunks = chunk::metas_of(before, chunk_size);
    let new_chunks = chunk::metas_of(after, chunk_size);
    let told = local::changed_chunks(old_chunks, new_chunks);
    if i >= old_chunks.len() || old_chunks[i].hash != new_chunks[i].hash {
        let k = lemma_changed_is_told(old_chunks, new_chunks, i);
        assert(told[k] == new_chunks[i]);
    }
    if told.contains(new_chunks[i]) {
        let k = choose|k: int| 0 <= k < told.len() && told[k] == new_chunks[i];
        lemma_told_is_changed(old_chunks, new_chunks, k);
    }
}

proof fn lemma_changed_is_told(before: Seq<Meta>, after: Seq<Meta>, i: int) -> (k: int)
    requires
        0 <= i < after.len(),
        !local::has_same(before, after[i]),
    ensures
        0 <= k < local::changed_chunks(before, after).len(),
        local::changed_chunks(before, after)[k] == after[i],
    decreases after.len(),
{
    let rest = local::changed_chunks(before, after.drop_last());
    if i < after.len() - 1 {
        lemma_changed_is_told(before, after.drop_last(), i)
    } else {
        rest.len() as int
    }
}

proof fn lemma_told_is_changed(before: Seq<Meta>, after: Seq<Meta>, k: int)
    requires
        0 <= k < local::changed_chunks(before, after).len(),
    ensures
        !local::has_same(before, local::changed_chunks(before, after)[k]),
    decreases after.len(),
{
    let rest = local::changed_chunks(before, after.drop_last());
    if k < rest.len() {
        lemma_told_is_changed(before, after.drop_last(), k);
    }
}

/// What the others are told of a change is the change: its path, the hash of the new content, who made it and
/// when, and a clock that counts one more for this peer than the file's clock did and the same for all others.
pub proof fn lemma_the_notice_tells_the_change(ix: IndexModel, rel: Seq<char>, data: Seq<u8>, now: u64, other: PeerId)
    requires
        names::in_order(ix.file_meta),
        conflict::count(index::clock_at(ix, rel), ix.local_peer) < u64::MAX,
        other != ix.local_peer,
    ensures
        match local::change_notice(ix, rel, data, now) {
            NotificationModel::FileChanged { path, hash, chunks_changed, clock, timestamp, peer } => {
                &&& path == rel
                &&& hash == merkle::tree_hash(merkle::file_tree(data, ix.chunk_size))
                &&& chunks_changed == local::changed_chunks(
                    local::chunks_at(ix.tree, path::path_names(rel)),
                    chunk::metas_of(data, ix.chunk_size),
                )
                &&& conflict::count(clock, ix.local_peer) == conflict::count(index::clock_at(ix, rel), ix.local_peer) + 1
                &&& conflict::count(clock, other) == conflict::count(index::clock_at(ix, rel), other)
                &&& timestamp == now
                &&& peer == ix.local_peer
            },
            _ => false,
        },
{
    index_laws::lemma_a_change_is_dated_and_signed(ix, rel, data, now, other);
}

/// A file that is changed is compared with what the tree has at its path; a file that is new is told whole.
pub proof fn lemma_a_new_file_is_told_whole(ix: IndexModel, rel: Seq<char>, data: Seq<u8>)
    ensures
        merkle::find(ix.tree, path::path_names(rel)) is None ==> local::changed_chunks(
            local::chunks_at(ix.tree, path::path_names(rel)),
            chunk::metas_of(data, ix.chunk_size),
        ) == chunk::metas_of(data, ix.chunk_size),
        merkle::find(ix.tree, path::path_names(rel)) matches Some(merkle::Tree::File { chunks, .. })
            ==> local::chunks_at(ix.tree, path::path_names(rel)) == chunks,
{
    lemma_nothing_known_all_told(chunk::metas_of(data, ix.chunk_size));
}

proof fn lemma_nothing_known_all_told(new: Seq<Meta>)
    ensures
        local::changed_chunks(Seq::empty(), new) == new,
    decreases new.len(),
{
    if new.len() > 0 {
        lemma_nothing_known_all_told(new.drop_last());
        assert(new.drop_last().push(new.last()) =~= new);
    } else {
        assert(new =~= Seq::<Meta>::empty());
    }
}

/// A change that is told is fetched by every other peer whose version is no later than the one that was
/// changed: all of it, to the path that it has, and without a copy.
pub proof fn lemma_a_told_change_is_fetched(
    author: IndexModel,
    rel: Seq<char>,
    data: Seq<u8>,
    now: u64,
    other: IndexModel,
    root: Seq<char>,
)
    requires
        names::in_order(author.file_meta),
        conflict::count(index::clock_at(author, rel), author.local_peer) < u64::MAX,
        forall|p: PeerId| #[trigger]
            conflict::count(index::clock_at(other, rel), p) <= conflict::count(index::clock_at(author, rel), p),
        author.local_peer != other.local_peer,
        sync_engine::is_safe(rel),
    ensures
        inbound::plan_for(local::change_notice(author, rel, data, now), other, root, other.local_peer) == (
        PlanModel::Fetch {
            backup: None,
            mark_first: true,
            source: rel,
            target: rel,
            chunks: local::changed_chunks(
                local::chunks_at(author.tree, path::path_names(rel)),
                chunk::metas_of(data, author.chunk_size),
            ),
            origin: OriginModel {
                clock: index::clock_at(index::after_change(author, rel, data, now), rel),
                timestamp: now,
                peer: author.local_peer,
            },
            conflict: None,
        }),
{
    assert(conflict::no_later(index::clock_at(other, rel), index::clock_at(author, rel)));
    index_laws::lemma_told_change_is_accepted(author, rel, data, now, other);
}

/// A deletion that is told is carried out by every other peer, whatever it knows of the file.
pub proof fn lemma_a_told_deletion_is_carried_out(
    author: IndexModel,
    rel: Seq<char>,
    now: u64,
    other: IndexModel,
    root: Seq<char>,
)
    requires
        author.local_peer != other.local_peer,
        sync_engine::is_safe(rel),
    ensures
        ({
            let tombstone = index::after_delete(author, rel, now).tombstones.last();
            inbound::plan_for(NotificationModel::FileDeleted { tombstone }, other, root, other.local_peer)
                == (PlanModel::Delete { abs_path: path::join_text(root, rel), tombstone })
        }),
{
}

/// After a deletion was told and carried out, the file is on neither side, and both keep the same tombstone.
pub proof fn lemma_a_told_deletion_is_the_same_on_both_sides(
    author: IndexModel,
    rel: Seq<char>,
    now: u64,
    other: IndexModel,
)
    requires
        merkle::ordered(author.tree),
        merkle::ordered(other.tree),
        names::in_order(author.file_meta),
        names::in_order(other.file_meta),
        path::path_names(rel).len() > 0,
    ensures
        ({
            let here = index::after_delete(author, rel, now);
            let there = inbound::after_remote_delete(other, index::tombstone_for(author, rel, now));
            &&& merkle::find(here.tree, path::path_names(rel)) is None
            &&& merkle::find(there.tree, path::path_names(rel)) is None
            &&& index::meta_at(here, rel) is None
            &&& index::meta_at(there, rel) is None
            &&& here.tombstones.last() == there.tombstones.last()
            &&& there.tombstones.drop_last() == other.tombstones
        }),
{
    index_laws::lemma_deletion_is_recorded(author, rel, now);
    index_laws::lemma_remote_deletion_is_recorded(other, index::tombstone_for(author, rel, now));
    let there = inbound::after_remote_delete(other, index::tombstone_for(author, rel, now));
    assert(there.tombstones.drop_last() =~= other.tombstones);
}

/// The path of an event is written in its shortest form.
pub proof fn lemma_the_path_of_an_event(root: Seq<char>, rel: Seq<char>, exclude: Seq<Seq<char>>, kind: RawKind)
    requires
        sync_engine::is_safe(rel),
    ensures
        watcher::event_of(path::join_text(root, rel), root, exclude, kind) matches Some(e) ==> e == match kind {
            RawKind::Create => FsEventModel::Created(path::clean_text(rel)),
            RawKind::Modify => FsEventModel::Modified(path::clean_text(rel)),
            _ => FsEventModel::Removed(path::clean_text(rel)),
        },
{
    sync_engine::lemma_safe_path_stays_below(root, rel);
}

/// Wherever a path leads, it is excluded exactly where one of the patterns occurs in one of the names that
/// matter.
pub proof fn lemma_exclusion_anywhere(p: Seq<char>, root: Seq<char>, patterns: Seq<Seq<char>>)
    ensures
        index::excluded(p, root, patterns) <==> exists|i: int, j: int|
            0 <= i < patterns.len() && 0 <= j < path::names_in(path::relative_parts(p, root)).len()
                && #[trigger] text::occurs(patterns[i], path::names_in(path::relative_parts(p, root))[j]),
{
    let ns = path::names_in(path::relative_parts(p, root));
    if index::excluded(p, root, patterns) {
        let i = choose|i: int| 0 <= i < patterns.len() && index::matches_name(ns, #[trigger] patterns[i]);
        let j = choose|j: int| 0 <= j < ns.len() && text::occurs(patterns[i], #[trigger] ns[j]);
        assert(text::occurs(patterns[i], ns[j]));
    }
    if exists|i: int, j: int|
        0 <= i < patterns.len() && 0 <= j < ns.len() && #[trigger] text::occurs(patterns[i], ns[j]) {
        let (i, j) = choose|i: int, j: int|
            0 <= i < patterns.len() && 0 <= j < ns.len() && #[trigger] text::occurs(patterns[i], ns[j]);
        assert(text::occurs(patterns[i], ns[j]));
        assert(index::matches_name(ns, patterns[i]));
    }
}

/// A new guard suppresses nothing, and its marks last as long as it was made for.
pub proof fn lemma_a_new_guard_suppresses_nothing(ttl: std::time::Duration, g: EventGuard, rel: Seq<char>, now: u128)
    requires
        call_ensures(EventGuard::new, (ttl,), g),
    ensures
        !sync_engine::fresh(g@, rel, now),
        g@.ttl == config::duration_nanos(ttl),
{
    lemma_an_unmarked_path_is_not_suppressed(g@, rel, now);
}

/// What the operating system reports is turned into the event that it makes, and into none where it makes none.
pub proof fn lemma_reports_are_turned_into_events(
    at: &str,
    root: &str,
    exclude: &Vec<String>,
    kind: RawKind,
    r: Option<FsEvent>,
)
    requires
        call_ensures(watcher::fs_event, (at, root, exclude, kind), r),
    ensures
        r is Some <==> watcher::event_of(at@, root@, text::texts(exclude@), kind) is Some,
        r matches Some(e) ==> watcher::event_of(at@, root@, text::texts(exclude@), kind) == Some(e@),
{
}

/// Whether a file was created or modified makes no difference. Neither a removal nor a peer that does not push
/// changes a guard; a file that this peer wrote a moment ago leaves the other guard as it is; and a conflict
/// backup is marked as looked at like any other file.
pub proof fn lemma_what_the_guards_keep(
    rel: Seq<char>,
    event: FsEventModel,
    root: Seq<char>,
    no_push: bool,
    write_guard: GuardModel,
    debounce: GuardModel,
    now: u128,
)
    ensures
        local::fs_outcome(FsEventModel::Created(rel), root, no_push, write_guard, debounce, now) == local::fs_outcome(
            FsEventModel::Modified(rel),
            root,
            no_push,
            write_guard,
            debounce,
            now,
        ),
        ({
            let out = local::fs_outcome(event, root, no_push, write_guard, debounce, now);
            &&& no_push || event is Removed ==> out.write_guard == write_guard && out.debounce == debounce
            &&& !no_push && event == FsEventModel::Modified(rel) && sync_engine::fresh(write_guard, rel, now)
                ==> out.write_guard == write_guard && out.debounce == debounce
            &&& !no_push && event == FsEventModel::Modified(rel) && !sync_engine::fresh(write_guard, rel, now)
                && sync_engine::fresh(debounce, rel, now) ==> out.debounce == debounce
            &&& !no_push && event == FsEventModel::Modified(rel) && !sync_engine::fresh(write_guard, rel, now)
                && !sync_engine::fresh(debounce, rel, now) ==> out.debounce == sync_engine::after_mark(
                sync_engine::after_lookup(debounce, rel, now),
                rel,
                now,
            )
        }),
{
}

/// Wherever below the folder something happens, what matters are the components behind those of the folder.
pub proof fn lemma_events_go_by_the_components_behind_the_folder(
    at: Seq<char>,
    root: Seq<char>,
    rest: Seq<path::Part>,
    exclude: Seq<Seq<char>>,
    kind: RawKind,
)
    requires
        path::parts(at) == path::parts(root) + rest,
    ensures
        ({
            let e = watcher::event_of(at, root, exclude, kind);
            let left_out = exists|i: int, j: int|
                0 <= i < exclude.len() && 0 <= j < path::names_in(rest).len() && #[trigger] text::occurs(
                    exclude[i],
                    path::names_in(rest)[j],
                );
            &&& left_out || kind == RawKind::Other <==> e is None
            &&& e is Some ==> e == Some(
                match kind {
                    RawKind::Create => FsEventModel::Created(path::parts_text(rest)),
                    RawKind::Modify => FsEventModel::Modified(path::parts_text(rest)),
                    _ => FsEventModel::Removed(path::parts_text(rest)),
                },
            )
        }),
{
    let n = path::parts(root).len() as int;
    assert(path::parts(at).take(n) =~= path::parts(root));
    assert(path::parts(at).skip(n) =~= rest);
    lemma_exclusion_anywhere(at, root, exclude);
}

} // verus!
