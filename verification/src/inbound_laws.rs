//! What holds of every notification, whoever sent it.

use vstd::prelude::*;

use crate::chunk;
use crate::clock_laws;
use crate::conflict;
use crate::conflict::{PeerId, Resolution, Tombstone, TombstoneModel};
use crate::inbound;
use crate::inbound::{AnswerModel, NotificationPlan, PlanModel};
use crate::index;
use crate::index::{IndexModel, SyncIndex};
use crate::index_laws;
use crate::merkle;
use crate::names;
use crate::path;
use crate::path::Part;
use crate::peers;
use crate::protocol::{NotificationModel, RequestModel, ResponseModel, SyncNotification};
use crate::sync_engine;
use crate::sync_engine::OriginModel;
use crate::util;

verus! {

broadcast use vstd::seq::group_seq_axioms;

/// What a peer told the others comes back to it without effect.
pub proof fn lemma_own_notifications_are_ignored(
    notification: NotificationModel,
    ix: IndexModel,
    root: Seq<char>,
    local_id: PeerId,
)
    requires
        match notification {
            NotificationModel::FileChanged { peer, .. } => peer == local_id,
            NotificationModel::FileDeleted { tombstone } => tombstone.deleted_by == local_id,
            NotificationModel::PeerJoined { .. } => true,
        },
    ensures
        inbound::plan_for(notification, ix, root, local_id) == PlanModel::Nothing,
{
}

/// A path that could lead out of the folder is refused.
pub proof fn lemma_unsafe_paths_are_refused(
    notification: NotificationModel,
    ix: IndexModel,
    root: Seq<char>,
    local_id: PeerId,
)
    requires
        match notification {
            NotificationModel::FileChanged { path, peer, .. } => peer != local_id && !sync_engine::is_safe(path),
            NotificationModel::FileDeleted { tombstone } => tombstone.deleted_by != local_id && !sync_engine::is_safe(
                tombstone.path,
            ),
            NotificationModel::PeerJoined { .. } => false,
        },
    ensures
        inbound::plan_for(notification, ix, root, local_id) == PlanModel::Refused,
{
}

/// A request for chunks of a file in the folder that is not excluded is answered with that file: the answer
/// keeps the path, and every index that was asked for, in the order of the request.
pub proof fn lemma_every_chunk_asked_for_is_read(
    path: Seq<char>,
    chunk_indices: Seq<usize>,
    ix: IndexModel,
    root: Seq<char>,
)
    requires
        sync_engine::is_safe(path),
        !index::excluded(path::join_text(root, path), ix.root_path, ix.exclude_patterns),
    ensures
        inbound::answer_to(RequestModel::Chunks { path, chunk_indices }, ix, root) == (AnswerModel::ReadFile {
            abs_path: path::join_text(root, path),
            path,
            chunk_indices,
        }),
{
}

/// No file is read that lies outside the folder or is excluded: such a request is answered with an error.
pub proof fn lemma_no_other_file_is_read(path: Seq<char>, chunk_indices: Seq<usize>, ix: IndexModel, root: Seq<char>)
    ensures
        !sync_engine::is_safe(path) ==> inbound::answer_to(RequestModel::Chunks { path, chunk_indices }, ix, root)
            == AnswerModel::Reply(ResponseModel::Failure { message: "invalid path"@ }),
        sync_engine::is_safe(path) && index::excluded(path::join_text(root, path), ix.root_path, ix.exclude_patterns)
            ==> inbound::answer_to(RequestModel::Chunks { path, chunk_indices }, ix, root) == AnswerModel::Reply(
            ResponseModel::Failure { message: "excluded path"@ },
        ),
{
}

/// The tree that is answered is that of the index, and the hash that is answered is that of the tree.
pub proof fn lemma_answers_agree_on_the_tree(ix: IndexModel, root: Seq<char>)
    ensures
        inbound::answer_to(RequestModel::WholeTree, ix, root) matches AnswerModel::Reply(
            ResponseModel::WholeTree { tree },
        ) && tree == ix.tree && inbound::answer_to(RequestModel::RootHash, ix, root) == AnswerModel::Reply(
            ResponseModel::RootHash { hash: merkle::tree_hash(tree) },
        ),
{
}

/// A question for a subtree is answered with what stands at the path in the whole tree, under the path that
/// was asked for.
pub proof fn lemma_a_subtree_is_what_stands_there(path: Seq<char>, ix: IndexModel, root: Seq<char>)
    ensures
        inbound::answer_to(RequestModel::Subtree { path }, ix, root) matches AnswerModel::Reply(
            ResponseModel::Subtree { path: told, node },
        ) && told == path && node == merkle::find(ix.tree, path::path_names(path)),
{
}

/// A question for the metadata of a file is answered with its clock and its time, or with none and zero where
/// the file is not known.
pub proof fn lemma_metadata_is_what_is_known(path: Seq<char>, ix: IndexModel, root: Seq<char>)
    ensures
        inbound::answer_to(RequestModel::FileMeta { path }, ix, root) matches AnswerModel::Reply(
            ResponseModel::FileMeta { path: told, clock, last_modified },
        ) && told == path && match index::meta_at(ix, path) {
            Some(m) => clock == Some(m.clock) && last_modified == m.last_modified,
            None => clock is None && last_modified == 0,
        },
{
}

/// What was changed here and is asked for is told with the clock that the change gave it.
pub proof fn lemma_metadata_of_a_change_is_told(ix: IndexModel, rel: Seq<char>, data: Seq<u8>, now: u64, root: Seq<char>)
    requires
        names::in_order(ix.file_meta),
        conflict::count(index::clock_at(ix, rel), ix.local_peer) < u64::MAX,
    ensures
        inbound::answer_to(
            RequestModel::FileMeta { path: rel },
            index::after_change(ix, rel, data, now),
            root,
        ) matches AnswerModel::Reply(ResponseModel::FileMeta { clock: Some(clock), last_modified, .. })
            && last_modified == now && conflict::relation(index::clock_at(ix, rel), clock) == conflict::Causality::Before,
{
    index_laws::lemma_changed_meta(ix, rel, data, now);
    index_laws::lemma_the_clock_of_a_change_is_later(ix, rel, data, now);
}

/// A deletion by another peer is carried out, whatever this peer knows of the file: the tombstone decides.
pub proof fn lemma_every_deletion_is_carried_out(
    tombstone: TombstoneModel,
    ix: IndexModel,
    root: Seq<char>,
    local_id: PeerId,
)
    requires
        tombstone.deleted_by != local_id,
        sync_engine::is_safe(tombstone.path),
    ensures
        inbound::plan_for(NotificationModel::FileDeleted { tombstone }, ix, root, local_id) == (PlanModel::Delete {
            abs_path: path::join_text(root, tombstone.path),
            tombstone,
        }),
{
}

/// A version that has seen all that the local one has and more is fetched, under its path and to its path,
/// with nothing kept of the local version.
pub proof fn lemma_a_later_version_is_fetched(
    path: Seq<char>,
    chunks: Seq<chunk::Meta>,
    origin: OriginModel,
    ix: IndexModel,
    root: Seq<char>,
    local_id: PeerId,
)
    requires
        origin.peer != local_id,
        sync_engine::is_safe(path),
        forall|p: PeerId| #[trigger] conflict::count(index::clock_at(ix, path), p) <= conflict::count(origin.clock, p),
        exists|p: PeerId| #[trigger] conflict::count(index::clock_at(ix, path), p) < conflict::count(origin.clock, p),
    ensures
        inbound::change_plan(path, chunks, origin, ix, root, local_id) == (PlanModel::Fetch {
            backup: None,
            mark_first: true,
            source: path,
            target: path,
            chunks,
            origin,
            conflict: None,
        }),
{
    clock_laws::lemma_clocks_are_compared_by_every_counter(index::clock_at(ix, path), origin.clock);
}

/// A version that has seen no more than the local one is not fetched.
pub proof fn lemma_no_earlier_version_is_fetched(
    path: Seq<char>,
    chunks: Seq<chunk::Meta>,
    origin: OriginModel,
    ix: IndexModel,
    root: Seq<char>,
    local_id: PeerId,
)
    requires
        origin.peer != local_id,
        sync_engine::is_safe(path),
        forall|p: PeerId| #[trigger] conflict::count(index::clock_at(ix, path), p) >= conflict::count(origin.clock, p),
    ensures
        inbound::change_plan(path, chunks, origin, ix, root, local_id) == PlanModel::Rejected,
{
    clock_laws::lemma_history_decides_before_time(
        index::clock_at(ix, path),
        origin.clock,
        inbound::time_at(ix, path),
        origin.timestamp,
        origin.peer,
        local_id,
    );
}

/// Where two versions were made apart, both are kept. The version of the peer is fetched under the path of the
/// file; if it is the later one it goes there, and the local version is copied aside first; if it is the
/// earlier one it goes aside itself. What goes aside is named after the peer that made it. Of two versions of
/// the same second that of the peer that comes last counts as the later one.
pub proof fn lemma_both_versions_are_kept(
    path: Seq<char>,
    chunks: Seq<chunk::Meta>,
    origin: OriginModel,
    ix: IndexModel,
    root: Seq<char>,
    local_id: PeerId,
)
    requires
        origin.peer != local_id,
        sync_engine::is_safe(path),
        exists|p: PeerId| #[trigger] conflict::count(index::clock_at(ix, path), p) > conflict::count(origin.clock, p),
        exists|p: PeerId| #[trigger] conflict::count(index::clock_at(ix, path), p) < conflict::count(origin.clock, p),
    ensures
        ({
            let plan = inbound::change_plan(path, chunks, origin, ix, root, local_id);
            let remote_is_later = inbound::time_at(ix, path) < origin.timestamp || (inbound::time_at(ix, path)
                == origin.timestamp && peers::peer_before(local_id, origin.peer));
            let copy = conflict::conflict_name(
                path,
                if remote_is_later {
                    local_id
                } else {
                    origin.peer
                },
            );
            &&& plan is Fetch
            &&& plan->source == path
            &&& plan->Fetch_chunks == chunks
            &&& plan->Fetch_origin == origin
            &&& plan->conflict == Some((path, copy))
            &&& !plan->mark_first
            &&& remote_is_later ==> plan->target == path && plan->backup == Some(
                (path::join_text(root, path), path::join_text(root, copy)),
            )
            &&& !remote_is_later ==> plan->target == copy && plan->backup is None
        }),
{
    clock_laws::lemma_clocks_are_compared_by_every_counter(index::clock_at(ix, path), origin.clock);
}

/// A notification of a change is judged by what it says: its path, its chunks, its clock, its time and its
/// peer.
pub proof fn lemma_a_notification_is_judged_by_what_it_says(
    path: Seq<char>,
    hash: Seq<u8>,
    chunks_changed: Seq<chunk::Meta>,
    origin: OriginModel,
    ix: IndexModel,
    root: Seq<char>,
    local_id: PeerId,
)
    ensures
        inbound::plan_for(
            NotificationModel::FileChanged {
                path,
                hash,
                chunks_changed,
                clock: origin.clock,
                timestamp: origin.timestamp,
                peer: origin.peer,
            },
            ix,
            root,
            local_id,
        ) == inbound::change_plan(path, chunks_changed, origin, ix, root, local_id),
{
}

/// When a file was last modified is what its metadata says, and the beginning of time where it is not known.
pub proof fn lemma_the_local_time_is_that_of_the_metadata(ix: IndexModel, rel: Seq<char>)
    ensures
        index::meta_at(ix, rel) matches Some(m) ==> inbound::time_at(ix, rel) == m.last_modified && index::clock_at(
            ix,
            rel,
        ) == m.clock,
        index::meta_at(ix, rel) is None ==> inbound::time_at(ix, rel) == 0 && index::clock_at(ix, rel) == Map::<
            PeerId,
            u64,
        >::empty(),
{
}

/// The segments of two texts, one behind the other: the last segment of the first and the first of the
/// second become one.
proof fn lemma_segments_join(a: Seq<char>, b: Seq<char>)
    ensures
        path::segments(a).len() > 0,
        path::segments(b).len() > 0,
        path::segments(a + b) == path::segments(a).drop_last() + seq![
            path::segments(a).last() + path::segments(b)[0],
        ] + path::segments(b).drop_first(),
    decreases b.len(),
{
    path::lemma_segments_nonempty(a);
    path::lemma_segments_nonempty(b);
    let sa = path::segments(a);
    let sb = path::segments(b);
    if b.len() == 0 {
        assert(a + b =~= a);
        assert(sa.last() + sb[0] =~= sa.last());
        assert(sa =~= sa.drop_last() + seq![sa.last() + sb[0]] + sb.drop_first());
    } else {
        let rest = b.drop_last();
        lemma_segments_join(a, rest);
        let sr = path::segments(rest);
        assert((a + b).drop_last() =~= a + rest);
        assert((a + b).last() == b.last());
        let sar = path::segments(a + rest);
        if b.last() == '/' {
            assert(sb == sr.push(Seq::<char>::empty()));
            assert(path::segments(a + b) =~= sa.drop_last() + seq![sa.last() + sb[0]] + sb.drop_first());
        } else {
            assert(sb == sr.drop_last().push(sr.last().push(b.last())));
            assert(path::segments(a + b) == sar.drop_last().push(sar.last().push(b.last())));
            if sr.len() == 1 {
                assert(sar.last() == sa.last() + sr[0]);
                assert(sb[0] == sr[0].push(b.last()));
                assert(sa.last() + sb[0] =~= (sa.last() + sr[0]).push(b.last()));
                assert(sar.drop_last() =~= sa.drop_last());
                assert(sb.drop_first() =~= Seq::<Seq<char>>::empty());
                assert(path::segments(a + b) =~= sa.drop_last() + seq![sa.last() + sb[0]] + sb.drop_first());
            } else {
                assert(sar.last() == sr.last());
                assert(sb[0] == sr[0]);
                assert(path::segments(a + b) =~= sa.drop_last() + seq![sa.last() + sb[0]] + sb.drop_first());
            }
        }
    }
}

/// A text without a slash is one segment.
proof fn lemma_one_segment(m: Seq<char>)
    requires
        !m.contains('/'),
    ensures
        path::segments(m) == seq![m],
    decreases m.len(),
{
    if m.len() > 0 {
        let rest = m.drop_last();
        assert(!rest.contains('/')) by {
            if rest.contains('/') {
                let i = choose|i: int| 0 <= i < rest.len() && rest[i] == '/';
                assert(m[i] == '/');
            }
        }
        lemma_one_segment(rest);
        assert(m.last() != '/') by {
            assert(m.contains(m[m.len() - 1]));
        }
        assert(seq![rest].drop_last().push(seq![rest].last().push(m.last())) =~= seq![m]) by {
            assert(rest.push(m.last()) =~= m);
        }
    } else {
        assert(m =~= Seq::<char>::empty());
    }
}

/// A long text put into a path between two characters leaves a path of names a path of names.
proof fn lemma_insertion_is_safe(a: Seq<char>, m: Seq<char>, b: Seq<char>)
    requires
        sync_engine::is_safe(a + b),
        !m.contains('/'),
        m.len() > 2,
    ensures
        sync_engine::is_safe(a + m + b),
        !b.contains('/') && path::segment_part((path::segments(a).last() + b)) is Some ==> path::parts(a + m + b)
            == path::parts(a + b).drop_last().push(Part::Normal(path::segments(a).last() + m + b)),
{
    let rel = a + b;
    let long = a + m + b;
    lemma_segments_join(a, b);
    lemma_segments_join(a, m);
    lemma_segments_join(a + m, b);
    lemma_one_segment(m);
    let sa = path::segments(a);
    let sb = path::segments(b);
    let sam = path::segments(a + m);
    let front = sa.drop_last();
    let back = sb.drop_first();
    let mid = sa.last() + sb[0];
    let long_mid = sa.last() + m + sb[0];
    assert(sam =~= front + seq![sa.last() + m]);
    assert(sam.drop_last() =~= front);
    assert(sam.last() == sa.last() + m);
    assert(path::segments(rel) =~= front + seq![mid] + back);
    assert(path::segments(long) =~= front + seq![long_mid] + back);
    path::lemma_segment_parts_concat(front + seq![mid], back);
    path::lemma_segment_parts_concat(front, seq![mid]);
    path::lemma_segment_parts_concat(front + seq![long_mid], back);
    path::lemma_segment_parts_concat(front, seq![long_mid]);
    let pf = path::segment_parts(front);
    let pb = path::segment_parts(back);
    let pm = path::segment_parts(seq![mid]);
    let pl = path::segment_parts(seq![long_mid]);
    assert(pl =~= seq![Part::Normal(long_mid)]) by {
        assert(seq![long_mid].drop_last() =~= Seq::<Seq<char>>::empty());
        assert(path::segment_parts(Seq::<Seq<char>>::empty()) =~= Seq::<Part>::empty());
        assert(long_mid.len() > 2);
        assert(path::segment_part(long_mid) == Some(Part::Normal(long_mid)));
        assert(path::segment_parts(seq![long_mid]) == Seq::<Part>::empty().push(Part::Normal(long_mid)));
    }
    let ps = path::parts(rel);
    let lead = path::leading_part(rel);
    assert(lead =~= Seq::<Part>::empty()) by {
        if lead.len() > 0 {
            assert(ps[0] == lead[0]);
            assert(ps[0] is Normal);
        }
    }
    assert(ps =~= pf + pm + pb);
    assert(!path::absolute(long)) by {
        if a.len() == 0 {
            assert(long[0] == m[0]);
            assert(m.contains(m[0]));
        } else {
            assert(long[0] == a[0]);
            assert(rel[0] == a[0]);
        }
    }
    assert(path::segments(long)[0] != seq!['.']) by {
        if front.len() > 0 {
            assert(path::segments(long)[0] == front[0]);
            assert(path::segments(rel)[0] == front[0]);
        } else {
            assert(path::segments(long)[0] == long_mid);
        }
    }
    assert(path::leading_part(long) =~= Seq::<Part>::empty());
    assert(path::parts(long) =~= pf + pl + pb);
    assert forall|i: int| 0 <= i < path::parts(long).len() implies #[trigger] path::parts(long)[i] is Normal by {
        if i < pf.len() {
            assert(path::parts(long)[i] == ps[i]);
        } else if i >= pf.len() + 1 {
            assert(path::parts(long)[i] == pb[i - pf.len() - 1]);
            assert(ps[i - 1 + pm.len()] == pb[i - pf.len() - 1]);
        }
    }
    if !b.contains('/') && path::segment_part(sa.last() + b) is Some {
        lemma_one_segment(b);
        assert(back =~= Seq::<Seq<char>>::empty());
        assert(pb =~= Seq::<Part>::empty());
        assert(mid =~= sa.last() + b);
        assert(seq![mid].drop_last() =~= Seq::<Seq<char>>::empty());
        assert(path::segment_parts(Seq::<Seq<char>>::empty()) =~= Seq::<Part>::empty());
        assert(pm =~= seq![path::segment_part(mid)->0]);
        assert(ps.drop_last() =~= pf);
        assert(path::parts(long) =~= ps.drop_last().push(Part::Normal(long_mid)));
    }
}

/// The texts of the digits hold no slash.
proof fn lemma_hex_has_no_slash(bytes: Seq<u8>)
    ensures
        !util::hex_text(bytes).contains('/'),
    decreases bytes.len(),
{
    if bytes.len() > 0 {
        let rest = bytes.drop_last();
        lemma_hex_has_no_slash(rest);
        let t = util::hex_text(bytes);
        assert forall|i: int| 0 <= i < t.len() implies t[i] != '/' by {
            let u = util::hex_text(rest);
            if i < u.len() {
                assert(t[i] == u[i]);
                assert(u.contains(u[i]));
            }
        }
    }
}

/// What is put into the name of a copy holds no slash.
proof fn lemma_mark_has_no_slash(peer: PeerId)
    ensures
        !(".conflict."@ + util::hex_text(peer@).take(8)).contains('/'),
        (".conflict."@ + util::hex_text(peer@).take(8)).len() == 18,
{
    let tail = util::hex_text(peer@).take(8);
    let mark = ".conflict."@ + tail;
    reveal_strlit(".conflict.");
    util::lemma_hex_text_len(peer@);
    lemma_hex_has_no_slash(peer@);
    assert(!mark.contains('/')) by {
        assert forall|i: int| 0 <= i < mark.len() implies mark[i] != '/' by {
            if i >= 10 {
                assert(mark[i] == util::hex_text(peer@)[i - 10]);
                assert(util::hex_text(peer@).contains(util::hex_text(peer@)[i - 10]));
            }
        }
    }
}

/// The copy that the loser of a conflict leaves stays in the folder: its path may be used wherever that of
/// the file may.
pub proof fn lemma_conflict_name_is_safe(original: Seq<char>, peer: PeerId)
    requires
        sync_engine::is_safe(original),
    ensures
        sync_engine::is_safe(conflict::conflict_name(original, peer)),
{
    let mark = ".conflict."@ + util::hex_text(peer@).take(8);
    lemma_mark_has_no_slash(peer);
    conflict::lemma_last_dot(original);
    match conflict::last_dot(original) {
        Some(i) => {
            let a = original.take(i);
            let b = original.skip(i);
            assert(a + b =~= original);
            lemma_insertion_is_safe(a, mark, b);
        },
        None => {
            let e = Seq::<char>::empty();
            assert(original + e =~= original);
            lemma_insertion_is_safe(original, mark, e);
            assert(original + mark + e =~= original + mark);
        },
    }
}

/// The copy that the loser of a conflict leaves stands beside the file: in the same directory, under another
/// name. A path that ends in a slash or a dot has no last name that the copy could take up.
pub proof fn lemma_copy_stands_beside_the_file(original: Seq<char>, peer: PeerId)
    requires
        sync_engine::is_safe(original),
        path::segment_part(path::segments(original).last()) is Some,
    ensures
        path::parts(conflict::conflict_name(original, peer)).len() == path::parts(original).len(),
        path::parts(conflict::conflict_name(original, peer)).drop_last() == path::parts(original).drop_last(),
        path::parts(conflict::conflict_name(original, peer)).last() != path::parts(original).last(),
{
    let tail = util::hex_text(peer@).take(8);
    let mark = ".conflict."@ + tail;
    lemma_mark_has_no_slash(peer);
    conflict::lemma_last_dot(original);
    let (a, b) = match conflict::last_dot(original) {
        Some(i) => (original.take(i), original.skip(i)),
        None => (original, Seq::<char>::empty()),
    };
    assert(a + b =~= original);
    assert(a + mark + b =~= conflict::conflict_name(original, peer));
    assert(!b.contains('/')) by {
        if b.contains('/') {
            let j = choose|j: int| 0 <= j < b.len() && b[j] == '/';
            let i = conflict::last_dot(original)->0;
            assert(original[i + j] == '/');
        }
    }
    lemma_segments_join(a, b);
    lemma_one_segment(b);
    let sa = path::segments(a);
    let last = sa.last() + b;
    assert(path::segments(original).last() == last);
    lemma_insertion_is_safe(a, mark, b);
    let ps = path::parts(original);
    let so = path::segments(original);
    assert(path::segment_parts(so) == path::segment_parts(so.drop_last()).push(path::segment_part(last)->0));
    assert(ps.last() == path::segment_part(last)->0);
    assert((sa.last() + mark + b).len() == last.len() + mark.len());
}

/// Whether a place is the root of the folder or below it.
pub open spec fn below(place: Seq<char>, root: Seq<char>) -> bool {
    path::starts_with(path::parts(place), path::parts(root))
}

/// No notification, whoever sent it, makes this peer touch anything outside its folder: what is fetched,
/// what is copied and what is deleted all stays below the root.
pub proof fn lemma_plans_stay_in_the_folder(
    notification: NotificationModel,
    ix: IndexModel,
    root: Seq<char>,
    local_id: PeerId,
)
    ensures
        match inbound::plan_for(notification, ix, root, local_id) {
            PlanModel::Fetch { backup, target, .. } => {
                &&& sync_engine::is_safe(target)
                &&& below(path::join_text(root, target), root)
                &&& backup matches Some((from, to)) ==> below(from, root) && below(to, root)
            },
            PlanModel::Delete { abs_path, .. } => below(abs_path, root),
            _ => true,
        },
{
    match notification {
        NotificationModel::FileChanged { path, clock, timestamp, peer, .. } => {
            if peer != local_id && sync_engine::is_safe(path) {
                sync_engine::lemma_safe_path_stays_below(root, path);
                match conflict::resolution(
                    index::clock_at(ix, path),
                    clock,
                    inbound::time_at(ix, path),
                    timestamp,
                    peer,
                    local_id,
                ) {
                    Resolution::Conflict { loser_peer } => {
                        lemma_conflict_name_is_safe(path, loser_peer);
                        sync_engine::lemma_safe_path_stays_below(root, conflict::conflict_name(path, loser_peer));
                    },
                    _ => {},
                }
            }
        },
        NotificationModel::FileDeleted { tombstone } => {
            if sync_engine::is_safe(tombstone.path) {
                sync_engine::lemma_safe_path_stays_below(root, tombstone.path);
            }
        },
        _ => {},
    }
}

/// Where two peers changed a file apart from each other, and each tells the other, exactly one of them
/// keeps its own version as a copy, and both give the copy the same name. Each asks for the other's version
/// under the path of the file, and one of them puts it there, the other beside it.
pub proof fn lemma_one_side_makes_the_backup(
    path: Seq<char>,
    a: IndexModel,
    b: IndexModel,
    a_chunks: Seq<chunk::Meta>,
    b_chunks: Seq<chunk::Meta>,
    a_root: Seq<char>,
    b_root: Seq<char>,
)
    requires
        sync_engine::is_safe(path),
        a.local_peer != b.local_peer,
        conflict::relation(index::clock_at(a, path), index::clock_at(b, path)) == conflict::Causality::Concurrent,
    ensures
        ({
            let from_b = OriginModel {
                clock: index::clock_at(b, path),
                timestamp: inbound::time_at(b, path),
                peer: b.local_peer,
            };
            let from_a = OriginModel {
                clock: index::clock_at(a, path),
                timestamp: inbound::time_at(a, path),
                peer: a.local_peer,
            };
            let at_a = inbound::change_plan(path, b_chunks, from_b, a, a_root, a.local_peer);
            let at_b = inbound::change_plan(path, a_chunks, from_a, b, b_root, b.local_peer);
            &&& at_a is Fetch && at_b is Fetch
            &&& at_a->backup is Some <==> at_b->backup is None
            &&& at_a->conflict is Some
            &&& at_a->conflict == at_b->conflict
            &&& at_a->source == path && at_b->source == path
            &&& at_a->target == path <==> at_b->target != path
        }),
{
    conflict::lemma_both_sides_agree(
        index::clock_at(a, path),
        index::clock_at(b, path),
        inbound::time_at(a, path),
        inbound::time_at(b, path),
        a.local_peer,
        b.local_peer,
    );
    conflict::lemma_conflict_name_keeps_extension(path, a.local_peer);
    conflict::lemma_conflict_name_keeps_extension(path, b.local_peer);
}

/// What is planned about the notice of a deletion by another peer is the deletion, of that file and with that
/// tombstone.
pub proof fn lemma_planning_a_deletion(
    tombstone: Tombstone,
    index: &SyncIndex,
    root: &str,
    local_id: PeerId,
    plan: NotificationPlan,
)
    requires
        index.wf(),
        call_ensures(
            inbound::plan_notification,
            (SyncNotification::FileDeleted { tombstone }, index, root, local_id),
            plan,
        ),
        tombstone.deleted_by != local_id,
        sync_engine::is_safe(tombstone.path@),
    ensures
        plan matches NotificationPlan::Delete { abs_path, tombstone: kept } && abs_path@ == path::join_text(
            root@,
            tombstone.path@,
        ) && kept@ == tombstone@,
{
    let notification = SyncNotification::FileDeleted { tombstone };
    assert(notification@ is FileDeleted);
}

} // verus!
