//! What comes in from peers: requests and notifications, and what is to be done about them.

use vstd::prelude::*;

use crate::chunk;
use crate::chunk::ChunkMeta;
use crate::conflict;
use crate::conflict::{PeerId, Resolution, Tombstone, TombstoneModel, conflict_filename, resolve};
use crate::index;
use crate::index::{IndexModel, SyncIndex};
use crate::merkle;
use crate::merkle::remove_path;
use crate::names;
use crate::path;
use crate::peers::same_peer;
use crate::protocol::{NotificationModel, RequestModel, ResponseModel, SyncNotification, SyncRequest, SyncResponse};
use crate::sync_engine;
use crate::sync_engine::{EventModel, OriginModel, RemoteOrigin, SyncEvent, find_node, safe_path};
use crate::text;

verus! {

broadcast use {vstd::string::group_string_axioms, vstd::seq::group_seq_axioms};

/// What is done about a request.
pub enum Answer {
    /// It is answered at once.
    Reply(SyncResponse),
    /// The file at `abs_path` is read first, for its chunks.
    ReadFile { abs_path: String, path: String, chunk_indices: Vec<usize> },
}

/// What is done about a request, as a value of specifications.
#[verifier::ext_equal]
pub ghost enum AnswerModel {
    Reply(ResponseModel),
    ReadFile { abs_path: Seq<char>, path: Seq<char>, chunk_indices: Seq<usize> },
}

impl View for Answer {
    type V = AnswerModel;

    open spec fn view(&self) -> AnswerModel {
        match *self {
            Answer::Reply(r) => AnswerModel::Reply(r@),
            Answer::ReadFile { abs_path, path, chunk_indices } => AnswerModel::ReadFile {
                abs_path: abs_path@,
                path: path@,
                chunk_indices: chunk_indices@,
            },
        }
    }
}

/// The answer that an index gives to a request.
pub open spec fn answer_to(request: RequestModel, ix: IndexModel, root: Seq<char>) -> AnswerModel {
    match request {
        RequestModel::RootHash => AnswerModel::Reply(
            ResponseModel::RootHash { hash: merkle::tree_hash(ix.tree) },
        ),
        RequestModel::WholeTree => AnswerModel::Reply(ResponseModel::WholeTree { tree: ix.tree }),
        RequestModel::Subtree { path } => AnswerModel::Reply(
            ResponseModel::Subtree { path, node: merkle::find(ix.tree, path::path_names(path)) },
        ),
        RequestModel::Chunks { path, chunk_indices } => if !sync_engine::is_safe(path) {
            AnswerModel::Reply(ResponseModel::Failure { message: "invalid path"@ })
        } else if index::excluded(path::join_text(root, path), ix.root_path, ix.exclude_patterns) {
            AnswerModel::Reply(ResponseModel::Failure { message: "excluded path"@ })
        } else {
            AnswerModel::ReadFile { abs_path: path::join_text(root, path), path, chunk_indices }
        },
        RequestModel::FileMeta { path } => AnswerModel::Reply(
            match index::meta_at(ix, path) {
                Some(m) => ResponseModel::FileMeta { path, clock: Some(m.clock), last_modified: m.last_modified },
                None => ResponseModel::FileMeta { path, clock: None, last_modified: 0 },
            },
        ),
    }
}

/// Answers a request, as far as the index can.
pub fn answer_request(request: SyncRequest, index: &SyncIndex, root: &str) -> (r: Answer)
    requires
        index.wf(),
    ensures
        r@ == answer_to(request@, index@, root@),
{
    match request {
        SyncRequest::GetRootHash => Answer::Reply(SyncResponse::RootHash { hash: *index.tree.hash() }),
        SyncRequest::GetTree => Answer::Reply(SyncResponse::Tree { tree: index.tree.clone() }),
        SyncRequest::GetSubtree { path } => {
            let node = match find_node(&index.tree, path.as_str()) {
                Some(n) => Some(n.clone()),
                None => None,
            };
            Answer::Reply(SyncResponse::Subtree { path, node })
        },
        SyncRequest::GetChunks { path, chunk_indices } => {
            match safe_path(root, path.as_str()) {
                Some(abs_path) => {
                    if index.is_excluded(abs_path.as_str()) {
                        return Answer::Reply(SyncResponse::Error { message: "excluded path".to_owned() });
                    }
                    Answer::ReadFile { abs_path, path, chunk_indices }
                },
                None => Answer::Reply(SyncResponse::Error { message: "invalid path".to_owned() }),
            }
        },
        SyncRequest::GetFileMeta { path } => {
            match index.meta(path.as_str()) {
                Some(m) => {
                    let clock = m.clock.clone();
                    let last_modified: u64 = m.last_modified;
                    Answer::Reply(SyncResponse::FileMeta { path, clock: Some(clock), last_modified })
                },
                None => Answer::Reply(SyncResponse::FileMeta { path, clock: None, last_modified: 0 }),
            }
        },
    }
}

/// The response where the file cannot be read.
pub fn read_failed(error: &str) -> (r: SyncResponse)
    ensures
        r@ == (ResponseModel::Failure { message: "read error: "@ + error@ }),
{
    SyncResponse::Error { message: text::joined("read error: ", error) }
}

/// What is done about a notification.
pub enum NotificationPlan {
    /// It does not concern this peer.
    Nothing,
    /// The path may not be used.
    Refused,
    /// What this peer has is no older.
    Rejected,
    /// A version is fetched.
    Fetch {
        /// Where the local version is copied to first, and from where, if it exists.
        backup: Option<(String, String)>,
        /// Whether the watcher is told of the write before the download.
        mark_first: bool,
        /// The path that the version has at the peer, under which it is asked for.
        source: String,
        /// Where the version goes.
        target: String,
        /// The chunks that changed, as the peer tells.
        chunks: Vec<ChunkMeta>,
        origin: RemoteOrigin,
        /// The conflict that is told once the version is there: the path, and that of the copy.
        conflict: Option<(String, String)>,
    },
    /// What stands at `abs_path` is deleted.
    Delete { abs_path: String, tombstone: Tombstone },
}

/// What is done about a notification, as a value of specifications.
#[verifier::ext_equal]
pub ghost enum PlanModel {
    Nothing,
    Refused,
    Rejected,
    Fetch {
        backup: Option<(Seq<char>, Seq<char>)>,
        mark_first: bool,
        source: Seq<char>,
        target: Seq<char>,
        chunks: Seq<chunk::Meta>,
        origin: OriginModel,
        conflict: Option<(Seq<char>, Seq<char>)>,
    },
    Delete { abs_path: Seq<char>, tombstone: TombstoneModel },
}

/// Two texts as one value.
pub open spec fn pair_view(p: Option<(String, String)>) -> Option<(Seq<char>, Seq<char>)> {
    match p {
        Some((a, b)) => Some((a@, b@)),
        None => None,
    }
}

impl View for NotificationPlan {
    type V = PlanModel;

    open spec fn view(&self) -> PlanModel {
        match *self {
            NotificationPlan::Nothing => PlanModel::Nothing,
            NotificationPlan::Refused => PlanModel::Refused,
            NotificationPlan::Rejected => PlanModel::Rejected,
            NotificationPlan::Fetch { backup, mark_first, source, target, chunks, origin, conflict } => PlanModel::Fetch {
                backup: pair_view(backup),
                mark_first,
                source: source@,
                target: target@,
                chunks: chunk::metas_view(chunks@),
                origin: origin@,
                conflict: pair_view(conflict),
            },
            NotificationPlan::Delete { abs_path, tombstone } => PlanModel::Delete {
                abs_path: abs_path@,
                tombstone: tombstone@,
            },
        }
    }
}

/// When the file at a path was last modified, as far as is known.
pub open spec fn time_at(ix: IndexModel, rel: Seq<char>) -> u64 {
    match index::meta_at(ix, rel) {
        Some(m) => m.last_modified,
        None => 0,
    }
}

/// What is done about a file that a peer changed.
pub open spec fn change_plan(
    path: Seq<char>,
    chunks: Seq<chunk::Meta>,
    origin: OriginModel,
    ix: IndexModel,
    root: Seq<char>,
    local_id: PeerId,
) -> PlanModel {
    if origin.peer == local_id {
        PlanModel::Nothing
    } else if !sync_engine::is_safe(path) {
        PlanModel::Refused
    } else {
        match conflict::resolution(
            index::clock_at(ix, path),
            origin.clock,
            time_at(ix, path),
            origin.timestamp,
            origin.peer,
            local_id,
        ) {
            Resolution::Accept => PlanModel::Fetch {
                backup: None,
                mark_first: true,
                source: path,
                target: path,
                chunks,
                origin,
                conflict: None,
            },
            Resolution::Reject => PlanModel::Rejected,
            Resolution::Conflict { loser_peer } => {
                let copy = conflict::conflict_name(path, loser_peer);
                if loser_peer == local_id {
                    PlanModel::Fetch {
                        backup: Some((path::join_text(root, path), path::join_text(root, copy))),
                        mark_first: false,
                        source: path,
                        target: path,
                        chunks,
                        origin,
                        conflict: Some((path, copy)),
                    }
                } else {
                    PlanModel::Fetch {
                        backup: None,
                        mark_first: false,
                        source: path,
                        target: copy,
                        chunks,
                        origin,
                        conflict: Some((path, copy)),
                    }
                }
            },
        }
    }
}

/// What is done about a notification.
pub open spec fn plan_for(
    notification: NotificationModel,
    ix: IndexModel,
    root: Seq<char>,
    local_id: PeerId,
) -> PlanModel {
    match notification {
        NotificationModel::FileChanged { path, chunks_changed, clock, timestamp, peer, .. } => change_plan(
            path,
            chunks_changed,
            OriginModel { clock, timestamp, peer },
            ix,
            root,
            local_id,
        ),
        NotificationModel::FileDeleted { tombstone } => if tombstone.deleted_by == local_id {
            PlanModel::Nothing
        } else if !sync_engine::is_safe(tombstone.path) {
            PlanModel::Refused
        } else {
            PlanModel::Delete { abs_path: path::join_text(root, tombstone.path), tombstone }
        },
        NotificationModel::PeerJoined { .. } => PlanModel::Nothing,
    }
}

fn plan_change(
    path: String,
    chunks: Vec<ChunkMeta>,
    origin: RemoteOrigin,
    index: &SyncIndex,
    root: &str,
    local_id: PeerId,
) -> (r: NotificationPlan)
    requires
        index.wf(),
    ensures
        r@ == change_plan(path@, chunk::metas_view(chunks@), origin@, index@, root@, local_id),
{
    // Ignore our own notifications (GossipSub may echo them back)
    if same_peer(&origin.peer, &local_id) {
        return NotificationPlan::Nothing;
    }
    let abs_path = match safe_path(root, path.as_str()) {
        Some(abs_path) => abs_path,
        None => {
            return NotificationPlan::Refused;
        },
    };
    let local_clock = index.clock(path.as_str());
    let local_ts: u64 = match index.meta(path.as_str()) {
        Some(m) => m.last_modified,
        None => 0,
    };
    match resolve(&local_clock, &origin.clock, local_ts, origin.timestamp, origin.peer, local_id) {
        Resolution::Accept => {
            let source = path.clone();
            NotificationPlan::Fetch {
                backup: None,
                mark_first: true,
                source,
                target: path,
                chunks,
                origin,
                conflict: None,
            }
        },
        Resolution::Reject => NotificationPlan::Rejected,
        Resolution::Conflict { loser_peer } => {
            let copy = conflict_filename(path.as_str(), &loser_peer);
            let source = path.clone();
            if same_peer(&loser_peer, &local_id) {
                let backup = path::join(root, copy.as_str());
                let target = path.clone();
                NotificationPlan::Fetch {
                    backup: Some((abs_path, backup)),
                    mark_first: false,
                    source,
                    target,
                    chunks,
                    origin,
                    conflict: Some((path, copy)),
                }
            } else {
                let target = copy.clone();
                NotificationPlan::Fetch {
                    backup: None,
                    mark_first: false,
                    source,
                    target,
                    chunks,
                    origin,
                    conflict: Some((path, copy)),
                }
            }
        },
    }
}

/// Decides what is done about a notification.
pub fn plan_notification(
    notification: SyncNotification,
    index: &SyncIndex,
    root: &str,
    local_id: PeerId,
) -> (r: NotificationPlan)
    requires
        index.wf(),
    ensures
        r@ == plan_for(notification@, index@, root@, local_id),
{
    match notification {
        SyncNotification::FileChanged { path, hash: _, chunks_changed, clock, timestamp, peer } => {
            let origin = RemoteOrigin { clock, timestamp, peer };
            plan_change(path, chunks_changed, origin, index, root, local_id)
        },
        SyncNotification::FileDeleted { tombstone } => {
            if same_peer(&tombstone.deleted_by, &local_id) {
                return NotificationPlan::Nothing;
            }
            match safe_path(root, tombstone.path.as_str()) {
                Some(abs_path) => NotificationPlan::Delete { abs_path, tombstone },
                None => NotificationPlan::Refused,
            }
        },
        SyncNotification::PeerJoined { .. } => NotificationPlan::Nothing,
    }
}

/// The index once a peer has deleted a file.
pub open spec fn after_remote_delete(ix: IndexModel, tombstone: TombstoneModel) -> IndexModel {
    IndexModel {
        tree: merkle::tree_remove(ix.tree, path::path_names(tombstone.path)),
        file_meta: names::without(index::outside(ix.file_meta, tombstone.path), path::clean_text(tombstone.path)),
        tombstones: ix.tombstones.push(tombstone),
        ..ix
    }
}

/// Takes the deletion of a file by a peer into the index.
pub fn commit_delete(index: &mut SyncIndex, tombstone: Tombstone) -> (event: SyncEvent)
    requires
        old(index).wf(),
    ensures
        final(index).wf(),
        final(index)@ == after_remote_delete(old(index)@, tombstone@),
        event@ == (EventModel::RemoteDelete { path: tombstone.path@ }),
{
    let path = tombstone.path.clone();
    remove_path(&mut index.tree, path.as_str());
    index.drop_meta(path.as_str());
    index.add_tombstone(tombstone);
    assert(index@ =~= after_remote_delete(old(index)@, tombstone@));
    SyncEvent::RemoteDelete { path }
}

} // verus!
