//! What a value says is what it holds: messages, events and lists are read whole, field by field.

use vstd::prelude::*;

use crate::chunk;
use crate::chunk::ChunkMeta;
use crate::config::{NetworkConfig, P2SyncConfig};
use crate::conflict::{PeerId, Tombstone, VectorClock};
use crate::inbound::{Answer, AnswerModel};
use crate::index;
use crate::index::{FileMeta, SyncIndex};
use crate::merkle;
use crate::merkle::{Change, DiffEntry, Node, Tree};
use crate::network;
use crate::network::StartStep;
use crate::path;
use crate::path::{Component, Part};
use crate::progress;
use crate::progress::Output;
use crate::protocol;
use crate::protocol::{
    NotificationModel, RequestModel, ResponseModel, SyncNotification, SyncRequest, SyncResponse,
};
use crate::reconcile;
use crate::reconcile::FetchItem;
use crate::swarm;
use crate::swarm::SwarmAction;
use crate::sync_engine;
use crate::sync_engine::{EventModel, RemoteOrigin, SyncEvent, TransferDirection};
use crate::text;
use crate::tui;
use crate::tui::{AppState, PeerInfo, TransferInfo};
use crate::watcher::{FsEvent, FsEventModel};

verus! {

broadcast use vstd::seq::group_seq_axioms;

/// A list of events, outputs, actions or steps says what each of its items says, in their order.
pub proof fn lemma_lists_of_what_is_done(
    events: Seq<SyncEvent>,
    outputs: Seq<Output>,
    actions: Seq<SwarmAction>,
    steps: Seq<StartStep>,
    i: int,
)
    ensures
        sync_engine::events_model(events).len() == events.len(),
        0 <= i < events.len() ==> sync_engine::events_model(events)[i] == events[i]@,
        progress::outputs_model(outputs).len() == outputs.len(),
        0 <= i < outputs.len() ==> progress::outputs_model(outputs)[i] == outputs[i]@,
        swarm::actions_model(actions).len() == actions.len(),
        0 <= i < actions.len() ==> swarm::actions_model(actions)[i] == actions[i]@,
        network::steps_model(steps).len() == steps.len(),
        0 <= i < steps.len() ==> network::steps_model(steps)[i] == steps[i]@,
{
}

/// A list of texts, chunks, files, differences, tombstones or components says what each of its items says, in
/// their order.
pub proof fn lemma_lists_of_what_is_there(
    texts: Seq<String>,
    metas: Seq<ChunkMeta>,
    chunks: Seq<(usize, Vec<u8>)>,
    items: Seq<FetchItem>,
    diffs: Seq<DiffEntry>,
    tombstones: Seq<Tombstone>,
    components: Seq<Component>,
    i: int,
)
    ensures
        text::texts(texts).len() == texts.len(),
        0 <= i < texts.len() ==> text::texts(texts)[i] == texts[i]@,
        chunk::metas_view(metas).len() == metas.len(),
        0 <= i < metas.len() ==> chunk::metas_view(metas)[i] == metas[i]@,
        protocol::chunk_views(chunks).len() == chunks.len(),
        0 <= i < chunks.len() ==> protocol::chunk_views(chunks)[i] == (chunks[i].0, chunks[i].1@),
        reconcile::items_model(items).len() == items.len(),
        0 <= i < items.len() ==> reconcile::items_model(items)[i] == items[i]@,
        merkle::changes(diffs).len() == diffs.len(),
        0 <= i < diffs.len() ==> merkle::changes(diffs)[i] == diffs[i]@,
        index::tombstone_models(tombstones).len() == tombstones.len(),
        0 <= i < tombstones.len() ==> index::tombstone_models(tombstones)[i] == tombstones[i]@,
        path::views(components).len() == components.len(),
        0 <= i < components.len() ==> path::views(components)[i] == components[i]@,
{
}

/// A list of peers or transfers on the dashboard says what each of its items says.
pub proof fn lemma_lists_on_the_dashboard(peers: Seq<PeerInfo>, transfers: Seq<TransferInfo>, i: int)
    ensures
        tui::peers_model(peers).len() == peers.len(),
        0 <= i < peers.len() ==> tui::peers_model(peers)[i].id == peers[i].id@ && tui::peers_model(peers)[i].last_sync
            == peers[i].last_sync && tui::peers_model(peers)[i].connected == peers[i].connected,
        tui::transfers_model(transfers).len() == transfers.len(),
        0 <= i < transfers.len() ==> tui::transfers_model(transfers)[i].path == transfers[i].path@
            && tui::transfers_model(transfers)[i].direction == transfers[i].direction && tui::transfers_model(
            transfers,
        )[i].current_chunk == transfers[i].current_chunk && tui::transfers_model(transfers)[i].total_chunks
            == transfers[i].total_chunks,
{
}

/// What chunk information, metadata, a tombstone, an origin and a file to fetch say.
pub proof fn lemma_what_records_say(m: ChunkMeta, f: FileMeta, t: Tombstone, o: RemoteOrigin, item: FetchItem)
    ensures
        m@.index == m.index && m@.offset == m.offset && m@.len == m.len && m@.hash == m.hash@,
        f@.clock == f.clock@ && f@.last_modified == f.last_modified && f@.last_modified_by == f.last_modified_by,
        t@.path == t.path@ && t@.deleted_by == t.deleted_by && t@.clock == t.clock@ && t@.timestamp == t.timestamp,
        o@.clock == o.clock@ && o@.timestamp == o.timestamp && o@.peer == o.peer,
        item@.path == item.path@ && item@.size == item.size && item@.chunks == chunk::metas_view(item.chunks@),
{
}

/// What the requests of peers say.
pub proof fn lemma_what_requests_say(path: String, chunk_indices: Vec<usize>)
    ensures
        SyncRequest::GetRootHash@ == RequestModel::RootHash,
        SyncRequest::GetTree@ == RequestModel::WholeTree,
        (SyncRequest::GetSubtree { path })@ == (RequestModel::Subtree { path: path@ }),
        (SyncRequest::GetChunks { path, chunk_indices })@ == (RequestModel::Chunks {
            path: path@,
            chunk_indices: chunk_indices@,
        }),
        (SyncRequest::GetFileMeta { path })@ == (RequestModel::FileMeta { path: path@ }),
{
}

/// What the responses of peers say.
pub proof fn lemma_what_responses_say(
    hash: [u8; 32],
    tree: Node,
    path: String,
    chunks: Vec<(usize, Vec<u8>)>,
    clock: VectorClock,
    last_modified: u64,
    message: String,
)
    ensures
        (SyncResponse::RootHash { hash })@ == (ResponseModel::RootHash { hash: hash@ }),
        (SyncResponse::Tree { tree })@ == (ResponseModel::WholeTree { tree: tree.model() }),
        (SyncResponse::Subtree { path, node: Some(tree) })@ == (ResponseModel::Subtree {
            path: path@,
            node: Some(tree.model()),
        }),
        (SyncResponse::Subtree { path, node: None })@ == (ResponseModel::Subtree { path: path@, node: None }),
        (SyncResponse::Chunks { path, chunks })@ == (ResponseModel::Chunks {
            path: path@,
            chunks: protocol::chunk_views(chunks@),
        }),
        (SyncResponse::FileMeta { path, clock: Some(clock), last_modified })@ == (ResponseModel::FileMeta {
            path: path@,
            clock: Some(clock@),
            last_modified,
        }),
        (SyncResponse::FileMeta { path, clock: None, last_modified })@ == (ResponseModel::FileMeta {
            path: path@,
            clock: None,
            last_modified,
        }),
        (SyncResponse::Error { message })@ == (ResponseModel::Failure { message: message@ }),
{
}

/// What the notifications of peers say.
pub proof fn lemma_what_notifications_say(
    path: String,
    hash: [u8; 32],
    chunks_changed: Vec<ChunkMeta>,
    clock: VectorClock,
    timestamp: u64,
    peer: PeerId,
    tombstone: Tombstone,
)
    ensures
        (SyncNotification::FileChanged { path, hash, chunks_changed, clock, timestamp, peer })@ == (
        NotificationModel::FileChanged {
            path: path@,
            hash: hash@,
            chunks_changed: chunk::metas_view(chunks_changed@),
            clock: clock@,
            timestamp,
            peer,
        }),
        (SyncNotification::FileDeleted { tombstone })@ == (NotificationModel::FileDeleted { tombstone: tombstone@ }),
        (SyncNotification::PeerJoined { peer })@ == (NotificationModel::PeerJoined { peer }),
{
}

/// What the events for the user say.
pub proof fn lemma_what_events_say(a: String, b: String, n: usize, k: usize, size: u64, direction: TransferDirection)
    ensures
        (SyncEvent::IndexReady { file_count: n, total_size: size })@ == (EventModel::IndexReady {
            file_count: n,
            total_size: size,
        }),
        SyncEvent::PeerConnected(a)@ == EventModel::PeerConnected(a@),
        SyncEvent::PeerDisconnected(a)@ == EventModel::PeerDisconnected(a@),
        SyncEvent::Listening(a)@ == EventModel::Listening(a@),
        (SyncEvent::TransferStarted { path: a, direction, total_chunks: n })@ == (EventModel::TransferStarted {
            path: a@,
            direction,
            total_chunks: n,
        }),
        (SyncEvent::ChunkTransferred { path: a, direction, chunk_index: k, total_chunks: n })@ == (
        EventModel::ChunkTransferred { path: a@, direction, chunk_index: k, total_chunks: n }),
        (SyncEvent::TransferComplete { path: a, direction })@ == (EventModel::TransferComplete { path: a@, direction }),
        (SyncEvent::Conflict { path: a, conflict_path: b })@ == (EventModel::Conflict { path: a@, conflict_path: b@ }),
        (SyncEvent::RemoteDelete { path: a })@ == (EventModel::RemoteDelete { path: a@ }),
        (SyncEvent::ReconciliationComplete { peer: a, files_synced: n })@ == (EventModel::ReconciliationComplete {
            peer: a@,
            files_synced: n,
        }),
        SyncEvent::Log(a)@ == EventModel::Log(a@),
        FsEvent::Created(a)@ == FsEventModel::Created(a@),
        FsEvent::Modified(a)@ == FsEventModel::Modified(a@),
        FsEvent::Removed(a)@ == FsEventModel::Removed(a@),
{
}

/// What nodes, differences and components of paths say.
pub proof fn lemma_what_nodes_say(
    hash: [u8; 32],
    size: u64,
    chunks: Vec<ChunkMeta>,
    a: Node,
    b: Node,
    p: String,
    directory: Node,
    i: int,
)
    ensures
        (Node::File { hash, size, chunks }).model() == (Tree::File {
            hash: hash@,
            size,
            chunks: chunk::metas_view(chunks@),
        }),
        directory matches Node::Directory { hash: h, children } ==> {
            &&& directory.model() is Directory
            &&& merkle::tree_hash(directory.model()) == h@
            &&& directory.model()->children.len() == children@.len()
            &&& 0 <= i < children@.len() ==> directory.model()->children[i] == (
                children@[i].0,
                children@[i].1.model(),
            )
        },
        DiffEntry::Added(p, a)@ == Change::Added(p@, a.model()),
        DiffEntry::Removed(p, a)@ == Change::Removed(p@, a.model()),
        DiffEntry::Modified(p, a, b)@ == Change::Modified(p@, a.model(), b.model()),
        Component::Normal(p)@ == Part::Normal(p@),
        Component::Root@ == Part::Root,
        Component::Current@ == Part::Current,
        Component::Parent@ == Part::Parent,
{
    if let Node::Directory { hash: h, children } = directory {
        merkle::lemma_directory_model(h, children);
    }
}

/// What an index, a dashboard and a configuration say.
pub proof fn lemma_what_states_say(ix: SyncIndex, s: AppState, c: P2SyncConfig, n: NetworkConfig)
    ensures
        ix@.tree == ix.tree.model(),
        ix@.tombstones == index::tombstone_models(ix.tombstones@),
        ix@.local_peer == ix.local_peer,
        ix@.root_path == ix.root_path@,
        ix@.exclude_patterns == text::texts(ix.exclude_patterns@),
        ix@.chunk_size == ix.chunk_size,
        ix@.tombstone_ttl_secs == ix.tombstone_ttl_secs,
        ix@.file_meta.len() == ix.file_meta@.len(),
        forall|i: int| #![trigger ix@.file_meta[i]]
            0 <= i < ix.file_meta@.len() ==> ix@.file_meta[i] == (ix.file_meta@[i].0, ix.file_meta@[i].1@),
        s@.peer_id == s.peer_id@,
        s@.group_id == s.group_id@,
        s@.root_path == s.root_path@,
        s@.file_count == s.file_count,
        s@.total_size == s.total_size,
        s@.listen_addrs == text::texts(s.listen_addrs@),
        s@.peers == tui::peers_model(s.peers@),
        s@.transfers == tui::transfers_model(s.transfers@),
        s@.journal == text::texts(s.journal@),
        s@.tui_config == s.tui_config,
        c@.storage == c.storage,
        c@.network == c.network@,
        c@.watcher == c.watcher,
        c@.tui == c.tui,
        c@.default_excludes == text::texts(c.default_excludes@),
        n@.discovery == n.discovery,
        n@.relay == n.relay@,
{
}

/// What an answer to a request says.
pub proof fn lemma_what_answers_say(r: SyncResponse, abs_path: String, path: String, chunk_indices: Vec<usize>)
    ensures
        Answer::Reply(r)@ == AnswerModel::Reply(r@),
        (Answer::ReadFile { abs_path, path, chunk_indices })@ == (AnswerModel::ReadFile {
            abs_path: abs_path@,
            path: path@,
            chunk_indices: chunk_indices@,
        }),
{
}

} // verus!
