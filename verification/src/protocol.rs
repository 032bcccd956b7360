//! The messages that peers exchange.

use vstd::prelude::*;

use crate::chunk;
use crate::chunk::ChunkMeta;
use crate::conflict::{PeerId, Tombstone, TombstoneModel, VectorClock};
use crate::merkle::{Node, Tree};
use crate::text;

verus! {

broadcast use {vstd::string::group_string_axioms, vstd::seq::group_seq_axioms};

/// Request types for the sync protocol.
#[derive(Debug, PartialEq, Eq)]
pub enum SyncRequest {
    /// Request the peer's Merkle tree root hash.
    GetRootHash,
    /// Request the full Merkle tree for reconciliation.
    GetTree,
    /// Request a subtree at a given path for partial reconciliation.
    GetSubtree { path: String },
    /// Request specific chunks of a file.
    GetChunks { path: String, chunk_indices: Vec<usize> },
    /// Request file metadata (clock, timestamp).
    GetFileMeta { path: String },
}

/// What a request asks.
#[verifier::ext_equal]
pub ghost enum RequestModel {
    RootHash,
    WholeTree,
    Subtree { path: Seq<char> },
    Chunks { path: Seq<char>, chunk_indices: Seq<usize> },
    FileMeta { path: Seq<char> },
}

impl View for SyncRequest {
    type V = RequestModel;

    open spec fn view(&self) -> RequestModel {
        match *self {
            SyncRequest::GetRootHash => RequestModel::RootHash,
            SyncRequest::GetTree => RequestModel::WholeTree,
            SyncRequest::GetSubtree { path } => RequestModel::Subtree { path: path@ },
            SyncRequest::GetChunks { path, chunk_indices } => RequestModel::Chunks {
                path: path@,
                chunk_indices: chunk_indices@,
            },
            SyncRequest::GetFileMeta { path } => RequestModel::FileMeta { path: path@ },
        }
    }
}

/// Response types for the sync protocol.
#[derive(Debug, PartialEq, Eq)]
pub enum SyncResponse {
    /// The peer's root hash.
    RootHash { hash: [u8; 32] },
    /// The full Merkle tree.
    Tree { tree: Node },
    /// A subtree at the requested path.
    Subtree { path: String, node: Option<Node> },
    /// Requested chunk data.
    Chunks { path: String, chunks: Vec<(usize, Vec<u8>)> },
    /// File metadata.
    FileMeta { path: String, clock: Option<VectorClock>, last_modified: u64 },
    /// An error occurred processing the request.
    Error { message: String },
}

/// What a response says.
#[verifier::ext_equal]
pub ghost enum ResponseModel {
    RootHash { hash: Seq<u8> },
    WholeTree { tree: Tree },
    Subtree { path: Seq<char>, node: Option<Tree> },
    Chunks { path: Seq<char>, chunks: Seq<(usize, Seq<u8>)> },
    FileMeta { path: Seq<char>, clock: Option<Map<PeerId, u64>>, last_modified: u64 },
    Failure { message: Seq<char> },
}

/// What chunks with their places hold.
pub open spec fn chunk_views(v: Seq<(usize, Vec<u8>)>) -> Seq<(usize, Seq<u8>)> {
    v.map_values(|c: (usize, Vec<u8>)| (c.0, c.1@))
}

impl View for SyncResponse {
    type V = ResponseModel;

    open spec fn view(&self) -> ResponseModel {
        match *self {
            SyncResponse::RootHash { hash } => ResponseModel::RootHash { hash: hash@ },
            SyncResponse::Tree { tree } => ResponseModel::WholeTree { tree: tree.model() },
            SyncResponse::Subtree { path, node } => ResponseModel::Subtree {
                path: path@,
                node: match node {
                    Some(n) => Some(n.model()),
                    None => None,
                },
            },
            SyncResponse::Chunks { path, chunks } => ResponseModel::Chunks {
                path: path@,
                chunks: chunk_views(chunks@),
            },
            SyncResponse::FileMeta { path, clock, last_modified } => ResponseModel::FileMeta {
                path: path@,
                clock: match clock {
                    Some(c) => Some(c@),
                    None => None,
                },
                last_modified,
            },
            SyncResponse::Error { message } => ResponseModel::Failure { message: message@ },
        }
    }
}

/// GossipSub notification messages for real-time sync.
#[derive(Debug, PartialEq, Eq)]
pub enum SyncNotification {
    /// A file was modified by a peer.
    FileChanged {
        path: String,
        /// Aggregate file hash after modification.
        hash: [u8; 32],
        /// Changed chunks metadata (enables incremental transfer).
        chunks_changed: Vec<ChunkMeta>,
        /// Vector clock at time of modification.
        clock: VectorClock,
        timestamp: u64,
        /// Short peer ID of the modifier.
        peer: PeerId,
    },
    /// A file was deleted.
    FileDeleted { tombstone: Tombstone },
    /// A new peer joined the sync group.
    PeerJoined { peer: PeerId },
}

/// What a notification says.
#[verifier::ext_equal]
pub ghost enum NotificationModel {
    FileChanged {
        path: Seq<char>,
        hash: Seq<u8>,
        chunks_changed: Seq<chunk::Meta>,
        clock: Map<PeerId, u64>,
        timestamp: u64,
        peer: PeerId,
    },
    FileDeleted { tombstone: TombstoneModel },
    PeerJoined { peer: PeerId },
}

impl View for SyncNotification {
    type V = NotificationModel;

    open spec fn view(&self) -> NotificationModel {
        match *self {
            SyncNotification::FileChanged { path, hash, chunks_changed, clock, timestamp, peer } => {
                NotificationModel::FileChanged {
                    path: path@,
                    hash: hash@,
                    chunks_changed: chunk::metas_view(chunks_changed@),
                    clock: clock@,
                    timestamp,
                    peer,
                }
            },
            SyncNotification::FileDeleted { tombstone } => NotificationModel::FileDeleted { tombstone: tombstone@ },
            SyncNotification::PeerJoined { peer } => NotificationModel::PeerJoined { peer },
        }
    }
}

/// The GossipSub topic name for a sync group.
pub fn sync_topic(group_id: &str) -> (topic: String)
    ensures
        topic@ == "p2sync/"@ + group_id@,
{
    text::joined("p2sync/", group_id)
}

/// Different groups have different topics.
pub proof fn lemma_topics_differ(a: Seq<char>, b: Seq<char>)
    ensures
        "p2sync/"@ + a == "p2sync/"@ + b <==> a == b,
{
    let head = "p2sync/"@;
    if head + a == head + b {
        assert((head + a).skip(head.len() as int) =~= a);
        assert((head + b).skip(head.len() as int) =~= b);
    }
}

} // verus!
