//! Chunks on their way: which are served, which are asked for, and what they make of a file.

use vstd::prelude::*;

use crate::chunk;
use crate::chunk::ChunkMeta;
use crate::config::StorageConfig;
use crate::conflict;
use crate::hash;
use crate::hash::same_hash;
use crate::index;
use crate::index::{FileMeta, IndexModel, MetaModel, SyncIndex};
use crate::merkle;
use crate::merkle::{Node, Tree, update_file_with_chunk_size};
use crate::names;
use crate::path;
use crate::protocol;
use crate::protocol::{RequestModel, ResponseModel, SyncRequest, SyncResponse};
use crate::sync_engine;
use crate::sync_engine::{EventModel, OriginModel, RemoteOrigin, SyncEvent, TransferDirection, safe_path};
use crate::text;

verus! {

broadcast use {vstd::string::group_string_axioms, vstd::seq::group_seq_axioms};

/// The requested chunks of a file, in the order of the request. Indices beyond the limit or beyond the
/// file are left out.
pub open spec fn served(
    data: Seq<u8>,
    indices: Seq<usize>,
    chunk_size: nat,
    max_chunk_index: nat,
) -> Seq<(usize, Seq<u8>)>
    decreases indices.len(),
{
    if indices.len() == 0 {
        Seq::empty()
    } else {
        let before = served(data, indices.drop_last(), chunk_size, max_chunk_index);
        let i = indices.last();
        if i < max_chunk_index && i < chunk::chunk_count(data.len(), chunk_size) {
            before.push((i, chunk::piece(data, chunk_size, i as int)))
        } else {
            before
        }
    }
}

/// The chunks of a file that a peer asked for.
pub fn serve_chunks(path: String, data: &[u8], chunk_indices: &Vec<usize>, storage: &StorageConfig) -> (r: SyncResponse)
    requires
        storage.chunk_size > 0,
    ensures
        r@ == (ResponseModel::Chunks {
            path: path@,
            chunks: served(data@, chunk_indices@, storage.chunk_size as nat, storage.max_chunk_index as nat),
        }),
{
    let ghost cs = storage.chunk_size as nat;
    let ghost most = storage.max_chunk_index as nat;
    let (metas, all) = chunk::split(data, storage.chunk_size);
    assert(all@.len() == chunk::chunk_count(data@.len(), cs)) by {
        assert(chunk::metas_view(metas@).len() == metas@.len());
    }
    let mut requested: Vec<(usize, Vec<u8>)> = Vec::new();
    let mut i: usize = 0;
    assert(protocol::chunk_views(requested@) =~= served(data@, chunk_indices@.take(0), cs, most));
    while i < chunk_indices.len()
        invariant
            0 <= i <= chunk_indices@.len(),
            cs == storage.chunk_size as nat,
            most == storage.max_chunk_index as nat,
            all@.len() == chunk::chunk_count(data@.len(), cs),
            forall|j: int|
                0 <= j < all@.len() ==> (#[trigger] all@[j]).data@ == chunk::piece(data@, cs, j),
            protocol::chunk_views(requested@) == served(data@, chunk_indices@.take(i as int), cs, most),
        decreases chunk_indices@.len() - i,
    {
        let k: usize = chunk_indices[i];
        let ghost upto = chunk_indices@.take(i + 1);
        assert(upto.drop_last() =~= chunk_indices@.take(i as int));
        assert(upto.last() == k);
        if k < storage.max_chunk_index && k < all.len() {
            let ghost before = protocol::chunk_views(requested@);
            let bytes = all[k].clone();
            requested.push((k, bytes.data));
            assert(protocol::chunk_views(requested@) =~= before.push((k, chunk::piece(data@, cs, k as int))));
        }
        i = i + 1;
    }
    assert(chunk_indices@.take(chunk_indices@.len() as int) =~= chunk_indices@);
    SyncResponse::Chunks { path, chunks: requested }
}

/// What becomes of a wish to fetch a file.
#[derive(Debug, PartialEq, Eq)]
pub enum Admission {
    /// The path may not be used.
    Refused,
    /// The path is excluded from sync.
    Excluded,
    /// The file stands, or will stand, at this place.
    Admitted { abs_path: String },
}

/// Whether a file from a peer is taken at all.
pub fn admit_fetch(index: &SyncIndex, root: &str, path: &str) -> (r: Admission)
    ensures
        match r {
            Admission::Refused => !sync_engine::is_safe(path@),
            Admission::Excluded => sync_engine::is_safe(path@) && index::excluded(
                path::join_text(root@, path@),
                index@.root_path,
                index@.exclude_patterns,
            ),
            Admission::Admitted { abs_path } => {
                &&& sync_engine::is_safe(path@)
                &&& abs_path@ == path::join_text(root@, path@)
                &&& !index::excluded(abs_path@, index@.root_path, index@.exclude_patterns)
            },
        },
{
    match safe_path(root, path) {
        None => Admission::Refused,
        Some(abs_path) => {
            if index.is_excluded(abs_path.as_str()) {
                Admission::Excluded
            } else {
                Admission::Admitted { abs_path }
            }
        },
    }
}

/// Whether local data already has a chunk.
pub open spec fn has_chunk(local: Seq<u8>, chunk_size: nat, m: ChunkMeta) -> bool {
    m.index < chunk::chunk_count(local.len(), chunk_size) && hash::blake3_digest(
        chunk::piece(local, chunk_size, m.index as int),
    ) == m.hash@
}

/// The chunks of a remote file that local data lacks.
pub open spec fn wanted(remote: Seq<ChunkMeta>, local: Seq<u8>, chunk_size: nat) -> Seq<usize>
    decreases remote.len(),
{
    if remote.len() == 0 {
        Seq::empty()
    } else {
        let before = wanted(remote.drop_last(), local, chunk_size);
        if has_chunk(local, chunk_size, remote.last()) {
            before
        } else {
            before.push(remote.last().index)
        }
    }
}

/// The indices of the chunks of a remote file that local data lacks: only those are transferred.
pub fn wanted_chunks(remote: &Vec<ChunkMeta>, local: &[u8], chunk_size: usize) -> (v: Vec<usize>)
    requires
        chunk_size > 0,
    ensures
        v@ == wanted(remote@, local@, chunk_size as nat),
{
    let ours = chunk::metadata(local, chunk_size);
    let ghost metas = chunk::metas_of(local@, chunk_size as nat);
    assert(ours@.len() == metas.len()) by {
        assert(chunk::metas_view(ours@).len() == ours@.len());
    }
    let mut v: Vec<usize> = Vec::new();
    let mut i: usize = 0;
    assert(remote@.take(0) =~= Seq::<ChunkMeta>::empty());
    while i < remote.len()
        invariant
            0 <= i <= remote@.len(),
            metas == chunk::metas_of(local@, chunk_size as nat),
            chunk::metas_view(ours@) == metas,
            ours@.len() == metas.len(),
            v@ == wanted(remote@.take(i as int), local@, chunk_size as nat),
        decreases remote@.len() - i,
    {
        let ghost upto = remote@.take(i + 1);
        assert(upto.drop_last() =~= remote@.take(i as int));
        let m = &remote[i];
        assert(upto.last() == *m);
        let known = if m.index < ours.len() {
            assert(chunk::metas_view(ours@)[m.index as int] == ours@[m.index as int]@);
            same_hash(&ours[m.index].hash, &m.hash)
        } else {
            false
        };
        assert(known == has_chunk(local@, chunk_size as nat, *m));
        if !known {
            v.push(m.index);
        }
        i = i + 1;
    }
    assert(remote@.take(remote@.len() as int) =~= remote@);
    v
}

/// A file of a peer: its size and its chunks.
pub struct RemoteFile {
    pub size: u64,
    pub chunks: Vec<ChunkMeta>,
}

/// The question for a file of the peer: how large it is, and which chunks it has.
pub fn ask_for_file(path: &str) -> (r: SyncRequest)
    ensures
        r@ == (RequestModel::Subtree { path: path@ }),
{
    SyncRequest::GetSubtree { path: path.to_owned() }
}

/// What a response to the question for a file comes to.
pub enum FileReply {
    /// The peer has the file.
    File(RemoteFile),
    /// The peer has no file there.
    NoFile,
    /// The peer answered with an error.
    PeerError(String),
    /// The peer answered something else.
    Unexpected,
}

/// Sorts the response to the question for a file.
pub fn read_file(response: SyncResponse) -> (r: FileReply)
    ensures
        match response@ {
            ResponseModel::Subtree { node: Some(Tree::File { size, chunks, .. }), .. } => r matches FileReply::File(f)
                && f.size == size && chunk::metas_view(f.chunks@) == chunks,
            ResponseModel::Subtree { .. } => r is NoFile,
            ResponseModel::Failure { message } => r matches FileReply::PeerError(m) && m@ == message,
            _ => r is Unexpected,
        },
{
    match response {
        SyncResponse::Subtree { node, .. } => match node {
            Some(Node::File { size, chunks, .. }) => FileReply::File(RemoteFile { size, chunks }),
            _ => FileReply::NoFile,
        },
        SyncResponse::Error { message } => FileReply::PeerError(message),
        _ => FileReply::Unexpected,
    }
}

/// What is asked of the peer, and how the transfer is announced: the chunks are asked for under the path
/// `source` that the file has there, and go to `path`.
pub fn start_fetch(source: &str, path: &str, chunk_indices: Vec<usize>) -> (r: (SyncRequest, SyncEvent))
    ensures
        r.0@ == (RequestModel::Chunks { path: source@, chunk_indices: chunk_indices@ }),
        r.1@ == (EventModel::TransferStarted {
            path: path@,
            direction: TransferDirection::Download,
            total_chunks: chunk_indices@.len() as usize,
        }),
{
    let total_chunks: usize = chunk_indices.len();
    let event = SyncEvent::TransferStarted {
        path: path.to_owned(),
        direction: TransferDirection::Download,
        total_chunks,
    };
    (SyncRequest::GetChunks { path: source.to_owned(), chunk_indices }, event)
}

/// The data once `bytes` are written at `offset`; zeros fill what lies between.
pub open spec fn patched(data: Seq<u8>, offset: int, bytes: Seq<u8>) -> Seq<u8> {
    Seq::new(
        if data.len() < offset + bytes.len() {
            (offset + bytes.len()) as nat
        } else {
            data.len()
        },
        |i: int|
            if offset <= i < offset + bytes.len() {
                bytes[i - offset]
            } else if i < data.len() {
                data[i]
            } else {
                0
            },
    )
}

/// What is done with a chunk that came.
pub ghost enum ChunkFate {
    /// It is left aside: its index is beyond the limit, or its place cannot be addressed.
    Skip,
    /// It is written at an offset.
    Write(int),
    /// The file would be too large: the transfer ends.
    TooLarge,
}

/// What is done with the chunk of an index and a length.
pub open spec fn chunk_fate(index: usize, len: nat, storage: StorageConfig) -> ChunkFate {
    let offset = index * storage.chunk_size;
    if index >= storage.max_chunk_index || offset > usize::MAX || offset + len > usize::MAX {
        ChunkFate::Skip
    } else if offset + len > storage.max_file_size {
        ChunkFate::TooLarge
    } else {
        ChunkFate::Write(offset)
    }
}

/// The data once chunks are written over it, or none where that would be too large.
pub open spec fn written(data: Seq<u8>, chunks: Seq<(usize, Seq<u8>)>, storage: StorageConfig) -> Option<Seq<u8>>
    decreases chunks.len(),
{
    if chunks.len() == 0 {
        Some(data)
    } else {
        match written(data, chunks.drop_last(), storage) {
            None => None,
            Some(d) => match chunk_fate(chunks.last().0, chunks.last().1.len(), storage) {
                ChunkFate::Skip => Some(d),
                ChunkFate::Write(offset) => Some(patched(d, offset, chunks.last().1)),
                ChunkFate::TooLarge => None,
            },
        }
    }
}

/// The data without what lies behind the first `len` bytes.
pub open spec fn shortened(data: Seq<u8>, len: nat) -> Seq<u8> {
    if data.len() > len {
        data.take(len as int)
    } else {
        data
    }
}

/// The content of a file once chunks of a peer's file of `len` bytes are written over it: nothing stays
/// behind the end of the peer's file. None where the file would be too large.
pub open spec fn applied(
    data: Seq<u8>,
    chunks: Seq<(usize, Seq<u8>)>,
    len: nat,
    storage: StorageConfig,
) -> Option<Seq<u8>> {
    match written(data, chunks, storage) {
        None => None,
        Some(d) => Some(shortened(d, len)),
    }
}

/// What is told of the chunks that were written, up to the end of the transfer.
pub open spec fn progress(
    path: Seq<char>,
    data: Seq<u8>,
    chunks: Seq<(usize, Seq<u8>)>,
    storage: StorageConfig,
    total_chunks: usize,
) -> Seq<EventModel>
    decreases chunks.len(),
{
    if chunks.len() == 0 {
        Seq::empty()
    } else {
        let before = progress(path, data, chunks.drop_last(), storage, total_chunks);
        if written(data, chunks.drop_last(), storage) is Some && chunk_fate(
            chunks.last().0,
            chunks.last().1.len(),
            storage,
        ) is Write {
            before.push(
                EventModel::ChunkTransferred {
                    path,
                    direction: TransferDirection::Download,
                    chunk_index: (chunks.len() - 1) as usize,
                    total_chunks,
                },
            )
        } else {
            before
        }
    }
}

/// Where a transfer ended too early, later chunks change nothing.
proof fn lemma_too_large_is_final(
    path: Seq<char>,
    data: Seq<u8>,
    chunks: Seq<(usize, Seq<u8>)>,
    storage: StorageConfig,
    total_chunks: usize,
    n: int,
)
    requires
        0 <= n <= chunks.len(),
        written(data, chunks.take(n), storage) is None,
    ensures
        written(data, chunks, storage) is None,
        progress(path, data, chunks, storage, total_chunks) == progress(
            path,
            data,
            chunks.take(n),
            storage,
            total_chunks,
        ),
    decreases chunks.len(),
{
    if n == chunks.len() {
        assert(chunks.take(n) =~= chunks);
    } else {
        assert(chunks.drop_last().take(n) =~= chunks.take(n));
        lemma_too_large_is_final(path, data, chunks.drop_last(), storage, total_chunks, n);
    }
}

/// Writes `bytes` into `data` at `offset`.
fn write_at(data: &mut Vec<u8>, offset: usize, bytes: &Vec<u8>)
    requires
        offset + bytes@.len() <= usize::MAX,
    ensures
        final(data)@ == patched(old(data)@, offset as int, bytes@),
{
    let end: usize = offset + bytes.len();
    if data.len() < end {
        data.resize(end, 0);
    }
    let ghost start = data@;
    assert(start.len() == patched(old(data)@, offset as int, bytes@).len());
    assert forall|j: int| 0 <= j < start.len() && !(offset <= j < end) implies start[j] == patched(
        old(data)@,
        offset as int,
        bytes@,
    )[j] by {
        if j < old(data)@.len() {
            if old(data)@.len() < end {
                assert(start.subrange(0, old(data)@.len() as int)[j] == start[j]);
            }
        }
    }
    let mut i: usize = 0;
    while i < bytes.len()
        invariant
            0 <= i <= bytes@.len(),
            end == offset + bytes@.len(),
            end <= data@.len(),
            data@.len() == start.len(),
            start.len() == patched(old(data)@, offset as int, bytes@).len(),
            forall|j: int|
                0 <= j < start.len() && !(offset <= j < end) ==> start[j] == patched(
                    old(data)@,
                    offset as int,
                    bytes@,
                )[j],
            forall|j: int| 0 <= j < i ==> #[trigger] data@[offset + j] == bytes@[j],
            forall|j: int| 0 <= j < start.len() && !(offset <= j < end) ==> data@[j] == start[j],
        decreases bytes@.len() - i,
    {
        let b: u8 = bytes[i];
        data.set(offset + i, b);
        i = i + 1;
    }
    assert forall|j: int| 0 <= j < data@.len() implies data@[j] == patched(old(data)@, offset as int, bytes@)[j] by {
        if offset <= j < end {
            assert(data@[offset + (j - offset)] == bytes@[j - offset]);
            assert(patched(old(data)@, offset as int, bytes@)[j] == bytes@[j - offset]);
        } else {
            assert(data@[j] == start[j]);
        }
    }
    assert(data@ =~= patched(old(data)@, offset as int, bytes@));
}

/// What the chunks that came make of a file.
pub struct Applied {
    /// The new content; none where the file would be too large.
    pub data: Option<Vec<u8>>,
    /// What is told of the transfer.
    pub events: Vec<SyncEvent>,
}

/// Writes the chunks that came from a peer's file of `len` bytes over the local content of a file.
pub fn apply_chunks(
    path: &str,
    local: Vec<u8>,
    chunks: &Vec<(usize, Vec<u8>)>,
    len: u64,
    storage: &StorageConfig,
    total_chunks: usize,
) -> (r: Applied)
    ensures
        match r.data {
            Some(d) => applied(local@, protocol::chunk_views(chunks@), len as nat, *storage) == Some(d@),
            None => applied(local@, protocol::chunk_views(chunks@), len as nat, *storage) is None,
        },
        sync_engine::events_model(r.events@) == progress(
            path@,
            local@,
            protocol::chunk_views(chunks@),
            *storage,
            total_chunks,
        ),
{
    let ghost start = local@;
    let ghost all = protocol::chunk_views(chunks@);
    let mut data = local;
    let mut events: Vec<SyncEvent> = Vec::new();
    let mut i: usize = 0;
    assert(all.take(0) =~= Seq::<(usize, Seq<u8>)>::empty());
    assert(sync_engine::events_model(events@) =~= Seq::<EventModel>::empty());
    while i < chunks.len()
        invariant
            0 <= i <= chunks@.len(),
            start == local@,
            all == protocol::chunk_views(chunks@),
            written(start, all.take(i as int), *storage) == Some(data@),
            sync_engine::events_model(events@) == progress(path@, start, all.take(i as int), *storage, total_chunks),
        decreases chunks@.len() - i,
    {
        let ghost upto = all.take(i + 1);
        assert(upto.drop_last() =~= all.take(i as int));
        assert(upto.last() == (chunks@[i as int].0, chunks@[i as int].1@));
        let k: usize = chunks[i].0;
        let n: usize = chunks[i].1.len();
        let place: Option<usize> = if k >= storage.max_chunk_index {
            None
        } else {
            match k.checked_mul(storage.chunk_size) {
                None => None,
                Some(offset) => match offset.checked_add(n) {
                    None => None,
                    Some(_) => Some(offset),
                },
            }
        };
        if let Some(offset) = place {
            if (offset + n) as u64 > storage.max_file_size {
                proof {
                    lemma_too_large_is_final(path@, start, all, *storage, total_chunks, i + 1);
                }
                return Applied { data: None, events };
            }
            write_at(&mut data, offset, &chunks[i].1);
            let ghost told = sync_engine::events_model(events@);
            events.push(
                SyncEvent::ChunkTransferred {
                    path: path.to_owned(),
                    direction: TransferDirection::Download,
                    chunk_index: i,
                    total_chunks,
                },
            );
            assert(sync_engine::events_model(events@) =~= told.push(
                EventModel::ChunkTransferred {
                    path: path@,
                    direction: TransferDirection::Download,
                    chunk_index: i,
                    total_chunks,
                },
            ));
        }
        i = i + 1;
    }
    assert(all.take(all.len() as int) =~= all);
    let ghost whole = data@;
    if data.len() as u64 > len {
        data.truncate(len as usize);
    }
    assert(data@ =~= shortened(whole, len as nat));
    Applied { data: Some(data), events }
}

/// What a response to a request for chunks comes to.
pub enum FetchReply {
    /// Chunks came.
    Chunks(Vec<(usize, Vec<u8>)>),
    /// The peer answered with an error.
    PeerError(String),
    /// The peer answered something else.
    Unexpected,
}

/// Sorts the response to a request for chunks.
pub fn read_reply(response: SyncResponse) -> (r: FetchReply)
    ensures
        match response@ {
            ResponseModel::Chunks { chunks, .. } => r matches FetchReply::Chunks(c) && protocol::chunk_views(c@) == chunks,
            ResponseModel::Failure { message } => r matches FetchReply::PeerError(m) && m@ == message,
            _ => r is Unexpected,
        },
{
    match response {
        SyncResponse::Chunks { chunks, .. } => FetchReply::Chunks(chunks),
        SyncResponse::Error { message } => FetchReply::PeerError(message),
        _ => FetchReply::Unexpected,
    }
}

/// The index once a version of a file from a peer is written.
pub open spec fn after_fetch(ix: IndexModel, rel: Seq<char>, data: Seq<u8>, origin: OriginModel) -> IndexModel {
    IndexModel {
        tree: merkle::tree_insert(ix.tree, path::path_names(rel), merkle::file_tree(data, ix.chunk_size)),
        file_meta: names::put(
            index::outside(ix.file_meta, rel),
            path::clean_text(rel),
            MetaModel {
                clock: conflict::merged(index::clock_at(ix, rel), origin.clock),
                last_modified: origin.timestamp,
                last_modified_by: origin.peer,
            },
        ),
        ..ix
    }
}

/// What is told once a version of a file from a peer is taken in.
pub open spec fn told_of_fetch(rel: Seq<char>) -> Seq<EventModel> {
    seq![
        EventModel::TransferComplete { path: rel, direction: TransferDirection::Download },
        EventModel::Log("synced "@ + rel),
    ]
}

/// Takes a version of a file from a peer, once it is written, into the index.
pub fn commit_fetch(index: &mut SyncIndex, rel_path: &str, data: &[u8], origin: &RemoteOrigin) -> (events: Vec<SyncEvent>)
    requires
        old(index).wf(),
    ensures
        final(index).wf(),
        final(index)@ == after_fetch(old(index)@, rel_path@, data@, origin@),
        sync_engine::events_model(events@) == told_of_fetch(rel_path@),
        sync_engine::events_model(events@) == seq![
            EventModel::TransferComplete { path: rel_path@, direction: TransferDirection::Download },
            EventModel::Log("synced "@ + rel_path@),
        ],
{
    let mut clock = index.clock(rel_path);
    clock.merge(&origin.clock);
    update_file_with_chunk_size(&mut index.tree, rel_path, data, index.chunk_size);
    let meta = FileMeta { clock, last_modified: origin.timestamp, last_modified_by: origin.peer };
    index.set_meta(rel_path, meta);
    assert(index@ =~= after_fetch(old(index)@, rel_path@, data@, origin@));
    let events: Vec<SyncEvent> = vec![
        SyncEvent::TransferComplete { path: rel_path.to_owned(), direction: TransferDirection::Download },
        SyncEvent::Log(text::joined("synced ", rel_path)),
    ];
    assert(sync_engine::events_model(events@) =~= seq![
        EventModel::TransferComplete { path: rel_path@, direction: TransferDirection::Download },
        EventModel::Log("synced "@ + rel_path@),
    ]);
    events
}

} // verus!
