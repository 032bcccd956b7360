//! What passes between two peers, message by message: what is asked, what is served, and what it makes of the
//! file.

use vstd::prelude::*;

use crate::chunk;
use crate::chunk::ChunkMeta;
use crate::config::StorageConfig;
use crate::conflict;
use crate::conflict::PeerId;
use crate::hash;
use crate::inbound;
use crate::inbound::Answer;
use crate::index;
use crate::index::{IndexModel, SyncIndex};
use crate::index_laws;
use crate::merkle;
use crate::names;
use crate::path;
use crate::protocol;
use crate::protocol::{SyncRequest, SyncResponse};
use crate::sync_engine;
use crate::sync_engine::{EventModel, OriginModel, SyncEvent, TransferDirection};
use crate::transfer;
use crate::transfer::{Applied, ChunkFate, FetchReply};
use crate::transfer_laws;
use crate::tree_laws;

verus! {

broadcast use vstd::seq::group_seq_axioms;

/// The bytes of chunk `i` of a file: those from `i` chunk sizes on, as many as a chunk has or as are left.
pub open spec fn bytes_of_chunk(data: Seq<u8>, chunk_size: nat, i: int) -> Seq<u8> {
    data.subrange(
        i * chunk_size,
        if (i + 1) * chunk_size <= data.len() {
            (i + 1) * chunk_size
        } else {
            data.len() as int
        },
    )
}

proof fn lemma_piece_is_bytes(data: Seq<u8>, chunk_size: nat, i: int)
    requires
        chunk_size > 0,
        i >= 0,
    ensures
        i < chunk::chunk_count(data.len(), chunk_size) <==> i * chunk_size < data.len(),
        i * chunk_size < data.len() ==> chunk::piece(data, chunk_size, i) == bytes_of_chunk(data, chunk_size, i),
{
    crate::hash_laws::lemma_chunks_cover_the_file(data, chunk_size, i);
    assert((i + 1) * chunk_size == i * chunk_size + chunk_size) by (nonlinear_arith);
    if i * chunk_size < data.len() {
        assert(chunk::piece(data, chunk_size, i) =~= bytes_of_chunk(data, chunk_size, i));
    }
}

/// Requests are served index by index: one more index adds its chunk at the end, if the file has it and the
/// limit allows it, and else nothing.
pub proof fn lemma_chunks_are_served_one_by_one(
    data: Seq<u8>,
    indices: Seq<usize>,
    i: usize,
    chunk_size: nat,
    max_chunk_index: nat,
)
    requires
        chunk_size > 0,
    ensures
        transfer::served(data, Seq::empty(), chunk_size, max_chunk_index) == Seq::<(usize, Seq<u8>)>::empty(),
        transfer::served(data, indices.push(i), chunk_size, max_chunk_index) == if i < max_chunk_index && i * chunk_size
            < data.len() {
            transfer::served(data, indices, chunk_size, max_chunk_index).push(
                (i, bytes_of_chunk(data, chunk_size, i as int)),
            )
        } else {
            transfer::served(data, indices, chunk_size, max_chunk_index)
        },
{
    assert(indices.push(i).drop_last() =~= indices);
    lemma_piece_is_bytes(data, chunk_size, i as int);
}

/// Every chunk that is asked for, that the file has and the limit allows is served, in the order of the
/// request.
pub proof fn lemma_every_chunk_asked_for_is_served(
    data: Seq<u8>,
    indices: Seq<usize>,
    chunk_size: nat,
    max_chunk_index: nat,
    j: int,
)
    requires
        chunk_size > 0,
        forall|k: int|
            0 <= k < indices.len() ==> #[trigger] indices[k] < max_chunk_index && indices[k] * chunk_size < data.len(),
        0 <= j < indices.len(),
    ensures
        transfer::served(data, indices, chunk_size, max_chunk_index).len() == indices.len(),
        transfer::served(data, indices, chunk_size, max_chunk_index)[j] == (
            indices[j],
            bytes_of_chunk(data, chunk_size, indices[j] as int),
        ),
    decreases indices.len(),
{
    let rest = indices.drop_last();
    let last = indices.last();
    assert(indices =~= rest.push(last));
    assert(indices[indices.len() - 1] == last);
    lemma_chunks_are_served_one_by_one(data, rest, last, chunk_size, max_chunk_index);
    assert forall|k: int| 0 <= k < rest.len() implies #[trigger] rest[k] < max_chunk_index && rest[k] * chunk_size
        < data.len() by {
        assert(rest[k] == indices[k]);
    }
    if rest.len() > 0 {
        lemma_every_chunk_asked_for_is_served(
            data,
            rest,
            chunk_size,
            max_chunk_index,
            if j < rest.len() {
                j
            } else {
                0
            },
        );
    } else {
        assert(rest =~= Seq::<usize>::empty());
    }
}

/// Chunks are asked for one by one: a chunk is left out exactly where the local file has a chunk with its hash
/// at its place.
pub proof fn lemma_chunks_are_asked_for_one_by_one(
    remote: Seq<ChunkMeta>,
    m: ChunkMeta,
    local: Seq<u8>,
    chunk_size: nat,
)
    requires
        chunk_size > 0,
    ensures
        transfer::wanted(Seq::empty(), local, chunk_size) == Seq::<usize>::empty(),
        transfer::wanted(remote.push(m), local, chunk_size) == if m.index * chunk_size < local.len()
            && hash::blake3_digest(bytes_of_chunk(local, chunk_size, m.index as int)) == m.hash@ {
            transfer::wanted(remote, local, chunk_size)
        } else {
            transfer::wanted(remote, local, chunk_size).push(m.index)
        },
{
    assert(remote.push(m).drop_last() =~= remote);
    lemma_piece_is_bytes(local, chunk_size, m.index as int);
}

/// Writing bytes at an offset puts them there and changes nothing else; zeros fill what lies between the end
/// of the data and the offset.
pub proof fn lemma_bytes_are_written_in_place(data: Seq<u8>, offset: int, bytes: Seq<u8>, i: int)
    requires
        0 <= offset,
        0 <= i < transfer::patched(data, offset, bytes).len(),
    ensures
        transfer::patched(data, offset, bytes).len() >= data.len(),
        transfer::patched(data, offset, bytes).len() >= offset + bytes.len(),
        transfer::patched(data, offset, bytes).len() == data.len() || transfer::patched(data, offset, bytes).len()
            == offset + bytes.len(),
        offset <= i < offset + bytes.len() ==> transfer::patched(data, offset, bytes)[i] == bytes[i - offset],
        !(offset <= i < offset + bytes.len()) && i < data.len() ==> transfer::patched(data, offset, bytes)[i] == data[i],
        !(offset <= i < offset + bytes.len()) && i >= data.len() ==> transfer::patched(data, offset, bytes)[i] == 0,
{
}

/// What becomes of a chunk: one beyond the limit on indices, or that cannot be addressed, is left aside; one
/// that would make the file too large ends the transfer; every other is written at its place.
pub proof fn lemma_the_fate_of_a_chunk(index: usize, len: nat, storage: StorageConfig)
    ensures
        ({
            let end = index * storage.chunk_size + len;
            let in_reach = index < storage.max_chunk_index && end <= usize::MAX;
            &&& transfer::chunk_fate(index, len, storage) is Skip <==> !in_reach
            &&& transfer::chunk_fate(index, len, storage) is TooLarge <==> in_reach && end > storage.max_file_size
            &&& in_reach && end <= storage.max_file_size ==> transfer::chunk_fate(index, len, storage)
                == ChunkFate::Write(index * storage.chunk_size)
        }),
{
}

/// Chunks are written one by one, in the order in which they came, up to the one that is too large.
pub proof fn lemma_chunks_are_written_one_by_one(
    data: Seq<u8>,
    chunks: Seq<(usize, Seq<u8>)>,
    index: usize,
    bytes: Seq<u8>,
    storage: StorageConfig,
)
    ensures
        transfer::written(data, Seq::empty(), storage) == Some(data),
        ({
            let before = transfer::written(data, chunks, storage);
            let after = transfer::written(data, chunks.push((index, bytes)), storage);
            let end = index * storage.chunk_size + bytes.len();
            let in_reach = index < storage.max_chunk_index && end <= usize::MAX;
            &&& before is None ==> after is None
            &&& before is Some && !in_reach ==> after == before
            &&& before is Some && in_reach && end > storage.max_file_size ==> after is None
            &&& before is Some && in_reach && end <= storage.max_file_size ==> after == Some(
                transfer::patched(before->0, index * storage.chunk_size, bytes),
            )
        }),
{
    assert(chunks.push((index, bytes)).drop_last() =~= chunks);
}

/// What was fetched is no longer than the file of the peer: it is what was written, up to that length.
pub proof fn lemma_nothing_stays_behind_the_end(
    data: Seq<u8>,
    chunks: Seq<(usize, Seq<u8>)>,
    len: nat,
    storage: StorageConfig,
    i: int,
)
    ensures
        transfer::applied(data, chunks, len, storage) is Some <==> transfer::written(data, chunks, storage) is Some,
        transfer::applied(data, chunks, len, storage) matches Some(d) ==> {
            let w = transfer::written(data, chunks, storage)->0;
            &&& d.len() <= len
            &&& d.len() <= w.len()
            &&& d.len() == len || d.len() == w.len()
            &&& 0 <= i < d.len() ==> d[i] == w[i]
        },
{
}

/// Every chunk that is written is told, in its turn: the chunk that came as number `i` of so many.
pub proof fn lemma_every_written_chunk_is_told(
    path: Seq<char>,
    data: Seq<u8>,
    chunks: Seq<(usize, Seq<u8>)>,
    storage: StorageConfig,
    total_chunks: usize,
    i: int,
)
    requires
        chunks.len() <= usize::MAX,
        forall|k: int| #![trigger chunks[k]]
            0 <= k < chunks.len() ==> chunks[k].0 < storage.max_chunk_index && chunks[k].0 * storage.chunk_size
                + chunks[k].1.len() <= usize::MAX && chunks[k].0 * storage.chunk_size + chunks[k].1.len()
                <= storage.max_file_size,
        0 <= i < chunks.len(),
    ensures
        transfer::progress(path, data, chunks, storage, total_chunks).len() == chunks.len(),
        transfer::progress(path, data, chunks, storage, total_chunks)[i] == (EventModel::ChunkTransferred {
            path,
            direction: TransferDirection::Download,
            chunk_index: i as usize,
            total_chunks,
        }),
{
    lemma_all_written_all_told(path, data, chunks, storage, total_chunks, i);
}

proof fn lemma_all_written_all_told(
    path: Seq<char>,
    data: Seq<u8>,
    chunks: Seq<(usize, Seq<u8>)>,
    storage: StorageConfig,
    total_chunks: usize,
    i: int,
)
    requires
        chunks.len() <= usize::MAX,
        forall|k: int| #![trigger chunks[k]]
            0 <= k < chunks.len() ==> chunks[k].0 < storage.max_chunk_index && chunks[k].0 * storage.chunk_size
                + chunks[k].1.len() <= usize::MAX && chunks[k].0 * storage.chunk_size + chunks[k].1.len()
                <= storage.max_file_size,
    ensures
        transfer::written(data, chunks, storage) is Some,
        transfer::progress(path, data, chunks, storage, total_chunks).len() == chunks.len(),
        0 <= i < chunks.len() ==> transfer::progress(path, data, chunks, storage, total_chunks)[i] == (
        EventModel::ChunkTransferred {
            path,
            direction: TransferDirection::Download,
            chunk_index: i as usize,
            total_chunks,
        }),
    decreases chunks.len(),
{
    if chunks.len() > 0 {
        let rest = chunks.drop_last();
        assert forall|k: int| #![trigger rest[k]] 0 <= k < rest.len() implies rest[k].0 < storage.max_chunk_index
            && rest[k].0 * storage.chunk_size + rest[k].1.len() <= usize::MAX && rest[k].0 * storage.chunk_size
            + rest[k].1.len() <= storage.max_file_size by {
            assert(rest[k] == chunks[k]);
        }
        lemma_all_written_all_told(path, data, rest, storage, total_chunks, i);
        let last = chunks[chunks.len() - 1];
        assert(chunks.last() == last);
        assert(last.0 * storage.chunk_size <= last.0 * storage.chunk_size + last.1.len());
        assert(transfer::chunk_fate(last.0, last.1.len(), storage) is Write);
    }
}

/// A chunk that is not written is not told.
pub proof fn lemma_only_written_chunks_are_told(
    path: Seq<char>,
    data: Seq<u8>,
    chunks: Seq<(usize, Seq<u8>)>,
    index: usize,
    bytes: Seq<u8>,
    storage: StorageConfig,
    total_chunks: usize,
)
    requires
        transfer::written(data, chunks, storage) is None || !(transfer::chunk_fate(index, bytes.len(), storage) is Write),
    ensures
        transfer::progress(path, data, chunks.push((index, bytes)), storage, total_chunks) == transfer::progress(
            path,
            data,
            chunks,
            storage,
            total_chunks,
        ),
{
    assert(chunks.push((index, bytes)).drop_last() =~= chunks);
}

/// What is asked for when a fetch starts is read by the peer that is asked: the file of that name, and every
/// index.
pub proof fn lemma_what_is_asked_for_is_read(
    source: &str,
    path: &str,
    chunk_indices: Vec<usize>,
    request: SyncRequest,
    event: SyncEvent,
    index: &SyncIndex,
    root: &str,
    answer: Answer,
)
    requires
        call_ensures(transfer::start_fetch, (source, path, chunk_indices), (request, event)),
        index.wf(),
        call_ensures(inbound::answer_request, (request, index, root), answer),
        sync_engine::is_safe(source@),
        !index::excluded(path::join_text(root@, source@), index@.root_path, index@.exclude_patterns),
    ensures
        answer is ReadFile,
        answer->abs_path@ == path::join_text(root@, source@),
        answer->path@ == source@,
        answer->chunk_indices@ == chunk_indices@,
{
}

/// The whole exchange gives the file. A peer that has `local` asks for the chunks that it lacks of a file of
/// another; that peer reads the file, `remote`, and serves the answer to the request; and what comes back,
/// written over `local`, is `remote`.
pub proof fn lemma_the_exchange_gives_the_file(
    remote: &[u8],
    metas: &Vec<ChunkMeta>,
    present: &[u8],
    local: Vec<u8>,
    storage: &StorageConfig,
    lacking: Vec<usize>,
    source: &str,
    path: &str,
    request: SyncRequest,
    event: SyncEvent,
    index: &SyncIndex,
    root: &str,
    answer: Answer,
    read: (String, String, Vec<usize>),
    response: SyncResponse,
    reply: FetchReply,
    came: Vec<(usize, Vec<u8>)>,
    total_chunks: usize,
    outcome: Applied,
)
    requires
        transfer_laws::receivable(remote@, *storage),
        chunk::metas_view(metas@) == chunk::metas_of(remote@, storage.chunk_size as nat),
        transfer_laws::no_chunk_collision(local@, remote@, storage.chunk_size as nat),
        remote@.len() <= u64::MAX,
        present@ == local@,
        // the peer that fetches
        call_ensures(transfer::wanted_chunks, (metas, present, storage.chunk_size), lacking),
        call_ensures(transfer::start_fetch, (source, path, lacking), (request, event)),
        // the peer that serves
        index.wf(),
        sync_engine::is_safe(source@),
        !index::excluded(path::join_text(root@, source@), index@.root_path, index@.exclude_patterns),
        call_ensures(inbound::answer_request, (request, index, root), answer),
        answer == (Answer::ReadFile { abs_path: read.0, path: read.1, chunk_indices: read.2 }),
        call_ensures(transfer::serve_chunks, (read.1, remote, &read.2, storage), response),
        // the peer that fetches, again
        call_ensures(transfer::read_reply, (response,), reply),
        reply == FetchReply::Chunks(came),
        call_ensures(
            transfer::apply_chunks,
            (path, local, &came, remote@.len() as u64, storage, total_chunks),
            outcome,
        ),
    ensures
        outcome.data matches Some(d) && d@ == remote@,
{
    let cs = storage.chunk_size as nat;
    assert(lacking@ == transfer::wanted(metas@, local@, cs));
    assert(read.2@ == lacking@);
    let sent = transfer::served(remote@, lacking@, cs, storage.max_chunk_index as nat);
    assert(protocol::chunk_views(came@) == sent);
    transfer_laws::lemma_fetch_gives_remote_file(remote@, local@, metas@, *storage);
}

/// What is served is sorted as chunks by the peer that asked, under the path that was asked for.
pub proof fn lemma_what_is_served_comes_as_chunks(
    path: String,
    data: &[u8],
    chunk_indices: &Vec<usize>,
    storage: &StorageConfig,
    response: SyncResponse,
    reply: FetchReply,
)
    requires
        storage.chunk_size > 0,
        call_ensures(transfer::serve_chunks, (path, data, chunk_indices, storage), response),
        call_ensures(transfer::read_reply, (response,), reply),
    ensures
        response matches SyncResponse::Chunks { path: told, .. } && told@ == path@,
        reply matches FetchReply::Chunks(came) && protocol::chunk_views(came@) == transfer::served(
            data@,
            chunk_indices@,
            storage.chunk_size as nat,
            storage.max_chunk_index as nat,
        ),
{
    assert(response@ is Chunks);
}

/// A question for a file, answered by a peer that has it, tells its size and its chunks.
pub proof fn lemma_a_file_asked_for_is_told(
    path: &str,
    request: SyncRequest,
    index: &SyncIndex,
    root: &str,
    answer: Answer,
    response: SyncResponse,
    reply: transfer::FileReply,
    data: Seq<u8>,
)
    requires
        call_ensures(transfer::ask_for_file, (path,), request),
        index.wf(),
        call_ensures(inbound::answer_request, (request, index, root), answer),
        answer == Answer::Reply(response),
        call_ensures(transfer::read_file, (response,), reply),
        merkle::find(index@.tree, path::path_names(path@)) == Some(merkle::file_tree(data, index@.chunk_size)),
        data.len() <= u64::MAX,
    ensures
        reply matches transfer::FileReply::File(f) && f.size == data.len() && chunk::metas_view(f.chunks@)
            == chunk::metas_of(data, index@.chunk_size),
{
    assert(response@ is Subtree);
}

/// Once a version is taken in, its metadata is that of its origin: the time and the peer that it came with,
/// and a clock that has counted as far as either side had. Nothing but the tree and the metadata changes.
pub proof fn lemma_a_fetched_version_keeps_its_origin(
    ix: IndexModel,
    rel: Seq<char>,
    data: Seq<u8>,
    origin: OriginModel,
    p: PeerId,
)
    requires
        names::in_order(ix.file_meta),
    ensures
        ({
            let next = transfer::after_fetch(ix, rel, data, origin);
            let before = conflict::count(index::clock_at(ix, rel), p);
            let theirs = conflict::count(origin.clock, p);
            &&& index::meta_at(next, rel) matches Some(m) && m.last_modified == origin.timestamp && m.last_modified_by
                == origin.peer
            &&& conflict::count(index::clock_at(next, rel), p) == if before < theirs {
                theirs
            } else {
                before
            }
            &&& next.tombstones == ix.tombstones
            &&& next.local_peer == ix.local_peer
            &&& next.root_path == ix.root_path
            &&& next.exclude_patterns == ix.exclude_patterns
            &&& next.chunk_size == ix.chunk_size
            &&& next.tombstone_ttl_secs == ix.tombstone_ttl_secs
        }),
{
    let key = path::clean_text(rel);
    let meta = index::MetaModel {
        clock: conflict::merged(index::clock_at(ix, rel), origin.clock),
        last_modified: origin.timestamp,
        last_modified_by: origin.peer,
    };
    index_laws::lemma_outside(ix.file_meta, rel, key);
    names::lemma_lookup_put(index::outside(ix.file_meta, rel), key, meta, key);
}

/// What a peer fetched is what it serves from then on: its tree has, at the path, the node that the file of
/// the other peer had.
pub proof fn lemma_both_peers_have_the_same_node(
    ours: IndexModel,
    theirs: IndexModel,
    rel: Seq<char>,
    data: Seq<u8>,
    origin: OriginModel,
    now: u64,
)
    requires
        merkle::ordered(ours.tree),
        merkle::ordered(theirs.tree),
        ours.chunk_size == theirs.chunk_size,
        tree_laws::open_way(ours.tree, path::path_names(rel)),
        tree_laws::open_way(theirs.tree, path::path_names(rel)),
    ensures
        merkle::find(transfer::after_fetch(ours, rel, data, origin).tree, path::path_names(rel)) == merkle::find(
            index::after_change(theirs, rel, data, now).tree,
            path::path_names(rel),
        ),
{
    let file = merkle::file_tree(data, ours.chunk_size);
    tree_laws::lemma_insert_then_find(ours.tree, path::path_names(rel), file);
    tree_laws::lemma_insert_then_find(theirs.tree, path::path_names(rel), file);
}

/// What a peer cannot give is told as an error, and an error is taken as one; chunks are never taken from
/// anything else.
pub proof fn lemma_errors_are_told_as_errors(
    error: &str,
    failure: SyncResponse,
    reply: FetchReply,
    file: transfer::FileReply,
    other: SyncResponse,
    sorted: FetchReply,
)
    requires
        call_ensures(inbound::read_failed, (error,), failure),
        call_ensures(transfer::read_reply, (failure,), reply),
        call_ensures(transfer::read_file, (failure,), file),
        call_ensures(transfer::read_reply, (other,), sorted),
    ensures
        reply matches FetchReply::PeerError(m) && m@ == "read error: "@ + error@,
        file matches transfer::FileReply::PeerError(m) && m@ == "read error: "@ + error@,
        sorted is Chunks <==> other is Chunks,
        sorted is PeerError <==> other is Error,
{
    assert(failure@ is Failure);
    assert(other@ is Chunks <==> other is Chunks);
    assert(other@ is Failure <==> other is Error);
}

/// A transfer is announced with the path that it goes to, and with as many chunks as are asked for.
pub proof fn lemma_a_fetch_is_announced(
    source: &str,
    path: &str,
    chunk_indices: Vec<usize>,
    request: SyncRequest,
    event: SyncEvent,
)
    requires
        call_ensures(transfer::start_fetch, (source, path, chunk_indices), (request, event)),
    ensures
        event@ == (EventModel::TransferStarted {
            path: path@,
            direction: TransferDirection::Download,
            total_chunks: chunk_indices@.len() as usize,
        }),
{
}

/// Cutting a file up loses nothing: the chunks, one behind the other, are the file, and each carries the hash
/// of its bytes.
pub proof fn lemma_cutting_up_loses_nothing(data: &[u8], chunk_size: usize, r: (Vec<ChunkMeta>, Vec<chunk::Chunk>), i: int)
    requires
        chunk_size > 0,
        call_ensures(chunk::split, (data, chunk_size), r),
    ensures
        Seq::new(r.1@.len(), |i: int| r.1@[i].data@).flatten() == data@,
        r.0@.len() == r.1@.len(),
        0 <= i < r.1@.len() ==> r.1@[i].hash@ == hash::blake3_digest(r.1@[i].data@) && r.0@[i].hash == r.1@[i].hash
            && r.0@[i].index == i && r.0@[i].offset == i * chunk_size,
{
    let cs = chunk_size as nat;
    let metas = chunk::metas_of(data@, cs);
    assert(chunk::metas_view(r.0@).len() == r.0@.len());
    let pieces = Seq::new(chunk::chunk_count(data@.len(), cs), |i: int| chunk::piece(data@, cs, i));
    let parts = Seq::new(r.1@.len(), |i: int| r.1@[i].data@);
    assert forall|k: int| 0 <= k < parts.len() implies parts[k] == pieces[k] by {
        assert(r.1@[k].data@ == chunk::piece(data@, cs, k));
    }
    assert(parts =~= pieces);
    chunk::lemma_pieces_make_data(data@, cs);
    lemma_joined_pieces_are_flat(pieces);
    if 0 <= i < r.1@.len() {
        assert(r.1@[i].hash == r.0@[i].hash);
        assert(chunk::metas_view(r.0@)[i] == r.0@[i]@);
        assert(metas[i] == chunk::meta_of(data@, cs, i));
    }
}

proof fn lemma_joined_pieces_are_flat(pieces: Seq<Seq<u8>>)
    ensures
        chunk::joined_pieces(pieces) == pieces.flatten(),
    decreases pieces.len(),
{
    pieces.lemma_flatten_and_flatten_alt_are_equivalent();
    if pieces.len() > 0 {
        lemma_joined_pieces_are_flat(pieces.drop_last());
        pieces.drop_last().lemma_flatten_and_flatten_alt_are_equivalent();
    }
}

/// The hash of a file is taken of what its chunks say, all of them.
pub proof fn lemma_the_hash_of_a_file_is_that_of_its_chunks(metas: &[ChunkMeta], h: [u8; 32])
    requires
        call_ensures(chunk::file_hash, (metas,), h),
    ensures
        h@ == hash::blake3_digest(Seq::new(metas@.len(), |i: int| metas@[i].hash@).flatten()),
{
    let view = chunk::metas_view(metas@);
    crate::hash_laws::lemma_file_hash_is_of_every_chunk(view);
    assert(Seq::new(view.len(), |i: int| view[i].hash) =~= Seq::new(metas@.len(), |i: int| metas@[i].hash@));
}

/// A version that is taken in leaves every other file in the tree as it is.
pub proof fn lemma_a_fetched_version_leaves_other_files(
    ix: IndexModel,
    rel: Seq<char>,
    data: Seq<u8>,
    origin: OriginModel,
    other: Seq<char>,
)
    requires
        merkle::ordered(ix.tree),
        tree_laws::apart(path::path_names(rel), path::path_names(other)),
    ensures
        merkle::find(transfer::after_fetch(ix, rel, data, origin).tree, path::path_names(other)) == merkle::find(
            ix.tree,
            path::path_names(other),
        ),
{
    tree_laws::lemma_insert_elsewhere(
        ix.tree,
        path::path_names(rel),
        merkle::file_tree(data, ix.chunk_size),
        path::path_names(other),
    );
}

/// What is told of a transfer is told chunk by chunk: a chunk that is written is told with its place among
/// those that came, and any other chunk is not told.
pub proof fn lemma_chunks_are_told_one_by_one(
    path: Seq<char>,
    data: Seq<u8>,
    chunks: Seq<(usize, Seq<u8>)>,
    index: usize,
    bytes: Seq<u8>,
    storage: StorageConfig,
    total_chunks: usize,
)
    ensures
        transfer::progress(path, data, Seq::empty(), storage, total_chunks) == Seq::<EventModel>::empty(),
        ({
            let before = transfer::progress(path, data, chunks, storage, total_chunks);
            let end = index * storage.chunk_size + bytes.len();
            let is_written = transfer::written(data, chunks, storage) is Some && index < storage.max_chunk_index && end
                <= usize::MAX && end <= storage.max_file_size;
            transfer::progress(path, data, chunks.push((index, bytes)), storage, total_chunks) == if is_written {
                before.push(
                    EventModel::ChunkTransferred {
                        path,
                        direction: TransferDirection::Download,
                        chunk_index: chunks.len() as usize,
                        total_chunks,
                    },
                )
            } else {
                before
            }
        }),
{
    assert(chunks.push((index, bytes)).drop_last() =~= chunks);
    assert(index * storage.chunk_size <= index * storage.chunk_size + bytes.len());
}

} // verus!
