//! What a transfer achieves: the file of the peer, and no more bytes than that takes.

use vstd::prelude::*;

use crate::chunk;
use crate::chunk::ChunkMeta;
use crate::config::StorageConfig;
use crate::conflict;
use crate::hash;
use crate::index;
use crate::index::IndexModel;
use crate::index_laws;
use crate::local;
use crate::merkle;
use crate::names;
use crate::path;
use crate::sync_engine::OriginModel;
use crate::transfer;
use crate::tree_laws;

verus! {

broadcast use vstd::seq::group_seq_axioms;

/// Chunks at the same place of two files that have the same hash are the same.
pub open spec fn no_chunk_collision(a: Seq<u8>, b: Seq<u8>, chunk_size: nat) -> bool {
    forall|i: int|
        #![trigger chunk::piece(a, chunk_size, i)]
        0 <= i < chunk::chunk_count(a.len(), chunk_size) && i < chunk::chunk_count(b.len(), chunk_size)
            && hash::blake3_digest(chunk::piece(a, chunk_size, i)) == hash::blake3_digest(
            chunk::piece(b, chunk_size, i),
        ) ==> chunk::piece(a, chunk_size, i) == chunk::piece(b, chunk_size, i)
}

/// A file that may be received: its size and its number of chunks are within the limits.
pub open spec fn receivable(remote: Seq<u8>, storage: StorageConfig) -> bool {
    &&& storage.chunk_size > 0
    &&& remote.len() <= storage.max_file_size
    &&& remote.len() <= usize::MAX
    &&& chunk::chunk_count(remote.len(), storage.chunk_size as nat) <= storage.max_chunk_index
}

/// The beginning of one file, then what another has behind that.
spec fn overlay(front: Seq<u8>, back: Seq<u8>, e: int) -> Seq<u8> {
    Seq::new(
        if back.len() < e {
            e as nat
        } else {
            back.len()
        },
        |j: int|
            if j < e {
                front[j]
            } else {
                back[j]
            },
    )
}

/// Where the first `k` chunks of a file end.
spec fn end_of(len: nat, chunk_size: nat, k: int) -> int {
    if k * chunk_size <= len {
        k * chunk_size
    } else {
        len as int
    }
}

/// The first `k` chunks, where they are missing, turn the beginning of the local file into that of the
/// remote one.
proof fn lemma_fetch_upto(remote: Seq<u8>, local: Seq<u8>, metas: Seq<ChunkMeta>, storage: StorageConfig, k: int)
    requires
        receivable(remote, storage),
        chunk::metas_view(metas) == chunk::metas_of(remote, storage.chunk_size as nat),
        no_chunk_collision(local, remote, storage.chunk_size as nat),
        0 <= k <= metas.len(),
    ensures
        transfer::written(
            local,
            transfer::served(
                remote,
                transfer::wanted(metas.take(k), local, storage.chunk_size as nat),
                storage.chunk_size as nat,
                storage.max_chunk_index as nat,
            ),
            storage,
        ) == Some(overlay(remote, local, end_of(remote.len(), storage.chunk_size as nat, k))),
    decreases k,
{
    let cs = storage.chunk_size as nat;
    let most = storage.max_chunk_index as nat;
    if k == 0 {
        assert(metas.take(0) =~= Seq::<ChunkMeta>::empty());
        assert(0 * cs == 0);
        assert(overlay(remote, local, 0) =~= local);
    } else {
        lemma_fetch_upto(remote, local, metas, storage, k - 1);
        let upto = metas.take(k);
        assert(upto.drop_last() =~= metas.take(k - 1));
        let m = metas[k - 1];
        assert(upto.last() == m);
        assert(chunk::metas_view(metas)[k - 1] == m@);
        assert(chunk::metas_view(metas).len() == metas.len());
        assert(m@ == chunk::meta_of(remote, cs, k - 1));
        let piece = chunk::piece(remote, cs, k - 1);
        let start = (k - 1) * cs;
        let e = end_of(remote.len(), cs, k);
        chunk::lemma_chunk_bounds(remote.len(), cs, k - 1);
        assert(k * cs == start + cs) by (nonlinear_arith)
            requires
                start == (k - 1) * cs,
        ;
        assert(piece =~= remote.subrange(start, e));
        assert(end_of(remote.len(), cs, k - 1) == start);
        let before = overlay(remote, local, start);
        let asked = transfer::wanted(metas.take(k - 1), local, cs);
        if transfer::has_chunk(local, cs, m) {
            assert(chunk::piece(local, cs, k - 1) == piece);
            chunk::lemma_chunk_bounds(local.len(), cs, k - 1);
            let ours = chunk::piece(local, cs, k - 1);
            assert(ours.len() == e - start);
            assert(e <= local.len());
            assert forall|j: int| start <= j < e implies local[j] == remote[j] by {
                assert(ours[j - start] == local[j]);
                assert(piece[j - start] == remote[j]);
            }
            assert(before =~= overlay(remote, local, e));
        } else {
            assert(transfer::wanted(upto, local, cs) == asked.push(m.index));
            let sent = transfer::served(remote, asked, cs, most);
            assert(asked.push(m.index).drop_last() =~= asked);
            assert(transfer::served(remote, asked.push(m.index), cs, most) == sent.push((m.index, piece)));
            assert(sent.push((m.index, piece)).drop_last() =~= sent);
            assert(transfer::chunk_fate(m.index, piece.len(), storage) == transfer::ChunkFate::Write(start));
            assert(transfer::patched(before, start, piece) =~= overlay(remote, local, e));
        }
    }
}

/// Fetching a file gives the file: where a peer serves from `remote` the chunks that `local` lacks,
/// writing them over `local` makes it `remote`, whatever `local` holds.
pub proof fn lemma_fetch_gives_remote_file(
    remote: Seq<u8>,
    local: Seq<u8>,
    metas: Seq<ChunkMeta>,
    storage: StorageConfig,
)
    requires
        receivable(remote, storage),
        chunk::metas_view(metas) == chunk::metas_of(remote, storage.chunk_size as nat),
        no_chunk_collision(local, remote, storage.chunk_size as nat),
    ensures
        transfer::applied(
            local,
            transfer::served(
                remote,
                transfer::wanted(metas, local, storage.chunk_size as nat),
                storage.chunk_size as nat,
                storage.max_chunk_index as nat,
            ),
            remote.len(),
            storage,
        ) == Some(remote),
{
    let cs = storage.chunk_size as nat;
    let n = metas.len() as int;
    lemma_fetch_upto(remote, local, metas, storage, n);
    assert(metas.take(n) =~= metas);
    assert(chunk::metas_view(metas).len() == metas.len());
    assert(n == chunk::chunk_count(remote.len(), cs));
    if n > 0 {
        chunk::lemma_chunk_bounds(remote.len(), cs, n - 1);
    } else {
        assert(0 * cs == 0);
        if remote.len() > 0 {
            chunk::lemma_pieces_make_data(remote, cs);
            assert(Seq::new(0, |i: int| chunk::piece(remote, cs, i)) =~= Seq::<Seq<u8>>::empty());
        }
    }
    assert(end_of(remote.len(), cs, n) == remote.len());
    let whole = overlay(remote, local, remote.len() as int);
    assert(transfer::shortened(whole, remote.len()) =~= remote);
}

/// Only modified chunks are transferred: every chunk that is asked for is one that the local file lacks.
pub proof fn lemma_only_missing_chunks_are_asked(metas: Seq<ChunkMeta>, local: Seq<u8>, chunk_size: nat, j: int)
    requires
        0 <= j < transfer::wanted(metas, local, chunk_size).len(),
    ensures
        exists|i: int|
            0 <= i < metas.len() && (#[trigger] metas[i]).index == transfer::wanted(metas, local, chunk_size)[j]
                && !transfer::has_chunk(local, chunk_size, metas[i]),
    decreases metas.len(),
{
    let before = transfer::wanted(metas.drop_last(), local, chunk_size);
    if j < before.len() {
        lemma_only_missing_chunks_are_asked(metas.drop_last(), local, chunk_size, j);
        let i = choose|i: int|
            0 <= i < metas.drop_last().len() && (#[trigger] metas.drop_last()[i]).index == before[j]
                && !transfer::has_chunk(local, chunk_size, metas.drop_last()[i]);
        assert(metas[i] == metas.drop_last()[i]);
    } else {
        assert(metas[metas.len() - 1] == metas.last());
    }
}

/// Nothing is asked for a file that is already there.
pub proof fn lemma_nothing_is_asked_of_the_same(metas: Seq<ChunkMeta>, local: Seq<u8>, chunk_size: nat)
    requires
        chunk::metas_view(metas) == chunk::metas_of(local, chunk_size),
    ensures
        transfer::wanted(metas, local, chunk_size) == Seq::<usize>::empty(),
{
    if transfer::wanted(metas, local, chunk_size).len() > 0 {
        lemma_only_missing_chunks_are_asked(metas, local, chunk_size, 0);
        let i = choose|i: int|
            0 <= i < metas.len() && (#[trigger] metas[i]).index == transfer::wanted(metas, local, chunk_size)[0]
                && !transfer::has_chunk(local, chunk_size, metas[i]);
        assert(chunk::metas_view(metas)[i] == metas[i]@);
        assert(chunk::metas_view(metas).len() == metas.len());
    }
    assert(transfer::wanted(metas, local, chunk_size) =~= Seq::<usize>::empty());
}

/// A transfer makes a file neither larger than the limit, unless it was so before, nor longer than that of
/// the peer.
pub proof fn lemma_transfer_respects_the_limit(
    data: Seq<u8>,
    chunks: Seq<(usize, Seq<u8>)>,
    len: nat,
    storage: StorageConfig,
)
    ensures
        transfer::applied(data, chunks, len, storage) matches Some(d) ==> d.len() <= len && (d.len() <= data.len()
            || d.len() <= storage.max_file_size),
{
    lemma_written_respects_the_limit(data, chunks, storage);
}

proof fn lemma_written_respects_the_limit(data: Seq<u8>, chunks: Seq<(usize, Seq<u8>)>, storage: StorageConfig)
    ensures
        transfer::written(data, chunks, storage) matches Some(d) ==> d.len() <= data.len() || d.len()
            <= storage.max_file_size,
    decreases chunks.len(),
{
    if chunks.len() > 0 {
        lemma_written_respects_the_limit(data, chunks.drop_last(), storage);
    }
}

/// A peer that has the version before a change asks for exactly the chunks that it was told of.
pub proof fn lemma_told_chunks_are_the_wanted(metas: Seq<ChunkMeta>, before: Seq<u8>, chunk_size: nat)
    ensures
        ({
            let told = local::changed_chunks(chunk::metas_of(before, chunk_size), chunk::metas_view(metas));
            let asked = transfer::wanted(metas, before, chunk_size);
            &&& asked.len() == told.len()
            &&& forall|i: int| 0 <= i < asked.len() ==> #[trigger] asked[i] == told[i].index
        }),
    decreases metas.len(),
{
    if metas.len() > 0 {
        let rest = metas.drop_last();
        lemma_told_chunks_are_the_wanted(rest, before, chunk_size);
        assert(chunk::metas_view(metas).drop_last() =~= chunk::metas_view(rest));
        assert(chunk::metas_view(metas).last() == metas.last()@);
        let old = chunk::metas_of(before, chunk_size);
        assert(local::has_same(old, metas.last()@) == transfer::has_chunk(before, chunk_size, metas.last()));
    }
}

/// Once a version of a file is taken in, the tree has it at its path, the clock is no earlier than what
/// was known on either side, and the metadata of every other file that does not lie below is as before.
pub proof fn lemma_fetch_is_taken_in(
    ix: IndexModel,
    rel: Seq<char>,
    data: Seq<u8>,
    origin: OriginModel,
    other: Seq<char>,
)
    requires
        merkle::ordered(ix.tree),
        names::in_order(ix.file_meta),
        tree_laws::open_way(ix.tree, path::path_names(rel)),
        path::parts(other) != path::parts(rel),
        !index::lies_below(other, rel),
    ensures
        merkle::find(transfer::after_fetch(ix, rel, data, origin).tree, path::path_names(rel)) == Some(
            merkle::file_tree(data, ix.chunk_size),
        ),
        conflict::no_later(
            index::clock_at(ix, rel),
            index::clock_at(transfer::after_fetch(ix, rel, data, origin), rel),
        ),
        conflict::no_later(origin.clock, index::clock_at(transfer::after_fetch(ix, rel, data, origin), rel)),
        index::meta_at(transfer::after_fetch(ix, rel, data, origin), other) == index::meta_at(ix, other),
{
    let next = transfer::after_fetch(ix, rel, data, origin);
    let key = path::clean_text(rel);
    tree_laws::lemma_insert_then_find(ix.tree, path::path_names(rel), merkle::file_tree(data, ix.chunk_size));
    let meta = names::lookup(next.file_meta, key);
    let clock = conflict::merged(index::clock_at(ix, rel), origin.clock);
    let new_meta = index::MetaModel {
        clock,
        last_modified: origin.timestamp,
        last_modified_by: origin.peer,
    };
    let rest = index::outside(ix.file_meta, rel);
    path::lemma_clean_keeps_parts(other);
    index_laws::lemma_outside(ix.file_meta, rel, path::clean_text(other));
    names::lemma_lookup_put(rest, key, new_meta, key);
    names::lemma_lookup_put(rest, key, new_meta, path::clean_text(other));
    path::lemma_clean_same_parts(rel, other);
    conflict::lemma_merge_is_least(index::clock_at(ix, rel), origin.clock, clock);
}

/// A version that was taken in is not taken in again: the same change is rejected from then on.
pub proof fn lemma_fetched_version_is_settled(
    ix: IndexModel,
    rel: Seq<char>,
    data: Seq<u8>,
    origin: OriginModel,
    local_timestamp: u64,
)
    requires
        names::in_order(ix.file_meta),
    ensures
        conflict::resolution(
            index::clock_at(transfer::after_fetch(ix, rel, data, origin), rel),
            origin.clock,
            local_timestamp,
            origin.timestamp,
            origin.peer,
            ix.local_peer,
        ) == conflict::Resolution::Reject,
{
    let key = path::clean_text(rel);
    let clock = conflict::merged(index::clock_at(ix, rel), origin.clock);
    index_laws::lemma_outside(ix.file_meta, rel, key);
    names::lemma_lookup_put(
        index::outside(ix.file_meta, rel),
        key,
        index::MetaModel { clock, last_modified: origin.timestamp, last_modified_by: origin.peer },
        key,
    );
    conflict::lemma_merge_is_least(index::clock_at(ix, rel), origin.clock, clock);
}

} // verus!
