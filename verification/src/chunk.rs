//! Fixed-size chunks of file data, addressed by their content.

use vstd::prelude::*;

use crate::hash;

verus! {

/// Default chunk size: 256 KB.
pub const DEFAULT_CHUNK_SIZE: usize = 262_144;

/// A content-addressed chunk of file data.
#[derive(Debug, PartialEq, Eq)]
pub struct Chunk {
    pub hash: [u8; 32],
    pub data: Vec<u8>,
}

impl Clone for Chunk {
    fn clone(&self) -> (r: Self)
        ensures
            r.hash == self.hash,
            r.data@ == self.data@,
    {
        let data = self.data.clone();
        assert(data@ =~= self.data@);
        Chunk { hash: self.hash, data }
    }
}

/// Hash and offset information for a chunk, without the data payload.
#[derive(Debug, Clone, Copy, PartialEq, Eq, Hash)]
pub struct ChunkMeta {
    pub index: usize,
    pub offset: u64,
    pub len: u32,
    pub hash: [u8; 32],
}

/// What chunk information says.
#[verifier::ext_equal]
pub struct Meta {
    pub index: int,
    pub offset: int,
    pub len: u32,
    pub hash: Seq<u8>,
}

impl View for ChunkMeta {
    type V = Meta;

    open spec fn view(&self) -> Meta {
        Meta { index: self.index as int, offset: self.offset as int, len: self.len, hash: self.hash@ }
    }
}

/// What a list of chunk information says.
pub open spec fn metas_view(v: Seq<ChunkMeta>) -> Seq<Meta> {
    v.map_values(|m: ChunkMeta| m@)
}

/// How many chunks `len` bytes fall into: all full but the last.
pub open spec fn chunk_count(len: nat, chunk_size: nat) -> nat
    recommends
        chunk_size > 0,
{
    (len + chunk_size - 1) as nat / chunk_size
}

/// The bytes of chunk `i`.
pub open spec fn piece(data: Seq<u8>, chunk_size: nat, i: int) -> Seq<u8> {
    let start = i * chunk_size;
    if start + chunk_size <= data.len() {
        data.subrange(start, start + chunk_size)
    } else {
        data.subrange(start, data.len() as int)
    }
}

/// The information on chunk `i`.
pub open spec fn meta_of(data: Seq<u8>, chunk_size: nat, i: int) -> Meta {
    Meta {
        index: i,
        offset: i * chunk_size,
        len: piece(data, chunk_size, i).len() as u32,
        hash: hash::blake3_digest(piece(data, chunk_size, i)),
    }
}

/// The information on every chunk of `data`, in the order of the chunks.
pub open spec fn metas_of(data: Seq<u8>, chunk_size: nat) -> Seq<Meta> {
    Seq::new(chunk_count(data.len(), chunk_size), |i: int| meta_of(data, chunk_size, i))
}

/// The chunk hashes, one after the other.
pub open spec fn hashes_joined(metas: Seq<Meta>) -> Seq<u8>
    decreases metas.len(),
{
    if metas.len() == 0 {
        Seq::empty()
    } else {
        hashes_joined(metas.drop_last()) + metas.last().hash
    }
}

/// The aggregate hash of a file with the given chunks.
pub open spec fn file_digest(metas: Seq<Meta>) -> Seq<u8> {
    hash::blake3_digest(hashes_joined(metas))
}

/// Pieces put one after the other.
pub open spec fn joined_pieces(pieces: Seq<Seq<u8>>) -> Seq<u8>
    decreases pieces.len(),
{
    if pieces.len() == 0 {
        Seq::empty()
    } else {
        joined_pieces(pieces.drop_last()) + pieces.last()
    }
}

/// The number of chunks, from the place where the last one starts and ends.
pub proof fn lemma_chunk_count(len: nat, chunk_size: nat, i: int)
    requires
        chunk_size > 0,
        0 <= i,
        i * chunk_size < len <= (i + 1) * chunk_size,
    ensures
        chunk_count(len, chunk_size) == i + 1,
{
    let n = len + chunk_size - 1;
    let q = i + 1;
    let r = n - q * chunk_size;
    assert(q * chunk_size == i * chunk_size + chunk_size) by (nonlinear_arith)
        requires
            q == i + 1,
    ;
    assert(0 <= r < chunk_size);
    vstd::arithmetic::div_mod::lemma_fundamental_div_mod_converse(n, chunk_size as int, q, r);
}

/// Every chunk starts inside the data, and all but the last are full.
pub proof fn lemma_chunk_bounds(len: nat, chunk_size: nat, i: int)
    requires
        chunk_size > 0,
        0 <= i < chunk_count(len, chunk_size),
    ensures
        0 <= i * chunk_size < len,
        i + 1 < chunk_count(len, chunk_size) ==> (i + 1) * chunk_size < len,
        i + 1 == chunk_count(len, chunk_size) ==> (i + 1) * chunk_size >= len,
{
    let n = len + chunk_size - 1;
    let q = chunk_count(len, chunk_size) as int;
    vstd::arithmetic::div_mod::lemma_fundamental_div_mod(n, chunk_size as int);
    assert(q * chunk_size <= n < q * chunk_size + chunk_size) by (nonlinear_arith)
        requires
            n == chunk_size * q + n % (chunk_size as int),
            0 <= n % (chunk_size as int) < chunk_size,
    ;
    assert(i * chunk_size <= (q - 1) * chunk_size) by (nonlinear_arith)
        requires
            i <= q - 1,
            chunk_size > 0,
    ;
    assert((q - 1) * chunk_size == q * chunk_size - chunk_size) by (nonlinear_arith);
    assert(0 <= i * chunk_size) by (nonlinear_arith)
        requires
            0 <= i,
            0 < chunk_size,
    ;
    if i + 1 < q {
        assert((i + 1) * chunk_size <= (q - 1) * chunk_size) by (nonlinear_arith)
            requires
                i + 1 <= q - 1,
                chunk_size > 0,
        ;
    }
}

/// The information on the chunk `data[start..]` with index `i`.
fn chunk_at(data: &[u8], chunk_size: usize, i: usize, start: usize) -> (r: (ChunkMeta, usize))
    requires
        chunk_size > 0,
        start == i * chunk_size,
        start < data@.len(),
    ensures
        r.0@ == meta_of(data@, chunk_size as nat, i as int),
        start < r.1 <= data@.len(),
        data@.subrange(start as int, r.1 as int) == piece(data@, chunk_size as nat, i as int),
        r.1 < data@.len() ==> r.1 == (i + 1) * chunk_size,
        r.1 == data@.len() ==> chunk_count(data@.len(), chunk_size as nat) == i + 1,
{
    let n: usize = data.len();
    let end: usize = if n - start > chunk_size {
        start + chunk_size
    } else {
        n
    };
    proof {
        assert((i + 1) * chunk_size == i * chunk_size + chunk_size) by (nonlinear_arith);
        if end == n {
            lemma_chunk_count(n as nat, chunk_size as nat, i as int);
        }
        assert(data@.subrange(start as int, end as int) =~= piece(data@, chunk_size as nat, i as int));
    }
    let h = hash::digest(&data[start..end]);
    let meta = ChunkMeta { index: i, offset: start as u64, len: (end - start) as u32, hash: h };
    (meta, end)
}

/// Split data into fixed-size chunks, returning metadata and chunks.
pub fn split(data: &[u8], chunk_size: usize) -> (r: (Vec<ChunkMeta>, Vec<Chunk>))
    requires
        chunk_size > 0,
    ensures
        metas_view(r.0@) == metas_of(data@, chunk_size as nat),
        r.1@.len() == r.0@.len(),
        forall|i: int| #![trigger r.1@[i]]
            0 <= i < r.1@.len() ==> r.1@[i].hash == r.0@[i].hash && r.1@[i].data@ == piece(data@, chunk_size as nat, i),
{
    let mut metas: Vec<ChunkMeta> = Vec::new();
    let mut chunks: Vec<Chunk> = Vec::new();
    let mut start: usize = 0;
    proof {
        assert(0 * chunk_size == 0);
        if data@.len() == 0 {
            assert(chunk_count(0, chunk_size as nat) == 0) by {
                vstd::arithmetic::div_mod::lemma_basic_div(chunk_size - 1, chunk_size as int);
            }
        }
    }
    while start < data.len()
        invariant
            chunk_size > 0,
            start <= data@.len(),
            chunks@.len() == metas@.len(),
            start < data@.len() ==> start == metas@.len() * chunk_size,
            start == data@.len() ==> metas@.len() == chunk_count(data@.len(), chunk_size as nat),
            forall|i: int| #![trigger metas@[i]]
                0 <= i < metas@.len() ==> metas@[i]@ == meta_of(data@, chunk_size as nat, i),
            forall|i: int| #![trigger chunks@[i]]
                0 <= i < chunks@.len() ==> chunks@[i].hash == metas@[i].hash && chunks@[i].data@ == piece(
                    data@,
                    chunk_size as nat,
                    i,
                ),
        decreases data@.len() - start,
    {
        let (meta, end) = chunk_at(data, chunk_size, metas.len(), start);
        let bytes = vstd::slice::slice_to_vec(&data[start..end]);
        chunks.push(Chunk { hash: meta.hash, data: bytes });
        metas.push(meta);
        start = end;
    }
    assert(metas_view(metas@) =~= metas_of(data@, chunk_size as nat));
    (metas, chunks)
}

/// Compute chunk metadata without retaining data (for indexing).
pub fn metadata(data: &[u8], chunk_size: usize) -> (metas: Vec<ChunkMeta>)
    requires
        chunk_size > 0,
    ensures
        metas_view(metas@) == metas_of(data@, chunk_size as nat),
{
    let mut metas: Vec<ChunkMeta> = Vec::new();
    let mut start: usize = 0;
    proof {
        assert(0 * chunk_size == 0);
        if data@.len() == 0 {
            assert(chunk_count(0, chunk_size as nat) == 0) by {
                vstd::arithmetic::div_mod::lemma_basic_div(chunk_size - 1, chunk_size as int);
            }
        }
    }
    while start < data.len()
        invariant
            chunk_size > 0,
            start <= data@.len(),
            start < data@.len() ==> start == metas@.len() * chunk_size,
            start == data@.len() ==> metas@.len() == chunk_count(data@.len(), chunk_size as nat),
            forall|i: int| #![trigger metas@[i]]
                0 <= i < metas@.len() ==> metas@[i]@ == meta_of(data@, chunk_size as nat, i),
        decreases data@.len() - start,
    {
        let (meta, end) = chunk_at(data, chunk_size, metas.len(), start);
        metas.push(meta);
        start = end;
    }
    assert(metas_view(metas@) =~= metas_of(data@, chunk_size as nat));
    metas
}

/// Compute the aggregate hash for a file from its chunk hashes.
pub fn file_hash(chunk_metas: &[ChunkMeta]) -> (h: [u8; 32])
    ensures
        h@ == file_digest(metas_view(chunk_metas@)),
{
    let mut buf: Vec<u8> = Vec::new();
    let mut i: usize = 0;
    let ghost metas = metas_view(chunk_metas@);
    assert(buf@ =~= hashes_joined(metas.take(0)));
    while i < chunk_metas.len()
        invariant
            0 <= i <= chunk_metas@.len(),
            metas == metas_view(chunk_metas@),
            buf@ == hashes_joined(metas.take(i as int)),
        decreases chunk_metas@.len() - i,
    {
        let ghost upto = metas.take(i + 1);
        assert(upto.drop_last() =~= metas.take(i as int));
        assert(upto.last() == chunk_metas@[i as int]@);
        hash::push_hash(&mut buf, &chunk_metas[i].hash);
        i = i + 1;
    }
    assert(metas.take(metas.len() as int) =~= metas);
    hash::digest(buf.as_slice())
}

/// The chunks of `data`, put one after the other, are `data`.
pub proof fn lemma_pieces_make_data(data: Seq<u8>, chunk_size: nat)
    requires
        chunk_size > 0,
    ensures
        joined_pieces(Seq::new(chunk_count(data.len(), chunk_size), |i: int| piece(data, chunk_size, i))) == data,
{
    let n = chunk_count(data.len(), chunk_size);
    lemma_pieces_make_prefix(data, chunk_size, n);
    if n == 0 {
        if data.len() > 0 {
            vstd::arithmetic::div_mod::lemma_div_is_ordered(chunk_size as int, data.len() + chunk_size - 1, chunk_size as int);
            vstd::arithmetic::div_mod::lemma_div_by_self(chunk_size as int);
        }
        assert(data =~= Seq::<u8>::empty());
    } else {
        lemma_chunk_bounds(data.len(), chunk_size, n - 1);
        assert(data.take(data.len() as int) =~= data);
    }
}

/// The first `n` chunks, put one after the other, are the beginning of `data`.
proof fn lemma_pieces_make_prefix(data: Seq<u8>, chunk_size: nat, n: nat)
    requires
        chunk_size > 0,
        n <= chunk_count(data.len(), chunk_size),
    ensures
        joined_pieces(Seq::new(n, |i: int| piece(data, chunk_size, i))) == data.take(
            if n * chunk_size <= data.len() { (n * chunk_size) as int } else { data.len() as int },
        ),
    decreases n,
{
    let ps = Seq::new(n, |i: int| piece(data, chunk_size, i));
    if n == 0 {
        assert(joined_pieces(ps) =~= data.take(0));
        assert(0 * chunk_size == 0);
    } else {
        lemma_pieces_make_prefix(data, chunk_size, (n - 1) as nat);
        lemma_chunk_bounds(data.len(), chunk_size, n - 1);
        assert(ps.drop_last() =~= Seq::new((n - 1) as nat, |i: int| piece(data, chunk_size, i)));
        assert(n * chunk_size == (n - 1) * chunk_size + chunk_size) by (nonlinear_arith)
            requires
                n > 0,
        ;
        assert(ps.last() == piece(data, chunk_size, n - 1));
        assert(joined_pieces(ps) =~= data.take(
            if n * chunk_size <= data.len() { (n * chunk_size) as int } else { data.len() as int },
        ));
    }
}

} // verus!
