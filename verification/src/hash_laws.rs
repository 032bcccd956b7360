//! What a hash stands for: every chunk of a file, and every entry of a directory.
//!
//! Two contents have the same hash only where they are the same, or where the hash function gives two
//! different byte strings one hash. The laws name the byte strings that would have to collide.

use vstd::prelude::*;

use crate::chunk;
use crate::chunk::Meta;
use crate::diff_laws;
use crate::hash;
use crate::merkle;
use crate::merkle::{Change, Tree};
use crate::names;
use crate::path;

verus! {

broadcast use vstd::seq::group_seq_axioms;

/// Two different byte strings with one hash.
pub open spec fn collide(x: Seq<u8>, y: Seq<u8>) -> bool {
    x != y && hash::blake3_digest(x) == hash::blake3_digest(y)
}

/// Every hash has 32 bytes.
pub open spec fn hashes_have_32_bytes() -> bool {
    forall|x: Seq<u8>| (#[trigger] hash::blake3_digest(x)).len() == 32
}

/// The hashes of all chunks, the first one first.
pub open spec fn all_hashes(metas: Seq<Meta>) -> Seq<u8> {
    Seq::new(metas.len(), |i: int| metas[i].hash).flatten()
}

/// All entries of a directory, the first one first: each name, and behind it the hash of the child.
pub open spec fn all_entries(children: Seq<(Seq<char>, Tree)>) -> Seq<u8> {
    Seq::new(
        children.len(),
        |i: int| vstd::utf8::encode_utf8(children[i].0) + merkle::tree_hash(children[i].1),
    ).flatten()
}

/// What the hash of a directory is taken of: its entries, or one byte where it has none.
pub open spec fn directory_bytes(children: Seq<(Seq<char>, Tree)>) -> Seq<u8> {
    if children.len() == 0 {
        seq![1u8]
    } else {
        all_entries(children)
    }
}

/// The length of parts put one after the other, where all have the same length.
proof fn lemma_flat_length(parts: Seq<Seq<u8>>, n: int)
    requires
        forall|i: int| 0 <= i < parts.len() ==> (#[trigger] parts[i]).len() == n,
    ensures
        parts.flatten().len() == parts.len() * n,
    decreases parts.len(),
{
    if parts.len() == 0 {
        assert(0 * n == 0);
    } else {
        let rest = parts.drop_first();
        assert forall|i: int| 0 <= i < rest.len() implies (#[trigger] rest[i]).len() == n by {
            assert(rest[i] == parts[i + 1]);
        }
        lemma_flat_length(rest, n);
        assert(parts[0].len() == n);
        assert(parts.len() * n == rest.len() * n + n) by (nonlinear_arith)
            requires
                parts.len() == rest.len() + 1,
        ;
    }
}

/// Parts of known lengths can be told from what they make together.
proof fn lemma_parts_of_flat(x: Seq<Seq<u8>>, y: Seq<Seq<u8>>, k: int)
    requires
        x.len() == y.len(),
        forall|i: int| 0 <= i < x.len() ==> (#[trigger] x[i]).len() == y[i].len(),
        x.flatten() == y.flatten(),
        0 <= k < x.len(),
    ensures
        x[k] == y[k],
    decreases x.len(),
{
    let n = x[0].len() as int;
    let xr = x.drop_first();
    let yr = y.drop_first();
    assert(x[0].len() == y[0].len());
    assert(x.flatten().take(n) =~= x[0]);
    assert(y.flatten().take(n) =~= y[0]);
    if k > 0 {
        assert(x.flatten().skip(n) =~= xr.flatten());
        assert(y.flatten().skip(n) =~= yr.flatten());
        assert forall|i: int| 0 <= i < xr.len() implies (#[trigger] xr[i]).len() == yr[i].len() by {
            assert(x[i + 1].len() == y[i + 1].len());
        }
        lemma_parts_of_flat(xr, yr, k - 1);
    }
}

proof fn lemma_joined_is_flat(metas: Seq<Meta>)
    ensures
        chunk::hashes_joined(metas) == all_hashes(metas),
    decreases metas.len(),
{
    let parts = Seq::new(metas.len(), |i: int| metas[i].hash);
    parts.lemma_flatten_and_flatten_alt_are_equivalent();
    if metas.len() > 0 {
        let rest = metas.drop_last();
        lemma_joined_is_flat(rest);
        let before = Seq::new(rest.len(), |i: int| rest[i].hash);
        before.lemma_flatten_and_flatten_alt_are_equivalent();
        assert(parts.drop_last() =~= before);
        assert(parts.last() == metas.last().hash);
    }
}

proof fn lemma_entries_are_flat(children: Seq<(Seq<char>, Tree)>)
    ensures
        merkle::entries_bytes(children) == all_entries(children),
    decreases children.len(),
{
    let parts = Seq::new(
        children.len(),
        |i: int| vstd::utf8::encode_utf8(children[i].0) + merkle::tree_hash(children[i].1),
    );
    parts.lemma_flatten_and_flatten_alt_are_equivalent();
    if children.len() > 0 {
        let rest = children.drop_last();
        lemma_entries_are_flat(rest);
        let before = Seq::new(
            rest.len(),
            |i: int| vstd::utf8::encode_utf8(rest[i].0) + merkle::tree_hash(rest[i].1),
        );
        before.lemma_flatten_and_flatten_alt_are_equivalent();
        assert(parts.drop_last() =~= before);
        assert(parts.last() == vstd::utf8::encode_utf8(children.last().0) + merkle::tree_hash(children.last().1));
        assert(merkle::entries_bytes(children) =~= before.flatten() + parts.last());
    }
}

/// The hash of a file is the hash of the hashes of all its chunks, in their order.
pub proof fn lemma_file_hash_is_of_every_chunk(metas: Seq<Meta>)
    ensures
        chunk::file_digest(metas) == hash::blake3_digest(Seq::new(metas.len(), |i: int| metas[i].hash).flatten()),
{
    lemma_joined_is_flat(metas);
}

/// The hash of a directory is the hash of all its entries, in their order: the bytes of each name, and behind
/// them the hash of the child. That of an empty directory is the hash of a single byte.
pub proof fn lemma_directory_hash_is_of_every_entry(children: Seq<(Seq<char>, Tree)>)
    ensures
        merkle::dir_digest(children) == hash::blake3_digest(directory_bytes(children)),
{
    lemma_entries_are_flat(children);
}

/// The hash of a file determines the hash of every chunk: two files with one hash have as many chunks, and
/// the same hash at every place, unless the bytes that were hashed collide.
pub proof fn lemma_file_hash_tells_every_chunk(a: Seq<Meta>, b: Seq<Meta>)
    requires
        forall|i: int| 0 <= i < a.len() ==> (#[trigger] a[i]).hash.len() == 32,
        forall|i: int| 0 <= i < b.len() ==> (#[trigger] b[i]).hash.len() == 32,
        !collide(all_hashes(a), all_hashes(b)),
        chunk::file_digest(a) == chunk::file_digest(b),
    ensures
        a.len() == b.len(),
        forall|i: int| 0 <= i < a.len() ==> (#[trigger] a[i]).hash == b[i].hash,
{
    lemma_file_hash_is_of_every_chunk(a);
    lemma_file_hash_is_of_every_chunk(b);
    let x = Seq::new(a.len(), |i: int| a[i].hash);
    let y = Seq::new(b.len(), |i: int| b[i].hash);
    assert(x.flatten() == y.flatten());
    lemma_flat_length(x, 32);
    lemma_flat_length(y, 32);
    assert forall|i: int| 0 <= i < a.len() implies (#[trigger] a[i]).hash == b[i].hash by {
        lemma_parts_of_flat(x, y, i);
        assert(x[i] == y[i]);
    }
}

/// The hash of a directory determines the name and the hash of every child, among directories with as many
/// children whose names take as many bytes: unless the bytes that were hashed collide.
pub proof fn lemma_directory_hash_tells_every_entry(a: Seq<(Seq<char>, Tree)>, b: Seq<(Seq<char>, Tree)>)
    requires
        a.len() == b.len(),
        forall|i: int|
            0 <= i < a.len() ==> vstd::utf8::encode_utf8((#[trigger] a[i]).0).len() == vstd::utf8::encode_utf8(
                b[i].0,
            ).len(),
        forall|i: int| 0 <= i < a.len() ==> merkle::tree_hash((#[trigger] a[i]).1).len() == 32,
        forall|i: int| 0 <= i < b.len() ==> merkle::tree_hash((#[trigger] b[i]).1).len() == 32,
        !collide(directory_bytes(a), directory_bytes(b)),
        merkle::dir_digest(a) == merkle::dir_digest(b),
    ensures
        forall|i: int|
            0 <= i < a.len() ==> (#[trigger] a[i]).0 == b[i].0 && merkle::tree_hash(a[i].1) == merkle::tree_hash(
                b[i].1,
            ),
{
    lemma_directory_hash_is_of_every_entry(a);
    lemma_directory_hash_is_of_every_entry(b);
    let x = Seq::new(a.len(), |i: int| vstd::utf8::encode_utf8(a[i].0) + merkle::tree_hash(a[i].1));
    let y = Seq::new(b.len(), |i: int| vstd::utf8::encode_utf8(b[i].0) + merkle::tree_hash(b[i].1));
    assert forall|i: int| 0 <= i < a.len() implies (#[trigger] a[i]).0 == b[i].0 && merkle::tree_hash(a[i].1)
        == merkle::tree_hash(b[i].1) by {
        assert forall|j: int| 0 <= j < x.len() implies (#[trigger] x[j]).len() == y[j].len() by {
            assert(a[j] == a[j] && b[j] == b[j]);
        }
        lemma_parts_of_flat(x, y, i);
        let p = vstd::utf8::encode_utf8(a[i].0);
        let q = vstd::utf8::encode_utf8(b[i].0);
        assert(x[i].take(p.len() as int) =~= p);
        assert(y[i].take(p.len() as int) =~= q);
        assert(x[i].skip(p.len() as int) =~= merkle::tree_hash(a[i].1));
        assert(y[i].skip(p.len() as int) =~= merkle::tree_hash(b[i].1));
        vstd::utf8::encode_utf8_decode_utf8(a[i].0);
        vstd::utf8::encode_utf8_decode_utf8(b[i].0);
    }
}

/// A directory that has one entry more has another hash, unless the bytes that were hashed collide.
pub proof fn lemma_directory_hash_tells_a_new_entry(children: Seq<(Seq<char>, Tree)>, k: Seq<char>, child: Tree)
    requires
        names::in_order(children),
        !names::has_name(children, k),
        merkle::tree_hash(child).len() == 32,
        !collide(directory_bytes(children), directory_bytes(names::put(children, k, child))),
    ensures
        merkle::dir_digest(names::put(children, k, child)) != merkle::dir_digest(children),
{
    let more = names::put(children, k, child);
    lemma_directory_hash_is_of_every_entry(children);
    lemma_directory_hash_is_of_every_entry(more);
    names::lemma_has_at_rank(children, k);
    let p = names::rank(children, k);
    let x = Seq::new(
        children.len(),
        |i: int| vstd::utf8::encode_utf8(children[i].0) + merkle::tree_hash(children[i].1),
    );
    let y = Seq::new(more.len(), |i: int| vstd::utf8::encode_utf8(more[i].0) + merkle::tree_hash(more[i].1));
    let new = vstd::utf8::encode_utf8(k) + merkle::tree_hash(child);
    assert(y =~= x.insert(p, new));
    lemma_flat_insert(x, p, new);
    assert(directory_bytes(more).len() != directory_bytes(children).len());
}

/// A part put among others makes them longer by its length.
proof fn lemma_flat_insert(x: Seq<Seq<u8>>, p: int, new: Seq<u8>)
    requires
        0 <= p <= x.len(),
    ensures
        x.insert(p, new).flatten().len() == x.flatten().len() + new.len(),
    decreases x.len(),
{
    let y = x.insert(p, new);
    if p == 0 {
        assert(y.drop_first() =~= x);
    } else {
        lemma_flat_insert(x.drop_first(), p - 1, new);
        assert(y.drop_first() =~= x.drop_first().insert(p - 1, new));
        assert(y[0] == x[0]);
    }
}

/// Chunk `i` of a file, as it is told to others: the bytes from `i` chunk sizes on, as many as a chunk has or
/// as are left. There are as many chunks as it takes to reach the end.
pub proof fn lemma_chunks_cover_the_file(data: Seq<u8>, chunk_size: nat, i: int)
    requires
        chunk_size > 0,
        i >= 0,
    ensures
        i < chunk::metas_of(data, chunk_size).len() <==> i * chunk_size < data.len(),
        i * chunk_size < data.len() ==> ({
            let start = i * chunk_size;
            let end = if start + chunk_size < data.len() {
                start + chunk_size
            } else {
                data.len() as int
            };
            let m = chunk::metas_of(data, chunk_size)[i];
            &&& m.index == i
            &&& m.offset == start
            &&& chunk_size <= u32::MAX ==> m.len == end - start
            &&& m.hash == hash::blake3_digest(data.subrange(start, end))
        }),
{
    let n = chunk::chunk_count(data.len(), chunk_size);
    if i < n {
        chunk::lemma_chunk_bounds(data.len(), chunk_size, i);
        let start = i * chunk_size;
        let end = if start + chunk_size < data.len() {
            start + chunk_size
        } else {
            data.len() as int
        };
        assert(chunk::piece(data, chunk_size, i) =~= data.subrange(start, end));
    } else if n > 0 {
        chunk::lemma_chunk_bounds(data.len(), chunk_size, n - 1);
        assert(i * chunk_size >= n * chunk_size) by (nonlinear_arith)
            requires
                i >= n,
                chunk_size > 0,
        ;
    } else {
        chunk::lemma_pieces_make_data(data, chunk_size);
        assert(Seq::new(0, |i: int| chunk::piece(data, chunk_size, i)) =~= Seq::<Seq<u8>>::empty());
        assert(i * chunk_size >= 0) by (nonlinear_arith)
            requires
                i >= 0,
                chunk_size > 0,
        ;
    }
}

/// Two contents do not make the hash function collide: neither on two chunks at the same place, nor on the
/// hashes of all their chunks.
pub open spec fn contents_told_apart(a: Seq<u8>, b: Seq<u8>, chunk_size: nat) -> bool {
    &&& forall|i: int|
        #![trigger chunk::piece(a, chunk_size, i)]
        0 <= i < chunk::chunk_count(a.len(), chunk_size) && i < chunk::chunk_count(b.len(), chunk_size) ==> !collide(
            chunk::piece(a, chunk_size, i),
            chunk::piece(b, chunk_size, i),
        )
    &&& !collide(all_hashes(chunk::metas_of(a, chunk_size)), all_hashes(chunk::metas_of(b, chunk_size)))
}

/// Any change of a file, wherever it is, changes the hash of the file.
pub proof fn lemma_any_change_of_content_changes_the_hash(a: Seq<u8>, b: Seq<u8>, chunk_size: nat)
    requires
        chunk_size > 0,
        hashes_have_32_bytes(),
        contents_told_apart(a, b, chunk_size),
        a != b,
    ensures
        merkle::tree_hash(merkle::file_tree(a, chunk_size)) != merkle::tree_hash(merkle::file_tree(b, chunk_size)),
{
    let x = chunk::metas_of(a, chunk_size);
    let y = chunk::metas_of(b, chunk_size);
    if chunk::file_digest(x) == chunk::file_digest(y) {
        lemma_file_hash_tells_every_chunk(x, y);
        let ps = Seq::new(chunk::chunk_count(a.len(), chunk_size), |i: int| chunk::piece(a, chunk_size, i));
        let qs = Seq::new(chunk::chunk_count(b.len(), chunk_size), |i: int| chunk::piece(b, chunk_size, i));
        assert forall|i: int| 0 <= i < ps.len() implies ps[i] == qs[i] by {
            assert(x[i].hash == y[i].hash);
            assert(!collide(chunk::piece(a, chunk_size, i), chunk::piece(b, chunk_size, i)));
        }
        assert(ps =~= qs);
        chunk::lemma_pieces_make_data(a, chunk_size);
        chunk::lemma_pieces_make_data(b, chunk_size);
    }
}

/// The same content has the same node, whoever has it.
pub proof fn lemma_same_content_same_hash(a: Seq<u8>, b: Seq<u8>, chunk_size: nat)
    requires
        a == b,
    ensures
        merkle::file_tree(a, chunk_size) == merkle::file_tree(b, chunk_size),
{
}

/// Every hash that a tree carries has 32 bytes.
pub open spec fn tree_hashes_have_32_bytes(t: Tree) -> bool
    decreases t,
{
    &&& merkle::tree_hash(t).len() == 32
    &&& match t {
        Tree::File { .. } => true,
        Tree::Directory { children, .. } => forall|i: int|
            0 <= i < children.len() ==> tree_hashes_have_32_bytes((#[trigger] children[i]).1),
    }
}

proof fn lemma_child_hashes(t: Tree)
    requires
        t is Directory,
        tree_hashes_have_32_bytes(t),
    ensures
        forall|i: int| 0 <= i < t->children.len() ==> merkle::tree_hash((#[trigger] t->children[i]).1).len() == 32,
{
    let children = t->children;
    assert forall|i: int| 0 <= i < children.len() implies merkle::tree_hash((#[trigger] children[i]).1).len() == 32 by {
        assert(tree_hashes_have_32_bytes(children[i].1));
    }
}

/// No directory on the way to a node has its bytes collide with those it has once another node stands there.
pub open spec fn way_told_apart(t: Tree, ns: Seq<Seq<char>>, new: Tree) -> bool
    decreases ns.len(),
{
    match t {
        Tree::File { .. } => true,
        Tree::Directory { children, .. } => if ns.len() == 0 {
            true
        } else if ns.len() == 1 {
            !collide(directory_bytes(children), directory_bytes(names::put(children, ns[0], new)))
        } else {
            match names::lookup(children, ns[0]) {
                None => true,
                Some(c) => {
                    &&& way_told_apart(c, ns.drop_first(), new)
                    &&& !collide(
                        directory_bytes(children),
                        directory_bytes(names::put(children, ns[0], merkle::tree_insert(c, ns.drop_first(), new))),
                    )
                },
            }
        },
    }
}

/// A directory in which one child has another hash has another hash.
proof fn lemma_other_child_other_hash(children: Seq<(Seq<char>, Tree)>, k: Seq<char>, new: Tree)
    requires
        names::in_order(children),
        forall|i: int| 0 <= i < children.len() ==> merkle::tree_hash((#[trigger] children[i]).1).len() == 32,
        merkle::tree_hash(new).len() == 32,
        names::lookup(children, k) matches Some(c) && merkle::tree_hash(c) != merkle::tree_hash(new),
        !collide(directory_bytes(children), directory_bytes(names::put(children, k, new))),
    ensures
        merkle::dir_digest(names::put(children, k, new)) != merkle::dir_digest(children),
{
    let after = names::put(children, k, new);
    names::lemma_has_at_rank(children, k);
    let p = names::rank(children, k);
    if merkle::dir_digest(after) == merkle::dir_digest(children) {
        assert forall|i: int| 0 <= i < after.len() implies merkle::tree_hash((#[trigger] after[i]).1).len() == 32 by {
            if i != p {
                assert(after[i] == children[i]);
            }
        }
        assert forall|i: int| 0 <= i < children.len() implies vstd::utf8::encode_utf8((#[trigger] children[i]).0).len()
            == vstd::utf8::encode_utf8(after[i].0).len() by {
            if i != p {
                assert(after[i] == children[i]);
            }
        }
        lemma_directory_hash_tells_every_entry(children, after);
        assert(children[p] == children[p]);
        assert(after[p] == (k, new));
    }
}

/// A change anywhere in a folder reaches the root: where a node with another hash takes the place of one, the
/// hash of every directory above it changes.
pub proof fn lemma_any_change_reaches_the_root(t: Tree, ns: Seq<Seq<char>>, new: Tree)
    requires
        merkle::ordered(t),
        merkle::dirs_hashed(t),
        tree_hashes_have_32_bytes(t),
        hashes_have_32_bytes(),
        merkle::tree_hash(new).len() == 32,
        ns.len() > 0,
        merkle::find(t, ns) matches Some(old_node) && merkle::tree_hash(old_node) != merkle::tree_hash(new),
        way_told_apart(t, ns, new),
    ensures
        merkle::tree_hash(merkle::tree_insert(t, ns, new)) != merkle::tree_hash(t),
    decreases ns.len(),
{
    let children = t->children;
    let k = ns[0];
    names::lemma_has_at_rank(children, k);
    let c = names::lookup(children, k)->0;
    let p = names::rank(children, k);
    assert(children[p].1 == c);
    lemma_child_hashes(t);
    if ns.len() == 1 {
        assert(merkle::find(c, ns.drop_first()) == Some(c));
        lemma_other_child_other_hash(children, k, new);
    } else {
        lemma_any_change_reaches_the_root(c, ns.drop_first(), new);
        let below = merkle::tree_insert(c, ns.drop_first(), new);
        assert(c is Directory);
        assert(merkle::tree_hash(below).len() == 32);
        lemma_other_child_other_hash(children, k, below);
    }
}

/// Children that are the same have no differences.
proof fn lemma_kept_same(
    ac: Seq<(Seq<char>, Tree)>,
    bc: Seq<(Seq<char>, Tree)>,
    prefix: Seq<char>,
    from: int,
    n: nat,
)
    requires
        names::in_order(ac),
        0 <= from <= n <= bc.len(),
        bc.len() == ac.len(),
        forall|i: int| from <= i < n ==> ac[i] == bc[i],
    ensures
        merkle::kept_diff(ac, bc, prefix, n) == merkle::kept_diff(ac, bc, prefix, from as nat),
    decreases n,
{
    if from < n {
        lemma_kept_same(ac, bc, prefix, from, (n - 1) as nat);
        names::lemma_lookup_at(ac, n - 1);
        let before = merkle::kept_diff(ac, bc, prefix, (n - 1) as nat);
        let here = path::join_text(prefix, bc[n - 1].0);
        assert(ac[n - 1] == bc[n - 1]);
        assert(merkle::tree_diff(ac[n - 1].1, bc[n - 1].1, here) =~= Seq::<Change>::empty());
        assert(before + Seq::<Change>::empty() =~= before);
    }
}

/// Nothing is gone where the new directory has every name of the old one.
proof fn lemma_nothing_gone(ac: Seq<(Seq<char>, Tree)>, bc: Seq<(Seq<char>, Tree)>, prefix: Seq<char>, n: nat)
    requires
        n <= ac.len(),
        forall|i: int| 0 <= i < ac.len() ==> names::has_name(bc, (#[trigger] ac[i]).0),
    ensures
        merkle::gone_diff(ac, bc, prefix, n) == Seq::<Change>::empty(),
    decreases n,
{
    if n > 0 {
        lemma_nothing_gone(ac, bc, prefix, (n - 1) as nat);
        assert(names::has_name(bc, ac[n - 1].0));
    }
}

/// A change of one file is found, and nothing else is reported: the comparison of the tree before and after
/// it has one difference, at the path of the file.
pub proof fn lemma_one_changed_file_is_one_difference(t: Tree, ns: Seq<Seq<char>>, new: Tree, prefix: Seq<char>)
    requires
        merkle::ordered(t),
        merkle::dirs_hashed(t),
        diff_laws::plain_names(t),
        tree_hashes_have_32_bytes(t),
        hashes_have_32_bytes(),
        merkle::tree_hash(new).len() == 32,
        new is File,
        merkle::find(t, ns) matches Some(old_file) && old_file is File && merkle::tree_hash(old_file)
            != merkle::tree_hash(new),
        ns.len() > 0,
        way_told_apart(t, ns, new),
    ensures
        merkle::tree_diff(t, merkle::tree_insert(t, ns, new), prefix).len() == 1,
        merkle::tree_diff(t, merkle::tree_insert(t, ns, new), prefix)[0] matches Change::Modified(p, o, n) && o
            == merkle::find(t, ns)->0 && n == new && path::path_names(p) == path::path_names(prefix) + ns,
    decreases ns.len(),
{
    let children = t->children;
    let k = ns[0];
    let rest = ns.drop_first();
    names::lemma_has_at_rank(children, k);
    let c = names::lookup(children, k)->0;
    let p = names::rank(children, k);
    assert(children[p] == (k, c));
    path::lemma_join_name(prefix, k);
    let here = path::join_text(prefix, k);
    lemma_any_change_reaches_the_root(t, ns, new);
    let below = if ns.len() == 1 {
        new
    } else {
        merkle::tree_insert(c, rest, new)
    };
    let after = names::put(children, k, below);
    assert(merkle::tree_insert(t, ns, new) == merkle::dir_tree(after));
    let found = merkle::tree_diff(c, below, here);
    if ns.len() == 1 {
        assert(merkle::find(c, rest) == Some(c));
        assert(path::path_names(prefix).push(k) =~= path::path_names(prefix) + ns);
    } else {
        lemma_one_changed_file_is_one_difference(c, rest, new, here);
        assert(path::path_names(prefix).push(k) + rest =~= path::path_names(prefix) + ns);
    }
    assert(found.len() == 1);
    let kept = merkle::kept_diff(children, after, prefix, after.len());
    assert forall|i: int| 0 <= i < after.len() && i != p implies after[i] == children[i] by {}
    lemma_kept_same(children, after, prefix, 0, p as nat);
    lemma_kept_same(children, after, prefix, p + 1, after.len());
    assert(merkle::kept_diff(children, after, prefix, (p + 1) as nat) == merkle::kept_diff(
        children,
        after,
        prefix,
        p as nat,
    ) + found);
    assert(kept =~= found);
    assert forall|i: int| 0 <= i < children.len() implies names::has_name(after, (#[trigger] children[i]).0) by {
        if i == p {
            assert(after[p].0 == k);
        } else {
            assert(after[i].0 == children[i].0);
        }
    }
    lemma_nothing_gone(children, after, prefix, children.len());
    assert(merkle::tree_diff(t, merkle::tree_insert(t, ns, new), prefix) =~= found);
}

/// Two versions of a file that differ anywhere give different root hashes, and the comparison of the two
/// folders reports the file as modified, and nothing else.
pub proof fn lemma_any_change_of_content_is_found(
    t: Tree,
    ns: Seq<Seq<char>>,
    before: Seq<u8>,
    after: Seq<u8>,
    chunk_size: nat,
    prefix: Seq<char>,
)
    requires
        chunk_size > 0,
        before != after,
        contents_told_apart(before, after, chunk_size),
        merkle::ordered(t),
        merkle::dirs_hashed(t),
        diff_laws::plain_names(t),
        tree_hashes_have_32_bytes(t),
        hashes_have_32_bytes(),
        ns.len() > 0,
        merkle::find(t, ns) == Some(merkle::file_tree(before, chunk_size)),
        way_told_apart(t, ns, merkle::file_tree(after, chunk_size)),
    ensures
        ({
            let next = merkle::tree_insert(t, ns, merkle::file_tree(after, chunk_size));
            let d = merkle::tree_diff(t, next, prefix);
            &&& merkle::tree_hash(next) != merkle::tree_hash(t)
            &&& d.len() == 1
            &&& d[0] matches Change::Modified(p, o, n) && o == merkle::file_tree(before, chunk_size) && n
                == merkle::file_tree(after, chunk_size) && path::path_names(p) == path::path_names(prefix) + ns
        }),
{
    let new = merkle::file_tree(after, chunk_size);
    lemma_any_change_of_content_changes_the_hash(before, after, chunk_size);
    lemma_any_change_reaches_the_root(t, ns, new);
    lemma_one_changed_file_is_one_difference(t, ns, new, prefix);
}

/// The children have the same names, in the same order.
pub open spec fn same_names(a: Seq<(Seq<char>, Tree)>, b: Seq<(Seq<char>, Tree)>) -> bool {
    a.len() == b.len() && forall|i: int| 0 <= i < a.len() ==> (#[trigger] a[i]).0 == b[i].0
}

/// Whether the hashes of a file and a directory are taken of different bytes, which do not collide.
pub open spec fn file_and_directory_told_apart(
    file_hash: Seq<u8>,
    chunks: Seq<Meta>,
    dir_hash: Seq<u8>,
    children: Seq<(Seq<char>, Tree)>,
) -> bool {
    &&& file_hash == hash::blake3_digest(all_hashes(chunks))
    &&& dir_hash == hash::blake3_digest(directory_bytes(children))
    &&& all_hashes(chunks) != directory_bytes(children)
    &&& !collide(all_hashes(chunks), directory_bytes(children))
}

/// Whether the hash function and the bytes it is given tell two trees apart, wherever they meet: the files are
/// made of contents that do not collide; two directories have the same names, or entries that are other
/// bytes; and a file and a directory are hashed of other bytes. The bytes that are hashed never collide.
pub open spec fn told_apart(a: Tree, b: Tree, chunk_size: nat) -> bool
    decreases b,
{
    match (a, b) {
        (Tree::File { .. }, Tree::File { .. }) => exists|x: Seq<u8>, y: Seq<u8>|
            a == merkle::file_tree(x, chunk_size) && b == merkle::file_tree(y, chunk_size)
                && #[trigger] contents_told_apart(x, y, chunk_size),
        (Tree::Directory { hash: ah, children: ac }, Tree::Directory { hash: bh, children: bc }) => {
            &&& ah == hash::blake3_digest(directory_bytes(ac))
            &&& bh == hash::blake3_digest(directory_bytes(bc))
            &&& !collide(directory_bytes(ac), directory_bytes(bc))
            &&& same_names(ac, bc) || directory_bytes(ac) != directory_bytes(bc)
            &&& forall|i: int|
                0 <= i < bc.len() ==> match names::lookup(ac, (#[trigger] bc[i]).0) {
                    Some(o) => told_apart(o, bc[i].1, chunk_size),
                    None => true,
                }
        },
        (Tree::File { hash: ah, chunks, .. }, Tree::Directory { hash: bh, children }) => file_and_directory_told_apart(
            ah,
            chunks,
            bh,
            children,
        ),
        (Tree::Directory { hash: ah, children }, Tree::File { hash: bh, chunks, .. }) => file_and_directory_told_apart(
            bh,
            chunks,
            ah,
            children,
        ),
    }
}

/// Where the hash function has nothing collide, no two trees that meet in a comparison have one hash unless
/// they are the same: what the laws on the comparison of trees ask for.
pub proof fn lemma_no_collision_of_bytes_no_collision_of_trees(a: Tree, b: Tree, chunk_size: nat)
    requires
        chunk_size > 0,
        hashes_have_32_bytes(),
        merkle::ordered(a),
        merkle::ordered(b),
        tree_hashes_have_32_bytes(a),
        tree_hashes_have_32_bytes(b),
        told_apart(a, b, chunk_size),
    ensures
        diff_laws::no_collision(a, b),
    decreases b,
{
    match (a, b) {
        (Tree::File { .. }, Tree::File { .. }) => {
            let (x, y) = choose|x: Seq<u8>, y: Seq<u8>|
                a == merkle::file_tree(x, chunk_size) && b == merkle::file_tree(y, chunk_size)
                    && #[trigger] contents_told_apart(x, y, chunk_size);
            if x != y {
                lemma_any_change_of_content_changes_the_hash(x, y, chunk_size);
            }
        },
        (Tree::Directory { hash: ah, children: ac }, Tree::Directory { hash: bh, children: bc }) => {
            assert forall|i: int| 0 <= i < bc.len() implies match names::lookup(ac, (#[trigger] bc[i]).0) {
                Some(o) => diff_laws::no_collision(o, bc[i].1),
                None => true,
            } by {
                names::lemma_has_at_rank(ac, bc[i].0);
                if let Some(o) = names::lookup(ac, bc[i].0) {
                    assert(ac[names::rank(ac, bc[i].0)].1 == o);
                    lemma_no_collision_of_bytes_no_collision_of_trees(o, bc[i].1, chunk_size);
                }
            }
            if ah == bh {
                lemma_directory_hash_is_of_every_entry(ac);
                lemma_directory_hash_is_of_every_entry(bc);
                assert(same_names(ac, bc));
                assert forall|i: int| 0 <= i < ac.len() implies vstd::utf8::encode_utf8((#[trigger] ac[i]).0).len()
                    == vstd::utf8::encode_utf8(bc[i].0).len() by {}
                lemma_child_hashes(a);
                lemma_child_hashes(b);
                lemma_directory_hash_tells_every_entry(ac, bc);
                assert forall|i: int| 0 <= i < ac.len() implies ac[i] == bc[i] by {
                    assert(ac[i].0 == bc[i].0);
                    names::lemma_lookup_at(ac, i);
                    assert(names::lookup(ac, bc[i].0) == Some(ac[i].1));
                    assert(diff_laws::no_collision(ac[i].1, bc[i].1));
                }
                assert(ac =~= bc);
            }
        },
        _ => {},
    }
}

/// How many bytes the entries of a directory take: those of each name, and 32 for each hash.
pub open spec fn entries_length(children: Seq<(Seq<char>, Tree)>) -> int
    decreases children.len(),
{
    if children.len() == 0 {
        0
    } else {
        entries_length(children.drop_last()) + vstd::utf8::encode_utf8(children.last().0).len() + 32
    }
}

proof fn lemma_entries_length(children: Seq<(Seq<char>, Tree)>)
    requires
        forall|i: int| 0 <= i < children.len() ==> merkle::tree_hash((#[trigger] children[i]).1).len() == 32,
    ensures
        all_entries(children).len() == entries_length(children),
    decreases children.len(),
{
    let parts = Seq::new(
        children.len(),
        |i: int| vstd::utf8::encode_utf8(children[i].0) + merkle::tree_hash(children[i].1),
    );
    parts.lemma_flatten_and_flatten_alt_are_equivalent();
    if children.len() > 0 {
        let rest = children.drop_last();
        assert forall|i: int| 0 <= i < rest.len() implies merkle::tree_hash((#[trigger] rest[i]).1).len() == 32 by {
            assert(rest[i] == children[i]);
        }
        assert(children[children.len() - 1] == children.last());
        lemma_entries_length(rest);
        let before = Seq::new(
            rest.len(),
            |i: int| vstd::utf8::encode_utf8(rest[i].0) + merkle::tree_hash(rest[i].1),
        );
        before.lemma_flatten_and_flatten_alt_are_equivalent();
        assert(parts.drop_last() =~= before);
    }
}

/// Two directories whose entries take different numbers of bytes have different hashes, unless the bytes that
/// were hashed collide: so an entry that comes, goes, or gets a longer or shorter name is always noticed.
pub proof fn lemma_directory_hash_tells_the_length_of_its_entries(
    a: Seq<(Seq<char>, Tree)>,
    b: Seq<(Seq<char>, Tree)>,
)
    requires
        forall|i: int| 0 <= i < a.len() ==> merkle::tree_hash((#[trigger] a[i]).1).len() == 32,
        forall|i: int| 0 <= i < b.len() ==> merkle::tree_hash((#[trigger] b[i]).1).len() == 32,
        !collide(directory_bytes(a), directory_bytes(b)),
        merkle::dir_digest(a) == merkle::dir_digest(b),
    ensures
        entries_length(a) == entries_length(b),
{
    lemma_directory_hash_is_of_every_entry(a);
    lemma_directory_hash_is_of_every_entry(b);
    lemma_entries_length(a);
    lemma_entries_length(b);
    if a.len() > 0 {
        lemma_entries_length_is_large(a);
    }
    if b.len() > 0 {
        lemma_entries_length_is_large(b);
    }
}

proof fn lemma_entries_length_is_large(children: Seq<(Seq<char>, Tree)>)
    requires
        children.len() > 0,
    ensures
        entries_length(children) >= 32,
    decreases children.len(),
{
    if children.len() > 1 {
        lemma_entries_length_is_large(children.drop_last());
    } else {
        assert(entries_length(children.drop_last()) == 0);
    }
}

} // verus!
