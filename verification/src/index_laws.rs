//! What the sync index promises over several operations.

use vstd::prelude::*;

use crate::conflict;
use crate::conflict::{Causality, PeerId, Resolution, TombstoneModel};
use crate::diff_laws;
use crate::inbound;
use crate::index;
use crate::index::{IndexModel, MetaModel};
use crate::merkle;
use crate::merkle::Tree;
use crate::names;
use crate::path;
use crate::reconcile;
use crate::reconcile::ItemModel;
use crate::text;
use crate::tree_laws;

verus! {

broadcast use vstd::seq::group_seq_axioms;

/// An entry that stays was there.
proof fn lemma_outside_from<V>(s: Seq<(Seq<char>, V)>, rel: Seq<char>, i: int) -> (j: int)
    requires
        0 <= i < index::outside(s, rel).len(),
    ensures
        0 <= j < s.len(),
        s[j] == index::outside(s, rel)[i],
        !index::lies_below(s[j].0, rel),
    decreases s.len(),
{
    let before = index::outside(s.drop_last(), rel);
    if i < before.len() {
        lemma_outside_from(s.drop_last(), rel, i)
    } else {
        s.len() - 1
    }
}

/// An entry that does not lie below the path stays.
proof fn lemma_outside_to<V>(s: Seq<(Seq<char>, V)>, rel: Seq<char>, j: int) -> (i: int)
    requires
        0 <= j < s.len(),
        !index::lies_below(s[j].0, rel),
    ensures
        0 <= i < index::outside(s, rel).len(),
        index::outside(s, rel)[i] == s[j],
    decreases s.len(),
{
    if j < s.len() - 1 {
        lemma_outside_to(s.drop_last(), rel, j)
    } else {
        index::outside(s.drop_last(), rel).len() as int
    }
}

/// The entries that stay are in order.
proof fn lemma_outside_pair<V>(s: Seq<(Seq<char>, V)>, rel: Seq<char>, i: int, j: int)
    requires
        names::in_order(s),
        0 <= i < j < index::outside(s, rel).len(),
    ensures
        text::lex_lt(index::outside(s, rel)[i].0, index::outside(s, rel)[j].0),
    decreases s.len(),
{
    let r = s.drop_last();
    assert(names::in_order(r)) by {
        assert forall|i: int, j: int| 0 <= i < j < r.len() implies text::lex_lt(#[trigger] r[i].0, #[trigger] r[j].0) by {
            assert(r[i] == s[i] && r[j] == s[j]);
        }
    }
    let before = index::outside(r, rel);
    if j < before.len() {
        lemma_outside_pair(r, rel, i, j);
    } else {
        let k = lemma_outside_from(r, rel, i);
        assert(s[k] == r[k]);
        assert(text::lex_lt(s[k].0, s[s.len() - 1].0));
    }
}

/// Leaving out what lies below a path keeps the entries in order, and every other entry as it is.
pub proof fn lemma_outside<V>(s: Seq<(Seq<char>, V)>, rel: Seq<char>, k: Seq<char>)
    requires
        names::in_order(s),
    ensures
        names::in_order(index::outside(s, rel)),
        names::lookup(index::outside(s, rel), k) == if index::lies_below(k, rel) {
            None
        } else {
            names::lookup(s, k)
        },
{
    let t = index::outside(s, rel);
    assert forall|i: int, j: int| 0 <= i < j < t.len() implies text::lex_lt(#[trigger] t[i].0, #[trigger] t[j].0) by {
        lemma_outside_pair(s, rel, i, j);
    }
    if names::has_name(t, k) {
        let i = choose|i: int| 0 <= i < t.len() && (#[trigger] t[i]).0 == k;
        let j = lemma_outside_from(s, rel, i);
        names::lemma_lookup_at(s, j);
        names::lemma_lookup_at(t, i);
    } else if names::has_name(s, k) && !index::lies_below(k, rel) {
        let j = choose|j: int| 0 <= j < s.len() && (#[trigger] s[j]).0 == k;
        let i = lemma_outside_to(s, rel, j);
        assert(t[i].0 == k);
    }
}

/// The metadata that a change leaves is the one that is found afterwards.
pub proof fn lemma_changed_meta(ix: IndexModel, rel: Seq<char>, data: Seq<u8>, now: u64)
    requires
        names::in_order(ix.file_meta),
    ensures
        index::meta_at(index::after_change(ix, rel, data, now), rel) == Some(
            MetaModel {
                clock: conflict::ticked(index::clock_at(ix, rel), ix.local_peer),
                last_modified: now,
                last_modified_by: ix.local_peer,
            },
        ),
{
    let key = path::clean_text(rel);
    lemma_outside(ix.file_meta, rel, key);
    names::lemma_lookup_put(
        index::outside(ix.file_meta, rel),
        key,
        MetaModel {
            clock: conflict::ticked(index::clock_at(ix, rel), ix.local_peer),
            last_modified: now,
            last_modified_by: ix.local_peer,
        },
        key,
    );
}

/// A local change is recorded: the tree has the new content at the path, and the clock of the file is
/// later than it was.
pub proof fn lemma_change_is_recorded(ix: IndexModel, rel: Seq<char>, data: Seq<u8>, now: u64)
    requires
        merkle::ordered(ix.tree),
        names::in_order(ix.file_meta),
        conflict::count(index::clock_at(ix, rel), ix.local_peer) < u64::MAX,
        tree_laws::open_way(ix.tree, path::path_names(rel)),
    ensures
        merkle::find(index::after_change(ix, rel, data, now).tree, path::path_names(rel)) == Some(
            merkle::file_tree(data, ix.chunk_size),
        ),
        conflict::relation(
            index::clock_at(index::after_change(ix, rel, data, now), rel),
            index::clock_at(ix, rel),
        ) == Causality::After,
{
    tree_laws::lemma_insert_then_find(ix.tree, path::path_names(rel), merkle::file_tree(data, ix.chunk_size));
    lemma_changed_meta(ix, rel, data, now);
    conflict::lemma_no_later_is_an_order(index::clock_at(ix, rel), index::clock_at(ix, rel), index::clock_at(ix, rel));
    conflict::lemma_tick_is_later(index::clock_at(ix, rel), ix.local_peer, index::clock_at(ix, rel));
}

/// A local change carries the time and the name of this peer, and counts one for this peer and none for any
/// other. The rest of the index, but for the tree and the metadata, stays as it is.
pub proof fn lemma_a_change_is_dated_and_signed(
    ix: IndexModel,
    rel: Seq<char>,
    data: Seq<u8>,
    now: u64,
    other: PeerId,
)
    requires
        names::in_order(ix.file_meta),
        conflict::count(index::clock_at(ix, rel), ix.local_peer) < u64::MAX,
        other != ix.local_peer,
    ensures
        ({
            let next = index::after_change(ix, rel, data, now);
            &&& index::meta_at(next, rel) matches Some(m) && m.last_modified == now && m.last_modified_by == ix.local_peer
            &&& conflict::count(index::clock_at(next, rel), ix.local_peer) == conflict::count(
                index::clock_at(ix, rel),
                ix.local_peer,
            ) + 1
            &&& conflict::count(index::clock_at(next, rel), other) == conflict::count(index::clock_at(ix, rel), other)
            &&& next.tombstones == ix.tombstones
            &&& next.local_peer == ix.local_peer
            &&& next.root_path == ix.root_path
            &&& next.exclude_patterns == ix.exclude_patterns
            &&& next.chunk_size == ix.chunk_size
            &&& next.tombstone_ttl_secs == ix.tombstone_ttl_secs
        }),
{
    lemma_changed_meta(ix, rel, data, now);
}

/// The clock of a file that was changed here is later than it was, whatever stood in the way of the change.
pub proof fn lemma_the_clock_of_a_change_is_later(ix: IndexModel, rel: Seq<char>, data: Seq<u8>, now: u64)
    requires
        names::in_order(ix.file_meta),
        conflict::count(index::clock_at(ix, rel), ix.local_peer) < u64::MAX,
    ensures
        conflict::relation(index::clock_at(ix, rel), index::clock_at(index::after_change(ix, rel, data, now), rel))
            == Causality::Before,
{
    let before = index::clock_at(ix, rel);
    lemma_changed_meta(ix, rel, data, now);
    conflict::lemma_no_later_is_an_order(before, before, before);
    conflict::lemma_tick_is_later(before, ix.local_peer, before);
    conflict::lemma_relation_flips(conflict::ticked(before, ix.local_peer), before);
}

/// A deletion, by this peer or another, changes neither other files nor the settings of the index: and it adds
/// one tombstone, behind those that were there.
pub proof fn lemma_a_deletion_leaves_the_rest(ix: IndexModel, tombstone: TombstoneModel, now: u64, other: Seq<char>)
    requires
        merkle::ordered(ix.tree),
        names::in_order(ix.file_meta),
        tree_laws::apart(path::path_names(tombstone.path), path::path_names(other)),
    ensures
        ({
            let next = inbound::after_remote_delete(ix, tombstone);
            &&& index::meta_at(next, other) == index::meta_at(ix, other)
            &&& merkle::find(next.tree, path::path_names(other)) == merkle::find(ix.tree, path::path_names(other))
            &&& next.tombstones == ix.tombstones.push(tombstone)
            &&& next.local_peer == ix.local_peer
            &&& next.root_path == ix.root_path
            &&& next.exclude_patterns == ix.exclude_patterns
            &&& next.chunk_size == ix.chunk_size
            &&& next.tombstone_ttl_secs == ix.tombstone_ttl_secs
        }),
        ({
            let next = index::after_delete(ix, tombstone.path, now);
            &&& next.local_peer == ix.local_peer
            &&& next.root_path == ix.root_path
            &&& next.exclude_patterns == ix.exclude_patterns
            &&& next.chunk_size == ix.chunk_size
            &&& next.tombstone_ttl_secs == ix.tombstone_ttl_secs
        }),
{
    let rel = tombstone.path;
    let key = path::clean_text(rel);
    let far = path::clean_text(other);
    path::lemma_clean_same_parts(rel, other);
    if path::parts(rel) == path::parts(other) {
        let ns = path::path_names(rel);
        assert(ns.take(ns.len() as int) =~= ns);
    }
    path::lemma_clean_keeps_parts(other);
    lemma_outside(ix.file_meta, rel, far);
    names::lemma_lookup_without(index::outside(ix.file_meta, rel), key, far);
    tree_laws::lemma_remove_elsewhere(ix.tree, path::path_names(rel), path::path_names(other));
}

/// Purging takes nothing but tombstones from an index.
pub proof fn lemma_purging_leaves_the_rest(ix: IndexModel, now: u64)
    ensures
        index::after_gc(ix, now).tombstones == index::unexpired(ix.tombstones, now, ix.tombstone_ttl_secs),
        index::after_gc(ix, now) == (IndexModel { tombstones: index::after_gc(ix, now).tombstones, ..ix }),
{
}

/// Neither a change nor a deletion touches other files: what is known of them is as before.
pub proof fn lemma_other_files_are_left_alone(
    ix: IndexModel,
    rel: Seq<char>,
    data: Seq<u8>,
    now: u64,
    other: Seq<char>,
)
    requires
        merkle::ordered(ix.tree),
        names::in_order(ix.file_meta),
        tree_laws::apart(path::path_names(rel), path::path_names(other)),
    ensures
        index::meta_at(index::after_change(ix, rel, data, now), other) == index::meta_at(ix, other),
        index::meta_at(index::after_delete(ix, rel, now), other) == index::meta_at(ix, other),
        merkle::find(index::after_change(ix, rel, data, now).tree, path::path_names(other)) == merkle::find(
            ix.tree,
            path::path_names(other),
        ),
        merkle::find(index::after_delete(ix, rel, now).tree, path::path_names(other)) == merkle::find(
            ix.tree,
            path::path_names(other),
        ),
{
    let key = path::clean_text(rel);
    let far = path::clean_text(other);
    path::lemma_clean_same_parts(rel, other);
    if path::parts(rel) == path::parts(other) {
        let ns = path::path_names(rel);
        assert(ns.take(ns.len() as int) =~= ns);
    }
    path::lemma_clean_keeps_parts(other);
    lemma_outside(ix.file_meta, rel, far);
    names::lemma_lookup_put(
        index::outside(ix.file_meta, rel),
        key,
        MetaModel {
            clock: conflict::ticked(index::clock_at(ix, rel), ix.local_peer),
            last_modified: now,
            last_modified_by: ix.local_peer,
        },
        far,
    );
    names::lemma_lookup_without(index::outside(ix.file_meta, rel), key, far);
    tree_laws::lemma_insert_elsewhere(
        ix.tree,
        path::path_names(rel),
        merkle::file_tree(data, ix.chunk_size),
        path::path_names(other),
    );
    tree_laws::lemma_remove_elsewhere(ix.tree, path::path_names(rel), path::path_names(other));
}

/// A local deletion is recorded: the file is neither in the tree nor known any more, and the newest
/// tombstone carries its path and the clock that it had.
pub proof fn lemma_deletion_is_recorded(ix: IndexModel, rel: Seq<char>, now: u64)
    requires
        merkle::ordered(ix.tree),
        names::in_order(ix.file_meta),
        path::path_names(rel).len() > 0,
    ensures
        merkle::find(index::after_delete(ix, rel, now).tree, path::path_names(rel)) is None,
        index::meta_at(index::after_delete(ix, rel, now), rel) is None,
        index::after_delete(ix, rel, now).tombstones.last() == (TombstoneModel {
            path: rel,
            deleted_by: ix.local_peer,
            clock: index::clock_at(ix, rel),
            timestamp: now,
        }),
        index::after_delete(ix, rel, now).tombstones.drop_last() == ix.tombstones,
{
    let key = path::clean_text(rel);
    tree_laws::lemma_remove_then_find(ix.tree, path::path_names(rel));
    lemma_outside(ix.file_meta, rel, key);
    names::lemma_lookup_without(index::outside(ix.file_meta, rel), key, key);
    assert(index::after_delete(ix, rel, now).tombstones.drop_last() =~= ix.tombstones);
}

/// The deletion of a file by a peer is recorded: the file is neither in the tree nor known any more, and
/// the tombstone is kept.
pub proof fn lemma_remote_deletion_is_recorded(ix: IndexModel, tombstone: TombstoneModel)
    requires
        merkle::ordered(ix.tree),
        names::in_order(ix.file_meta),
        path::path_names(tombstone.path).len() > 0,
    ensures
        merkle::find(inbound::after_remote_delete(ix, tombstone).tree, path::path_names(tombstone.path)) is None,
        index::meta_at(inbound::after_remote_delete(ix, tombstone), tombstone.path) is None,
        inbound::after_remote_delete(ix, tombstone).tombstones.contains(tombstone),
{
    let key = path::clean_text(tombstone.path);
    tree_laws::lemma_remove_then_find(ix.tree, path::path_names(tombstone.path));
    lemma_outside(ix.file_meta, tombstone.path, key);
    names::lemma_lookup_without(index::outside(ix.file_meta, tombstone.path), key, key);
    let ts = inbound::after_remote_delete(ix, tombstone).tombstones;
    assert(ts[ts.len() - 1] == tombstone);
}

/// Deleting a file that was just created gives back the tree.
pub proof fn lemma_deletion_undoes_creation(ix: IndexModel, rel: Seq<char>, data: Seq<u8>, now: u64, later: u64)
    requires
        merkle::ordered(ix.tree),
        merkle::dirs_hashed(ix.tree),
        path::path_names(rel).len() > 0,
        merkle::find(ix.tree, path::path_names(rel).drop_last()) matches Some(parent) && parent is Directory,
        merkle::find(ix.tree, path::path_names(rel)) is None,
    ensures
        index::after_delete(index::after_change(ix, rel, data, now), rel, later).tree == ix.tree,
{
    tree_laws::lemma_remove_undoes_insert(ix.tree, path::path_names(rel), merkle::file_tree(data, ix.chunk_size));
}

/// Every operation keeps the hashes of the tree right.
pub proof fn lemma_tree_stays_hashed(
    ix: IndexModel,
    rel: Seq<char>,
    data: Seq<u8>,
    now: u64,
    tombstone: TombstoneModel,
)
    requires
        merkle::ordered(ix.tree),
        merkle::hashed(ix.tree),
    ensures
        merkle::hashed(index::after_change(ix, rel, data, now).tree),
        merkle::hashed(index::after_delete(ix, rel, now).tree),
        merkle::hashed(inbound::after_remote_delete(ix, tombstone).tree),
{
    tree_laws::lemma_file_hashed(data, ix.chunk_size);
    tree_laws::lemma_insert_hashed(ix.tree, path::path_names(rel), merkle::file_tree(data, ix.chunk_size));
    tree_laws::lemma_remove_hashed(ix.tree, path::path_names(rel));
    tree_laws::lemma_remove_hashed(ix.tree, path::path_names(tombstone.path));
}

/// Purging keeps a tombstone exactly if it has not expired.
pub proof fn lemma_gc_keeps_what_lasts(ts: Seq<TombstoneModel>, now: u64, ttl: u64, t: TombstoneModel)
    ensures
        index::unexpired(ts, now, ttl).contains(t) <==> ts.contains(t) && !conflict::outlived(now, t.timestamp, ttl),
    decreases ts.len(),
{
    reveal(Seq::filter);
    if ts.len() > 0 {
        let rest = ts.drop_last();
        let before = index::unexpired(rest, now, ttl);
        let after = index::unexpired(ts, now, ttl);
        let last = ts.last();
        lemma_gc_keeps_what_lasts(rest, now, ttl, t);
        assert(ts.contains(t) <==> rest.contains(t) || t == last) by {
            if rest.contains(t) {
                let i = choose|i: int| 0 <= i < rest.len() && rest[i] == t;
                assert(ts[i] == t);
            }
            if t == last {
                assert(ts[ts.len() - 1] == t);
            }
            if ts.contains(t) {
                let i = choose|i: int| 0 <= i < ts.len() && ts[i] == t;
                if i < rest.len() {
                    assert(rest[i] == t);
                }
            }
        }
        if !conflict::outlived(now, last.timestamp, ttl) {
            assert(after == before.push(last));
            assert(after.contains(t) <==> before.contains(t) || t == last) by {
                if before.contains(t) {
                    let i = choose|i: int| 0 <= i < before.len() && before[i] == t;
                    assert(after[i] == t);
                }
                if t == last {
                    assert(after[after.len() - 1] == t);
                }
                if after.contains(t) {
                    let i = choose|i: int| 0 <= i < after.len() && after[i] == t;
                    if i < before.len() {
                        assert(before[i] == t);
                    }
                }
            }
        } else {
            assert(after == before);
        }
    }
}

/// Purging twice is purging once, at the later time.
pub proof fn lemma_gc_twice(ts: Seq<TombstoneModel>, now: u64, later: u64, ttl: u64)
    requires
        now <= later,
    ensures
        index::unexpired(index::unexpired(ts, now, ttl), later, ttl) == index::unexpired(ts, later, ttl),
    decreases ts.len(),
{
    reveal(Seq::filter);
    if ts.len() > 0 {
        let rest = ts.drop_last();
        let first = index::unexpired(rest, now, ttl);
        lemma_gc_twice(rest, now, later, ttl);
        if !conflict::outlived(now, ts.last().timestamp, ttl) {
            assert(first.push(ts.last()).drop_last() =~= first);
        }
    }
}

/// A change that is told is accepted by every peer whose version of the file is no later than the one
/// that was changed.
pub proof fn lemma_told_change_is_accepted(
    author: IndexModel,
    rel: Seq<char>,
    data: Seq<u8>,
    now: u64,
    other: IndexModel,
)
    requires
        names::in_order(author.file_meta),
        conflict::count(index::clock_at(author, rel), author.local_peer) < u64::MAX,
        conflict::no_later(index::clock_at(other, rel), index::clock_at(author, rel)),
    ensures
        conflict::resolution(
            index::clock_at(other, rel),
            index::clock_at(index::after_change(author, rel, data, now), rel),
            inbound::time_at(other, rel),
            now,
            author.local_peer,
            other.local_peer,
        ) == Resolution::Accept,
{
    lemma_changed_meta(author, rel, data, now);
    conflict::lemma_successor_is_accepted(
        index::clock_at(author, rel),
        author.local_peer,
        index::clock_at(other, rel),
        inbound::time_at(other, rel),
        now,
        other.local_peer,
    );
}

/// Two peers that changed the same version of a file apart from each other both see a conflict.
pub proof fn lemma_concurrent_changes_conflict(
    seen: Map<PeerId, u64>,
    a: PeerId,
    b: PeerId,
    a_time: u64,
    b_time: u64,
)
    requires
        a != b,
        conflict::count(seen, a) < u64::MAX,
        conflict::count(seen, b) < u64::MAX,
    ensures
        conflict::resolution(conflict::ticked(seen, a), conflict::ticked(seen, b), a_time, b_time, b, a) is Conflict,
        conflict::resolution(conflict::ticked(seen, b), conflict::ticked(seen, a), b_time, a_time, a, b) is Conflict,
{
    let x = conflict::ticked(seen, a);
    let y = conflict::ticked(seen, b);
    assert(conflict::count(x, a) > conflict::count(y, a));
    assert(conflict::count(y, b) > conflict::count(x, b));
}

/// What is known as a file is one: where the tree stands at `prefix`, the names of its key lead to a file.
proof fn lemma_key_leads_to_file(t: Tree, prefix: Seq<char>, k: Seq<char>)
    requires
        merkle::ordered(t),
        diff_laws::plain_names(t),
        index::is_file_key(t, prefix, k),
    ensures
        tree_laws::begins_with(path::path_names(k), path::path_names(prefix)),
        merkle::find(t, path::path_names(k).skip(path::path_names(prefix).len() as int)) matches Some(f) && f is File,
    decreases t,
{
    let start = path::path_names(prefix);
    let ns = path::path_names(k);
    match t {
        Tree::File { .. } => {
            path::lemma_clean_keeps_parts(prefix);
            assert(ns == start);
            assert(start.take(start.len() as int) =~= start);
            assert(start.skip(start.len() as int) =~= Seq::<Seq<char>>::empty());
        },
        Tree::Directory { children, .. } => {
            let i = choose|i: int|
                0 <= i < children.len() && index::is_file_key(
                    (#[trigger] children[i]).1,
                    path::join_text(prefix, children[i].0),
                    k,
                );
            let name = children[i].0;
            lemma_key_leads_to_file(children[i].1, path::join_text(prefix, name), k);
            path::lemma_join_name(prefix, name);
            names::lemma_lookup_at(children, i);
            let more = start.push(name);
            assert(ns.take(more.len() as int)[start.len() as int] == name);
            assert(ns.take(start.len() as int) =~= ns.take(more.len() as int).take(start.len() as int));
            assert(more.take(start.len() as int) =~= start);
            let rel = ns.skip(start.len() as int);
            assert(rel[0] == name);
            assert(rel.drop_first() =~= ns.skip(more.len() as int));
        },
    }
}

/// The keys of the files that a tree lists are those of its files.
proof fn lemma_listed_are_keys(t: Tree, base: Seq<char>, k: Seq<char>)
    ensures
        index::is_file_key(t, base, k) <==> exists|i: int|
            0 <= i < reconcile::files_of(t, base).len() && path::clean_text(
                (#[trigger] reconcile::files_of(t, base)[i]).path,
            ) == k,
    decreases t, 0nat,
{
    match t {
        Tree::File { .. } => {
            assert(reconcile::files_of(t, base)[0].path == base);
        },
        Tree::Directory { hash, children } => {
            lemma_listed_under_are_keys(children, base, children.len(), k);
            assert(reconcile::files_of(t, base) == reconcile::files_under(children, base, children.len()));
            if index::is_file_key(t, base, k) {
                let i = choose|i: int|
                    0 <= i < children.len() && index::is_file_key(
                        (#[trigger] children[i]).1,
                        path::join_text(base, children[i].0),
                        k,
                    );
                assert(index::is_file_key(children[i].1, path::join_text(base, children[i].0), k));
            } else {
                assert forall|i: int| 0 <= i < children.len() implies !index::is_file_key(
                    (#[trigger] children[i]).1,
                    path::join_text(base, children[i].0),
                    k,
                ) by {
                    if index::is_file_key(children[i].1, path::join_text(base, children[i].0), k) {
                        assert(t->children[i] == children[i]);
                        assert(index::is_file_key(t, base, k));
                    }
                }
            }
        },
    }
}

proof fn lemma_listed_under_are_keys(children: Seq<(Seq<char>, Tree)>, base: Seq<char>, n: nat, k: Seq<char>)
    requires
        n <= children.len(),
    ensures
        (exists|i: int|
            0 <= i < n && index::is_file_key((#[trigger] children[i]).1, path::join_text(base, children[i].0), k))
            <==> exists|i: int|
            0 <= i < reconcile::files_under(children, base, n).len() && path::clean_text(
                (#[trigger] reconcile::files_under(children, base, n)[i]).path,
            ) == k,
    decreases children, n,
{
    if n > 0 {
        let before = reconcile::files_under(children, base, (n - 1) as nat);
        let here = path::join_text(base, children[n - 1].0);
        let more = reconcile::files_of(children[n - 1].1, here);
        let all = reconcile::files_under(children, base, n);
        lemma_listed_under_are_keys(children, base, (n - 1) as nat, k);
        lemma_listed_are_keys(children[n - 1].1, here, k);
        if exists|i: int|
            0 <= i < n && index::is_file_key((#[trigger] children[i]).1, path::join_text(base, children[i].0), k) {
            let i = choose|i: int|
                0 <= i < n && index::is_file_key((#[trigger] children[i]).1, path::join_text(base, children[i].0), k);
            if i < n - 1 {
                let j = choose|j: int| 0 <= j < before.len() && path::clean_text((#[trigger] before[j]).path) == k;
                assert(all[j] == before[j]);
            } else {
                let j = choose|j: int| 0 <= j < more.len() && path::clean_text((#[trigger] more[j]).path) == k;
                assert(all[before.len() + j] == more[j]);
            }
        }
        if exists|i: int| 0 <= i < all.len() && path::clean_text((#[trigger] all[i]).path) == k {
            let i = choose|i: int| 0 <= i < all.len() && path::clean_text((#[trigger] all[i]).path) == k;
            if i < before.len() {
                assert(before[i] == all[i]);
                let j = choose|j: int|
                    0 <= j < n - 1 && index::is_file_key(
                        (#[trigger] children[j]).1,
                        path::join_text(base, children[j].0),
                        k,
                    );
                assert(index::is_file_key(children[j].1, path::join_text(base, children[j].0), k));
            } else {
                assert(more[i - before.len()] == all[i]);
                assert(index::is_file_key(children[n - 1].1, path::join_text(base, children[n - 1].0), k));
            }
        }
    }
}

/// The index knows exactly the files of its tree: a path is known if and only if it leads to a file.
pub proof fn lemma_known_files_are_the_files(t: Tree, k: Seq<char>, rel: Seq<Seq<char>>)
    requires
        merkle::ordered(t),
        diff_laws::plain_names(t),
    ensures
        index::is_file_key(t, Seq::empty(), k) ==> (merkle::find(t, path::path_names(k)) matches Some(f) && f is File),
        (merkle::find(t, rel) matches Some(f) && f is File) ==> exists|key: Seq<char>|
            #[trigger] index::is_file_key(t, Seq::empty(), key) && path::path_names(key) == rel,
{
    let root = Seq::<char>::empty();
    reconcile::lemma_root_has_no_names();
    if index::is_file_key(t, root, k) {
        lemma_key_leads_to_file(t, root, k);
        assert(path::path_names(k).skip(0) =~= path::path_names(k));
    }
    if merkle::find(t, rel) matches Some(f) && f is File {
        let i = reconcile::lemma_found_file_is_listed(t, root, rel);
        let item = reconcile::files_of(t, root)[i];
        let key = path::clean_text(item.path);
        lemma_listed_are_keys(t, root, key);
        path::lemma_clean_keeps_parts(item.path);
        assert(path::path_names(root) + rel =~= rel);
    }
}

/// Two files of a tree that are listed at different places have different names on the way.
proof fn lemma_listed_files_differ(t: Tree, base: Seq<char>, i: int, j: int)
    requires
        merkle::ordered(t),
        diff_laws::plain_names(t),
        0 <= i < j < reconcile::files_of(t, base).len(),
    ensures
        path::path_names(reconcile::files_of(t, base)[i].path) != path::path_names(
            reconcile::files_of(t, base)[j].path,
        ),
    decreases t, 0nat,
{
    if let Tree::Directory { children, .. } = t {
        lemma_listed_under_differ(t, base, children.len(), i, j);
    }
}

proof fn lemma_listed_under_differ(t: Tree, base: Seq<char>, n: nat, i: int, j: int)
    requires
        merkle::ordered(t),
        diff_laws::plain_names(t),
        t is Directory,
        n <= t->children.len(),
        0 <= i < j < reconcile::files_under(t->children, base, n).len(),
    ensures
        path::path_names(reconcile::files_under(t->children, base, n)[i].path) != path::path_names(
            reconcile::files_under(t->children, base, n)[j].path,
        ),
    decreases t->children, n,
{
    let children = t->children;
    let before = reconcile::files_under(children, base, (n - 1) as nat);
    let name = children[n - 1].0;
    let here = path::join_text(base, name);
    let start = path::path_names(base);
    if j < before.len() {
        lemma_listed_under_differ(t, base, (n - 1) as nat, i, j);
    } else if i >= before.len() {
        lemma_listed_files_differ(children[n - 1].1, here, i - before.len(), j - before.len());
    } else {
        let ns = path::path_names(before[i].path);
        let ms = path::path_names(reconcile::files_of(children[n - 1].1, here)[j - before.len()].path);
        let k = lemma_listed_under_name(t, base, (n - 1) as nat, i);
        reconcile::lemma_files_are_found(children[n - 1].1, here, j - before.len());
        path::lemma_join_name(base, name);
        assert(ms.take(start.len() as int + 1)[start.len() as int] == name);
        assert(ms[start.len() as int] == name);
        text::lemma_lex_irreflexive(name);
        assert(text::lex_lt(children[k].0, children[n - 1].0));
        assert(ns[start.len() as int] != ms[start.len() as int]);
    }
}

/// A file that is listed under the first children has the name of one of them on the way.
proof fn lemma_listed_under_name(t: Tree, base: Seq<char>, n: nat, i: int) -> (k: int)
    requires
        merkle::ordered(t),
        diff_laws::plain_names(t),
        t is Directory,
        n <= t->children.len(),
        0 <= i < reconcile::files_under(t->children, base, n).len(),
    ensures
        0 <= k < n,
        path::path_names(reconcile::files_under(t->children, base, n)[i].path).len() > path::path_names(base).len(),
        path::path_names(reconcile::files_under(t->children, base, n)[i].path)[path::path_names(base).len() as int]
            == t->children[k].0,
    decreases n,
{
    let children = t->children;
    let before = reconcile::files_under(children, base, (n - 1) as nat);
    if i < before.len() {
        lemma_listed_under_name(t, base, (n - 1) as nat, i)
    } else {
        let name = children[n - 1].0;
        let here = path::join_text(base, name);
        let start = path::path_names(base);
        reconcile::lemma_files_are_found(children[n - 1].1, here, i - before.len());
        path::lemma_join_name(base, name);
        let ns = path::path_names(reconcile::files_of(children[n - 1].1, here)[i - before.len()].path);
        assert(ns.take(start.len() as int + 1)[start.len() as int] == name);
        n - 1
    }
}

/// The names of entries in order.
spec fn names_of<V>(s: Seq<(Seq<char>, V)>) -> Seq<Seq<char>> {
    s.map_values(|e: (Seq<char>, V)| e.0)
}

/// Metadata of exactly the files of a tree is of as many as the tree has.
pub proof fn lemma_file_count_is_the_number_of_files<V>(t: Tree, file_meta: Seq<(Seq<char>, V)>)
    requires
        merkle::ordered(t),
        diff_laws::plain_names(t),
        names::in_order(file_meta),
        forall|k: Seq<char>| #[trigger] names::has_name(file_meta, k) <==> index::is_file_key(t, Seq::empty(), k),
    ensures
        file_meta.len() == reconcile::file_total(t),
{
    let root = Seq::<char>::empty();
    let files = reconcile::files_of(t, root);
    let keys = files.map_values(|i: ItemModel| path::clean_text(i.path));
    let known = names_of(file_meta);
    assert(keys.no_duplicates()) by {
        assert forall|i: int, j: int| 0 <= i < keys.len() && 0 <= j < keys.len() && i != j implies keys[i] != keys[j] by {
            path::lemma_clean_keeps_parts(files[i].path);
            path::lemma_clean_keeps_parts(files[j].path);
            if i < j {
                lemma_listed_files_differ(t, root, i, j);
            } else {
                lemma_listed_files_differ(t, root, j, i);
            }
        }
    }
    assert(known.no_duplicates()) by {
        assert forall|i: int, j: int| 0 <= i < known.len() && 0 <= j < known.len() && i != j implies known[i] != known[j] by {
            text::lemma_lex_irreflexive(known[i]);
            if i < j {
                assert(text::lex_lt(file_meta[i].0, file_meta[j].0));
            } else {
                assert(text::lex_lt(file_meta[j].0, file_meta[i].0));
            }
        }
    }
    assert forall|k: Seq<char>| known.contains(k) <==> keys.contains(k) by {
        lemma_listed_are_keys(t, root, k);
        assert(names::has_name(file_meta, k) <==> index::is_file_key(t, root, k));
        if known.contains(k) {
            let i = choose|i: int| 0 <= i < known.len() && known[i] == k;
            assert(file_meta[i].0 == k);
            let j = choose|j: int| 0 <= j < files.len() && path::clean_text((#[trigger] files[j]).path) == k;
            assert(keys[j] == k);
        }
        if keys.contains(k) {
            let j = choose|j: int| 0 <= j < keys.len() && keys[j] == k;
            assert(path::clean_text(files[j].path) == k);
            let i = choose|i: int| 0 <= i < file_meta.len() && (#[trigger] file_meta[i]).0 == k;
            assert(known[i] == k);
        }
    }
    assert(known.to_set() =~= keys.to_set());
    known.unique_seq_to_set();
    keys.unique_seq_to_set();
    reconcile::lemma_files_are_counted(t, root);
}

/// Tombstones are purged one by one, and those that stay keep their order.
pub proof fn lemma_tombstones_are_purged_one_by_one(ts: Seq<TombstoneModel>, t: TombstoneModel, now: u64, ttl: u64)
    ensures
        index::unexpired(Seq::empty(), now, ttl) == Seq::<TombstoneModel>::empty(),
        index::unexpired(ts.push(t), now, ttl) == if now as int > t.timestamp as int + ttl as int {
            index::unexpired(ts, now, ttl)
        } else {
            index::unexpired(ts, now, ttl).push(t)
        },
{
    reveal(Seq::filter);
    assert(ts.push(t).drop_last() =~= ts);
    assert(index::unexpired(Seq::empty(), now, ttl) =~= Seq::<TombstoneModel>::empty());
}

/// A path lies below another exactly where it has the names of the other, and at least one more behind them.
pub proof fn lemma_what_lies_below(k: Seq<char>, rel: Seq<char>, rest: Seq<Seq<char>>)
    ensures
        path::path_names(rel).len() > 0 && rest.len() > 0 && path::path_names(k) == path::path_names(rel) + rest
            ==> index::lies_below(k, rel),
        index::lies_below(k, rel) ==> path::path_names(rel).len() > 0 && path::path_names(k).len()
            > path::path_names(rel).len() && path::path_names(k) == path::path_names(rel) + path::path_names(k).skip(
            path::path_names(rel).len() as int,
        ),
{
    let ks = path::path_names(k);
    let ns = path::path_names(rel);
    if ks == ns + rest {
        assert(ks.take(ns.len() as int) =~= ns);
    }
    if index::lies_below(k, rel) {
        assert(ks =~= ks.take(ns.len() as int) + ks.skip(ns.len() as int));
    }
}

} // verus!
