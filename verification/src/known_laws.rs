//! The index knows the files of its tree, and no others, after every operation.

use vstd::prelude::*;

use crate::conflict;
use crate::conflict::TombstoneModel;
use crate::diff_laws;
use crate::inbound;
use crate::index;
use crate::index::{IndexModel, MetaModel};
use crate::index_laws;
use crate::merkle;
use crate::merkle::Tree;
use crate::names;
use crate::path;
use crate::path::Part;
use crate::reconcile;
use crate::reconcile_laws;
use crate::sync_engine;
use crate::sync_engine::OriginModel;
use crate::transfer;
use crate::tree_laws;

verus! {

broadcast use vstd::seq::group_seq_axioms;

/// The index knows exactly the files of its tree: it has metadata under a path if and only if there is a file.
pub open spec fn knows_its_files(ix: IndexModel) -> bool {
    &&& ix.tree is Directory
    &&& merkle::ordered(ix.tree)
    &&& diff_laws::plain_names(ix.tree)
    &&& names::in_order(ix.file_meta)
    &&& forall|k: Seq<char>| #[trigger]
        names::has_name(ix.file_meta, k) <==> index::is_file_key(ix.tree, Seq::empty(), k)
}

/// A path of names in its shortest form.
spec fn plain_key(k: Seq<char>) -> bool {
    path::only_names(path::parts(k)) && path::clean_text(k) == k
}

/// Components that are all names are known by their names.
proof fn lemma_parts_from_names(ps: Seq<Part>, qs: Seq<Part>)
    requires
        path::only_names(ps),
        path::only_names(qs),
        path::names_in(ps) == path::names_in(qs),
    ensures
        ps == qs,
    decreases ps.len(),
{
    lemma_names_count(ps);
    lemma_names_count(qs);
    if ps.len() > 0 {
        let p = ps.drop_last();
        let q = qs.drop_last();
        assert(ps[ps.len() - 1] is Normal && qs[qs.len() - 1] is Normal);
        assert(path::names_in(ps) == path::names_in(p).push(ps.last()->Normal_0));
        assert(path::names_in(qs) == path::names_in(q).push(qs.last()->Normal_0));
        assert(path::names_in(ps).last() == path::names_in(qs).last());
        assert(path::names_in(p) =~= path::names_in(ps).drop_last());
        assert(path::names_in(q) =~= path::names_in(qs).drop_last());
        assert(path::only_names(p)) by {
            assert forall|i: int| 0 <= i < p.len() implies #[trigger] p[i] is Normal by {
                assert(ps[i] is Normal);
            }
        }
        assert(path::only_names(q)) by {
            assert forall|i: int| 0 <= i < q.len() implies #[trigger] q[i] is Normal by {
                assert(qs[i] is Normal);
            }
        }
        lemma_parts_from_names(p, q);
        assert(ps =~= p.push(ps.last()));
        assert(qs =~= q.push(qs.last()));
    } else {
        assert(ps =~= qs);
    }
}

proof fn lemma_names_count(ps: Seq<Part>)
    requires
        path::only_names(ps),
    ensures
        path::names_in(ps).len() == ps.len(),
    decreases ps.len(),
{
    if ps.len() > 0 {
        let p = ps.drop_last();
        assert(ps[ps.len() - 1] is Normal);
        assert forall|i: int| 0 <= i < p.len() implies #[trigger] p[i] is Normal by {
            assert(ps[i] is Normal);
        }
        lemma_names_count(p);
    }
}

/// The key of a file is a path of names in its shortest form.
proof fn lemma_file_key_is_plain(t: Tree, prefix: Seq<char>, k: Seq<char>)
    requires
        diff_laws::plain_names(t),
        path::only_names(path::parts(prefix)),
        index::is_file_key(t, prefix, k),
    ensures
        plain_key(k),
    decreases t,
{
    match t {
        Tree::File { .. } => {
            path::lemma_clean_keeps_parts(prefix);
        },
        Tree::Directory { children, .. } => {
            let i = choose|i: int|
                0 <= i < children.len() && index::is_file_key(
                    (#[trigger] children[i]).1,
                    path::join_text(prefix, children[i].0),
                    k,
                );
            path::lemma_join_name(prefix, children[i].0);
            lemma_file_key_is_plain(children[i].1, path::join_text(prefix, children[i].0), k);
        },
    }
}

/// The keys of the files are the paths of names, in their shortest form, that lead to files.
proof fn lemma_file_keys(t: Tree, k: Seq<char>)
    requires
        merkle::ordered(t),
        diff_laws::plain_names(t),
    ensures
        index::is_file_key(t, Seq::empty(), k) <==> plain_key(k) && reconcile_laws::leads_to_file(t, path::path_names(k)),
{
    let root = Seq::<char>::empty();
    let ns = path::path_names(k);
    index_laws::lemma_known_files_are_the_files(t, k, ns);
    lemma_root_has_no_parts();
    if index::is_file_key(t, root, k) {
        lemma_file_key_is_plain(t, root, k);
    } else if plain_key(k) && reconcile_laws::leads_to_file(t, ns) {
        let key = choose|key: Seq<char>| #[trigger] index::is_file_key(t, root, key) && path::path_names(key) == ns;
        lemma_file_key_is_plain(t, root, key);
        lemma_parts_from_names(path::parts(k), path::parts(key));
        path::lemma_clean_same_parts(k, key);
    }
}

proof fn lemma_root_has_no_parts()
    ensures
        path::only_names(path::parts(Seq::<char>::empty())),
{
    reconcile::lemma_root_has_no_names();
    let e = Seq::<char>::empty();
    let segs = path::segments(e);
    assert(segs =~= seq![e]);
    assert(segs.drop_last() =~= Seq::<Seq<char>>::empty());
    assert(path::segment_parts(segs.drop_last()) =~= Seq::<Part>::empty());
    assert(path::segment_parts(segs) =~= Seq::<Part>::empty());
    assert(path::leading_part(e) =~= Seq::<Part>::empty()) by {
        assert(segs[0].len() == 0);
        assert(seq!['.'].len() == 1);
    }
    assert(path::parts(e) =~= Seq::<Part>::empty());
}

/// On the way to where a node can be inserted there is no file, before and after.
proof fn lemma_no_file_on_the_way(t: Tree, ns: Seq<Seq<char>>, new: Tree, ms: Seq<Seq<char>>)
    requires
        merkle::ordered(t),
        tree_laws::open_way(t, ns),
        tree_laws::begins_with(ns, ms),
        ms != ns,
    ensures
        !reconcile_laws::leads_to_file(t, ms),
        !reconcile_laws::leads_to_file(merkle::tree_insert(t, ns, new), ms),
    decreases ns.len(),
{
    if ms.len() > 0 {
        let children = t->children;
        names::lemma_has_at_rank(children, ns[0]);
        assert(ns.take(ms.len() as int)[0] == ms[0]);
        if ns.len() == 1 {
            assert(ns.take(ms.len() as int) =~= ns);
        } else {
            let child = match names::lookup(children, ns[0]) {
                Some(c) => c,
                None => merkle::dir_tree(Seq::empty()),
            };
            let n1 = ns.drop_first();
            let m1 = ms.drop_first();
            assert(n1.take(m1.len() as int) =~= ns.take(ms.len() as int).drop_first());
            assert(n1 != m1) by {
                if n1 == m1 {
                    assert(ns =~= seq![ns[0]] + n1);
                    assert(ms =~= seq![ms[0]] + m1);
                }
            }
            if names::lookup(children, ns[0]) is None {
                tree_laws::lemma_open_empty(n1);
            }
            lemma_no_file_on_the_way(child, n1, new, m1);
            names::lemma_lookup_put(children, ns[0], merkle::tree_insert(child, n1, new), ms[0]);
        }
    }
}

/// Where the files are once one is inserted.
proof fn lemma_files_after_insert(t: Tree, ns: Seq<Seq<char>>, f: Tree, ms: Seq<Seq<char>>)
    requires
        merkle::ordered(t),
        tree_laws::open_way(t, ns),
        f is File,
    ensures
        reconcile_laws::leads_to_file(merkle::tree_insert(t, ns, f), ms) <==> ms == ns || (reconcile_laws::leads_to_file(t, ms)
            && !tree_laws::begins_with(ms, ns)),
{
    tree_laws::lemma_insert_then_find(t, ns, f);
    if ms == ns {
    } else if tree_laws::begins_with(ms, ns) {
        reconcile_laws::lemma_nothing_behind_a_file(merkle::tree_insert(t, ns, f), ns, ms);
    } else if tree_laws::begins_with(ns, ms) {
        lemma_no_file_on_the_way(t, ns, f, ms);
    } else {
        tree_laws::lemma_insert_elsewhere(t, ns, f, ms);
    }
}

/// On the way to what is removed there is no file, before and after.
proof fn lemma_no_file_above(t: Tree, ns: Seq<Seq<char>>, ms: Seq<Seq<char>>)
    requires
        merkle::ordered(t),
        merkle::find(t, ns) is Some,
        tree_laws::begins_with(ns, ms),
        ms != ns,
    ensures
        !reconcile_laws::leads_to_file(t, ms),
        !reconcile_laws::leads_to_file(merkle::tree_remove(t, ns), ms),
    decreases ns.len(),
{
    if ns.len() == 0 {
        assert(ms =~= ns);
    } else if ms.len() > 0 {
        let children = t->children;
        names::lemma_has_at_rank(children, ns[0]);
        assert(ns.take(ms.len() as int)[0] == ms[0]);
        if ns.len() == 1 {
            assert(ns.take(ms.len() as int) =~= ns);
        } else {
            let child = names::lookup(children, ns[0])->0;
            let n1 = ns.drop_first();
            let m1 = ms.drop_first();
            assert(n1.take(m1.len() as int) =~= ns.take(ms.len() as int).drop_first());
            assert(n1 != m1) by {
                if n1 == m1 {
                    assert(ns =~= seq![ns[0]] + n1);
                    assert(ms =~= seq![ms[0]] + m1);
                }
            }
            lemma_no_file_above(child, n1, m1);
            names::lemma_lookup_put(children, ns[0], merkle::tree_remove(child, n1), ms[0]);
        }
    }
}

/// Where the files are once a node is removed.
proof fn lemma_files_after_remove(t: Tree, ns: Seq<Seq<char>>, ms: Seq<Seq<char>>)
    requires
        merkle::ordered(t),
        ns.len() > 0,
    ensures
        reconcile_laws::leads_to_file(merkle::tree_remove(t, ns), ms) <==> reconcile_laws::leads_to_file(t, ms) && !tree_laws::begins_with(ms, ns),
{
    let u = merkle::tree_remove(t, ns);
    tree_laws::lemma_remove_then_find(t, ns);
    if tree_laws::begins_with(ms, ns) {
        let rest = ms.skip(ns.len() as int);
        assert(ns + rest =~= ms) by {
            assert(ms.take(ns.len() as int) == ns);
        }
        reconcile::lemma_find_in_steps(u, ns, rest);
    } else if merkle::find(t, ns) is None {
    } else if tree_laws::begins_with(ns, ms) {
        lemma_no_file_above(t, ns, ms);
    } else {
        tree_laws::lemma_remove_elsewhere(t, ns, ms);
    }
}

/// The names along a path of names can name entries of directories.
proof fn lemma_path_names_are_plain(ps: Seq<Part>, i: int)
    requires
        forall|j: int| 0 <= j < ps.len() && #[trigger] ps[j] is Normal ==> path::plain_part(ps[j]),
        0 <= i < path::names_in(ps).len(),
    ensures
        path::plain_name(path::names_in(ps)[i]),
    decreases ps.len(),
{
    let p = ps.drop_last();
    assert forall|j: int| 0 <= j < p.len() && #[trigger] p[j] is Normal implies path::plain_part(p[j]) by {
        assert(ps[j] == p[j]);
    }
    if i < path::names_in(p).len() {
        lemma_path_names_are_plain(p, i);
    } else {
        assert(ps[ps.len() - 1] is Normal);
    }
}

/// Inserting a node under names that can name entries keeps all names such.
proof fn lemma_insert_keeps_plain_names(t: Tree, ns: Seq<Seq<char>>, new: Tree)
    requires
        merkle::ordered(t),
        diff_laws::plain_names(t),
        diff_laws::plain_names(new),
        forall|i: int| 0 <= i < ns.len() ==> path::plain_name(#[trigger] ns[i]),
    ensures
        diff_laws::plain_names(merkle::tree_insert(t, ns, new)),
    decreases ns.len(),
{
    if let Tree::Directory { children, .. } = t {
        if ns.len() > 0 {
            names::lemma_has_at_rank(children, ns[0]);
            assert(path::plain_name(ns[0]));
            if ns.len() == 1 {
                lemma_put_keeps_plain_names(children, ns[0], new);
            } else {
                let child = match names::lookup(children, ns[0]) {
                    Some(c) => c,
                    None => merkle::dir_tree(Seq::empty()),
                };
                let rest = ns.drop_first();
                assert forall|i: int| 0 <= i < rest.len() implies path::plain_name(#[trigger] rest[i]) by {
                    assert(rest[i] == ns[i + 1]);
                }
                lemma_insert_keeps_plain_names(child, rest, new);
                lemma_put_keeps_plain_names(children, ns[0], merkle::tree_insert(child, rest, new));
            }
        }
    }
}

proof fn lemma_put_keeps_plain_names(children: Seq<(Seq<char>, Tree)>, k: Seq<char>, c: Tree)
    requires
        names::in_order(children),
        forall|i: int|
            0 <= i < children.len() ==> path::plain_name((#[trigger] children[i]).0) && diff_laws::plain_names(
                children[i].1,
            ),
        path::plain_name(k),
        diff_laws::plain_names(c),
    ensures
        diff_laws::plain_names(merkle::dir_tree(names::put(children, k, c))),
{
    names::lemma_has_at_rank(children, k);
    let t = names::put(children, k, c);
    let p = names::rank(children, k);
    assert forall|i: int| 0 <= i < t.len() implies path::plain_name((#[trigger] t[i]).0) && diff_laws::plain_names(
        t[i].1,
    ) by {
        if i != p {
            assert(t[i] == if names::has_name(children, k) || i < p { children[i] } else { children[i - 1] });
        }
    }
}

/// Removing a node keeps all names as they are.
proof fn lemma_remove_keeps_plain_names(t: Tree, ns: Seq<Seq<char>>)
    requires
        merkle::ordered(t),
        diff_laws::plain_names(t),
    ensures
        diff_laws::plain_names(merkle::tree_remove(t, ns)),
    decreases ns.len(),
{
    if ns.len() > 0 && merkle::find(t, ns) is Some {
        let children = t->children;
        names::lemma_has_at_rank(children, ns[0]);
        let p = names::rank(children, ns[0]);
        if ns.len() == 1 {
            let s = names::without(children, ns[0]);
            assert forall|i: int| 0 <= i < s.len() implies path::plain_name((#[trigger] s[i]).0)
                && diff_laws::plain_names(s[i].1) by {
                assert(s[i] == if i < p { children[i] } else { children[i + 1] });
            }
        } else {
            let c = names::lookup(children, ns[0])->0;
            assert(children[p].0 == ns[0]);
            lemma_remove_keeps_plain_names(c, ns.drop_first());
            lemma_put_keeps_plain_names(children, ns[0], merkle::tree_remove(c, ns.drop_first()));
        }
    }
}

/// A name that is looked up is there exactly if something is found.
proof fn lemma_has_if_found<V>(s: Seq<(Seq<char>, V)>, k: Seq<char>)
    requires
        names::in_order(s),
    ensures
        names::has_name(s, k) <==> names::lookup(s, k) is Some,
{
    names::lemma_has_at_rank(s, k);
}

/// Once a file is written at a safe path, the index knows its files.
proof fn lemma_known_after_insert(ix: IndexModel, rel: Seq<char>, data: Seq<u8>, m: MetaModel)
    requires
        knows_its_files(ix),
        sync_engine::is_safe(rel),
        tree_laws::open_way(ix.tree, path::path_names(rel)),
    ensures
        knows_its_files(
            IndexModel {
                tree: merkle::tree_insert(ix.tree, path::path_names(rel), merkle::file_tree(data, ix.chunk_size)),
                file_meta: names::put(index::outside(ix.file_meta, rel), path::clean_text(rel), m),
                ..ix
            },
        ),
{
    let ns = path::path_names(rel);
    let key = path::clean_text(rel);
    let f = merkle::file_tree(data, ix.chunk_size);
    let t = merkle::tree_insert(ix.tree, ns, f);
    let kept = index::outside(ix.file_meta, rel);
    let metas = names::put(kept, key, m);
    merkle::lemma_insert_ordered(ix.tree, ns, f);
    path::lemma_parts_are_plain(rel);
    assert forall|i: int| 0 <= i < ns.len() implies path::plain_name(#[trigger] ns[i]) by {
        lemma_path_names_are_plain(path::parts(rel), i);
    }
    lemma_insert_keeps_plain_names(ix.tree, ns, f);
    path::lemma_clean_keeps_parts(rel);
    assert(plain_key(key));
    index_laws::lemma_outside(ix.file_meta, rel, key);
    names::lemma_put_in_order(kept, key, m);
    assert forall|k: Seq<char>| #[trigger]
        names::has_name(metas, k) <==> index::is_file_key(t, Seq::empty(), k) by {
        let ks = path::path_names(k);
        lemma_file_keys(t, k);
        lemma_file_keys(ix.tree, k);
        lemma_files_after_insert(ix.tree, ns, f, ks);
        index_laws::lemma_outside(ix.file_meta, rel, k);
        names::lemma_lookup_put(kept, key, m, k);
        lemma_has_if_found(metas, k);
        lemma_has_if_found(kept, k);
        lemma_has_if_found(ix.file_meta, k);
        assert(names::has_name(ix.file_meta, k) <==> index::is_file_key(ix.tree, Seq::empty(), k));
        if plain_key(k) {
            lemma_same_names(k, key);
            if tree_laws::begins_with(ks, ns) && ks.len() == ns.len() {
                assert(ks.take(ns.len() as int) =~= ks);
            }
            assert(ns.take(ns.len() as int) =~= ns);
        }
    }
}

/// Two keys are the same exactly if their names are.
proof fn lemma_same_names(k: Seq<char>, key: Seq<char>)
    requires
        plain_key(k),
        plain_key(key),
    ensures
        k == key <==> path::path_names(k) == path::path_names(key),
{
    if path::path_names(k) == path::path_names(key) {
        lemma_parts_from_names(path::parts(k), path::parts(key));
        path::lemma_clean_same_parts(k, key);
    }
}

/// Once what stands at a safe path is deleted, the index knows its files.
proof fn lemma_known_after_remove(ix: IndexModel, rel: Seq<char>, tombstones: Seq<TombstoneModel>)
    requires
        knows_its_files(ix),
        sync_engine::is_safe(rel),
        path::path_names(rel).len() > 0,
    ensures
        knows_its_files(
            IndexModel {
                tree: merkle::tree_remove(ix.tree, path::path_names(rel)),
                file_meta: names::without(index::outside(ix.file_meta, rel), path::clean_text(rel)),
                tombstones,
                ..ix
            },
        ),
{
    let ns = path::path_names(rel);
    let key = path::clean_text(rel);
    let t = merkle::tree_remove(ix.tree, ns);
    let kept = index::outside(ix.file_meta, rel);
    let metas = names::without(kept, key);
    merkle::lemma_remove_ordered(ix.tree, ns);
    lemma_remove_keeps_plain_names(ix.tree, ns);
    path::lemma_clean_keeps_parts(rel);
    assert(plain_key(key));
    index_laws::lemma_outside(ix.file_meta, rel, key);
    names::lemma_without_in_order(kept, key);
    assert forall|k: Seq<char>| #[trigger]
        names::has_name(metas, k) <==> index::is_file_key(t, Seq::empty(), k) by {
        let ks = path::path_names(k);
        lemma_file_keys(t, k);
        lemma_file_keys(ix.tree, k);
        lemma_files_after_remove(ix.tree, ns, ks);
        index_laws::lemma_outside(ix.file_meta, rel, k);
        names::lemma_lookup_without(kept, key, k);
        lemma_has_if_found(metas, k);
        lemma_has_if_found(kept, k);
        lemma_has_if_found(ix.file_meta, k);
        assert(names::has_name(ix.file_meta, k) <==> index::is_file_key(ix.tree, Seq::empty(), k));
        if plain_key(k) {
            lemma_same_names(k, key);
            if tree_laws::begins_with(ks, ns) && ks.len() == ns.len() {
                assert(ks.take(ns.len() as int) =~= ks);
            }
            assert(ns.take(ns.len() as int) =~= ns);
        }
    }
}

/// Every operation leaves the index knowing exactly the files of its tree: a local change, a version from a
/// peer, a deletion by either, and a purge. A file in the index that stands where a directory of the path
/// would have to be keeps the new file out of the tree.
pub proof fn lemma_every_operation_knows_the_files(
    ix: IndexModel,
    rel: Seq<char>,
    data: Seq<u8>,
    now: u64,
    origin: OriginModel,
    tombstone: TombstoneModel,
)
    requires
        knows_its_files(ix),
        sync_engine::is_safe(rel),
        path::path_names(rel).len() > 0,
        sync_engine::is_safe(tombstone.path),
        path::path_names(tombstone.path).len() > 0,
    ensures
        tree_laws::open_way(ix.tree, path::path_names(rel)) ==> knows_its_files(
            index::after_change(ix, rel, data, now),
        ),
        tree_laws::open_way(ix.tree, path::path_names(rel)) ==> knows_its_files(
            transfer::after_fetch(ix, rel, data, origin),
        ),
        knows_its_files(index::after_delete(ix, rel, now)),
        knows_its_files(inbound::after_remote_delete(ix, tombstone)),
        knows_its_files(index::after_gc(ix, now)),
{
    if tree_laws::open_way(ix.tree, path::path_names(rel)) {
        lemma_known_after_insert(
            ix,
            rel,
            data,
            MetaModel {
                clock: conflict::ticked(index::clock_at(ix, rel), ix.local_peer),
                last_modified: now,
                last_modified_by: ix.local_peer,
            },
        );
        lemma_known_after_insert(
            ix,
            rel,
            data,
            MetaModel {
                clock: conflict::merged(index::clock_at(ix, rel), origin.clock),
                last_modified: origin.timestamp,
                last_modified_by: origin.peer,
            },
        );
    }
    lemma_known_after_remove(ix, rel, index::after_delete(ix, rel, now).tombstones);
    lemma_known_after_remove(ix, tombstone.path, inbound::after_remote_delete(ix, tombstone).tombstones);
}

/// An index that knows its files has metadata for as many as its tree has.
pub proof fn lemma_as_many_known_as_there_are(ix: IndexModel)
    requires
        knows_its_files(ix),
    ensures
        ix.file_meta.len() == reconcile::file_total(ix.tree),
{
    index_laws::lemma_file_count_is_the_number_of_files(ix.tree, ix.file_meta);
}

} // verus!
