//! What a reconciliation achieves.

use vstd::prelude::*;

use crate::chunk;
use crate::chunk::ChunkMeta;
use crate::config::StorageConfig;
use crate::diff_laws;
use crate::index::IndexModel;
use crate::merkle;
use crate::merkle::Tree;
use crate::names;
use crate::path;
use crate::reconcile;
use crate::reconcile::ItemModel;
use crate::sync_engine::OriginModel;
use crate::transfer;
use crate::transfer_laws;
use crate::tree_laws;

verus! {

broadcast use vstd::seq::group_seq_axioms;

/// The local tree once every planned file stands in it as the peer has it.
pub open spec fn fetched(local: Tree, remote: Tree, items: Seq<ItemModel>) -> Tree
    decreases items.len(),
{
    if items.len() == 0 {
        local
    } else {
        let ns = path::path_names(items.last().path);
        merkle::tree_insert(fetched(local, remote, items.drop_last()), ns, merkle::find(remote, ns)->0)
    }
}

/// Whether the names lead to a file.
pub open spec fn leads_to_file(t: Tree, ns: Seq<Seq<char>>) -> bool {
    merkle::find(t, ns) matches Some(f) && f is File
}

/// Nothing in the local tree is in the way of a file of the peer: where the peer has a directory, there
/// is no local file.
pub open spec fn nothing_in_the_way(local: Tree, remote: Tree) -> bool {
    forall|ns: Seq<Seq<char>>| leads_to_file(remote, ns) ==> #[trigger] tree_laws::open_way(local, ns)
}

/// Behind a file there is nothing.
pub proof fn lemma_nothing_behind_a_file(t: Tree, ns: Seq<Seq<char>>, ms: Seq<Seq<char>>)
    requires
        leads_to_file(t, ns),
        tree_laws::begins_with(ms, ns),
        ms != ns,
    ensures
        merkle::find(t, ms) is None,
    decreases ns.len(),
{
    if ns.len() == 0 {
        assert(ms.len() > 0) by {
            if ms.len() == 0 {
                assert(ms =~= ns);
            }
        }
    } else {
        assert(ms.take(ns.len() as int)[0] == ns[0]);
        let n1 = ns.drop_first();
        let m1 = ms.drop_first();
        assert(m1.take(n1.len() as int) =~= ms.take(ns.len() as int).drop_first());
        assert(m1 != n1) by {
            if m1 == n1 {
                assert(ms =~= seq![ms[0]] + m1);
                assert(ns =~= seq![ns[0]] + n1);
            }
        }
        if let Tree::Directory { children, .. } = t {
            if let Some(child) = names::lookup(children, ns[0]) {
                lemma_nothing_behind_a_file(child, n1, m1);
            }
        }
    }
}

/// The ways to two files part.
proof fn lemma_files_are_apart(t: Tree, ns: Seq<Seq<char>>, ms: Seq<Seq<char>>)
    requires
        leads_to_file(t, ns),
        leads_to_file(t, ms),
        ns != ms,
    ensures
        tree_laws::apart(ns, ms),
{
    if tree_laws::begins_with(ms, ns) {
        lemma_nothing_behind_a_file(t, ns, ms);
    }
    if tree_laws::begins_with(ns, ms) {
        lemma_nothing_behind_a_file(t, ms, ns);
    }
}

/// Inserting a node leaves the ways open that part from its own, and its own way too.
proof fn lemma_insert_keeps_ways_open(t: Tree, ns: Seq<Seq<char>>, new: Tree, ms: Seq<Seq<char>>)
    requires
        merkle::ordered(t),
        tree_laws::open_way(t, ns),
        tree_laws::open_way(t, ms),
        ns == ms || tree_laws::apart(ns, ms),
    ensures
        tree_laws::open_way(merkle::tree_insert(t, ns, new), ms),
    decreases ns.len(),
{
    let children = t->children;
    names::lemma_has_at_rank(children, ns[0]);
    if ns.len() == 1 {
        names::lemma_lookup_put(children, ns[0], new, ms[0]);
        if ns[0] == ms[0] && ns != ms {
            assert(ms.take(1) =~= ns);
        }
    } else {
        let child = match names::lookup(children, ns[0]) {
            Some(c) => c,
            None => merkle::dir_tree(Seq::empty()),
        };
        let n1 = ns.drop_first();
        let m1 = ms.drop_first();
        let below = merkle::tree_insert(child, n1, new);
        names::lemma_lookup_put(children, ns[0], below, ms[0]);
        if ns[0] == ms[0] && ms.len() > 1 {
            assert(n1 == m1 || tree_laws::apart(n1, m1)) by {
                if ns != ms {
                    if tree_laws::begins_with(n1, m1) {
                        assert(ns.take(ms.len() as int) =~= seq![ns[0]] + n1.take(m1.len() as int));
                        assert(ms =~= seq![ms[0]] + m1);
                    }
                    if tree_laws::begins_with(m1, n1) {
                        assert(ms.take(ns.len() as int) =~= seq![ms[0]] + m1.take(n1.len() as int));
                        assert(ns =~= seq![ns[0]] + n1);
                    }
                }
            }
            if names::lookup(children, ns[0]) is None {
                tree_laws::lemma_open_empty(n1);
                tree_laws::lemma_open_empty(m1);
            }
            lemma_insert_keeps_ways_open(child, n1, new, m1);
        }
    }
}

/// After the first `k` planned files: the names are in order, every way to a file of the peer is still
/// open, and a file of the peer is there if it was planned or was there before.
proof fn lemma_fetched_upto(local: Tree, remote: Tree, items: Seq<ItemModel>, rel: Seq<Seq<char>>)
    requires
        merkle::ordered(local),
        merkle::ordered(remote),
        nothing_in_the_way(local, remote),
        leads_to_file(remote, rel),
        forall|i: int|
            0 <= i < items.len() ==> leads_to_file(remote, path::path_names((#[trigger] items[i]).path)),
    ensures
        merkle::ordered(fetched(local, remote, items)),
        tree_laws::open_way(fetched(local, remote, items), rel),
        if exists|i: int| 0 <= i < items.len() && path::path_names((#[trigger] items[i]).path) == rel {
            merkle::find(fetched(local, remote, items), rel) == merkle::find(remote, rel)
        } else {
            merkle::find(fetched(local, remote, items), rel) == merkle::find(local, rel)
        },
    decreases items.len(),
{
    if items.len() > 0 {
        let rest = items.drop_last();
        let ns = path::path_names(items.last().path);
        let before = fetched(local, remote, rest);
        let new = merkle::find(remote, ns)->0;
        assert(items[items.len() - 1] == items.last());
        assert forall|i: int| 0 <= i < rest.len() implies leads_to_file(
            remote,
            path::path_names((#[trigger] rest[i]).path),
        ) by {
            assert(items[i] == rest[i]);
        }
        lemma_fetched_upto(local, remote, rest, rel);
        lemma_fetched_upto(local, remote, rest, ns);
        merkle::lemma_insert_ordered(before, ns, new);
        if ns == rel {
            tree_laws::lemma_insert_then_find(before, ns, new);
            lemma_insert_keeps_ways_open(before, ns, new, rel);
            assert(path::path_names(items[items.len() - 1].path) == rel);
        } else {
            lemma_files_are_apart(remote, ns, rel);
            tree_laws::lemma_insert_elsewhere(before, ns, new, rel);
            lemma_insert_keeps_ways_open(before, ns, new, rel);
            if exists|i: int| 0 <= i < items.len() && path::path_names((#[trigger] items[i]).path) == rel {
                let i = choose|i: int| 0 <= i < items.len() && path::path_names((#[trigger] items[i]).path) == rel;
                assert(i < rest.len());
                assert(rest[i] == items[i]);
            }
            if exists|i: int| 0 <= i < rest.len() && path::path_names((#[trigger] rest[i]).path) == rel {
                let i = choose|i: int| 0 <= i < rest.len() && path::path_names((#[trigger] rest[i]).path) == rel;
                assert(items[i] == rest[i]);
            }
        }
    } else {
        assert(tree_laws::open_way(local, rel));
    }
}

/// A reconciliation brings the folders together: once every planned file is fetched, every file of the peer
/// stands in the local tree at the same path, with the same content. A local file in the place of one of
/// the peer's directories would be in the way.
pub proof fn lemma_reconciliation_brings_every_file(local: Tree, remote: Tree, rel: Seq<Seq<char>>)
    requires
        merkle::ordered(local),
        merkle::ordered(remote),
        diff_laws::plain_names(local),
        diff_laws::plain_names(remote),
        diff_laws::no_collision(local, remote),
        nothing_in_the_way(local, remote),
        leads_to_file(remote, rel),
    ensures
        merkle::find(
            fetched(local, remote, reconcile::brought(merkle::tree_diff(local, remote, Seq::empty()), false)),
            rel,
        ) == merkle::find(remote, rel),
{
    let items = reconcile::brought(merkle::tree_diff(local, remote, Seq::empty()), false);
    assert forall|i: int| 0 <= i < items.len() implies leads_to_file(
        remote,
        path::path_names((#[trigger] items[i]).path),
    ) by {
        reconcile::lemma_plan_is_truthful(local, remote, i);
    }
    lemma_fetched_upto(local, remote, items, rel);
    if merkle::find(local, rel) != merkle::find(remote, rel) {
        reconcile::lemma_plan_is_complete(local, remote, rel);
        let k = choose|k: int| 0 <= k < items.len() && path::path_names((#[trigger] items[k]).path) == rel;
        assert(path::path_names(items[k].path) == rel);
    }
}

/// Each planned file arrives as the peer has it: where a peer whose file has the content `data` answers for
/// the item at place `k` of the plan, writing the chunks that were missing over whatever the local file holds,
/// and taking the result into the index, is the step that the plan counts on.
pub proof fn lemma_each_fetch_is_a_step(
    local: Tree,
    remote: Tree,
    k: int,
    ix: IndexModel,
    data: Seq<u8>,
    held: Seq<u8>,
    metas: Seq<ChunkMeta>,
    storage: StorageConfig,
    origin: OriginModel,
)
    requires
        merkle::ordered(local),
        merkle::ordered(remote),
        diff_laws::plain_names(local),
        diff_laws::plain_names(remote),
        0 <= k < reconcile::brought(merkle::tree_diff(local, remote, Seq::empty()), false).len(),
        ({
            let items = reconcile::brought(merkle::tree_diff(local, remote, Seq::empty()), false);
            &&& ix.tree == fetched(local, remote, items.take(k))
            &&& chunk::metas_view(metas) == items[k].chunks
            &&& merkle::find(remote, path::path_names(items[k].path)) == Some(
                merkle::file_tree(data, storage.chunk_size as nat),
            )
        }),
        ix.chunk_size == storage.chunk_size,
        transfer_laws::receivable(data, storage),
        transfer_laws::no_chunk_collision(held, data, storage.chunk_size as nat),
    ensures
        ({
            let items = reconcile::brought(merkle::tree_diff(local, remote, Seq::empty()), false);
            let cs = storage.chunk_size as nat;
            let asked = transfer::wanted(metas, held, cs);
            let came = transfer::served(data, asked, cs, storage.max_chunk_index as nat);
            let result = transfer::applied(held, came, items[k].size as nat, storage);
            &&& result == Some(data)
            &&& transfer::after_fetch(ix, items[k].path, result->0, origin).tree == fetched(
                local,
                remote,
                items.take(k + 1),
            )
        }),
{
    let items = reconcile::brought(merkle::tree_diff(local, remote, Seq::empty()), false);
    reconcile::lemma_plan_is_truthful(local, remote, k);
    transfer_laws::lemma_fetch_gives_remote_file(data, held, metas, storage);
    assert(items.take(k + 1).drop_last() =~= items.take(k));
    assert(items.take(k + 1).last() == items[k]);
}

/// The index once files with the given contents are taken in, one after the other.
pub open spec fn after_fetches(
    ix: IndexModel,
    items: Seq<ItemModel>,
    contents: Seq<Seq<u8>>,
    origin: OriginModel,
) -> IndexModel
    decreases items.len(),
{
    if items.len() == 0 {
        ix
    } else {
        transfer::after_fetch(
            after_fetches(ix, items.drop_last(), contents, origin),
            items.last().path,
            contents[items.len() - 1],
            origin,
        )
    }
}

/// Whether each of the files has its content at the peer.
pub open spec fn contents_of(
    remote: Tree,
    items: Seq<ItemModel>,
    contents: Seq<Seq<u8>>,
    chunk_size: nat,
) -> bool {
    &&& contents.len() == items.len()
    &&& forall|k: int|
        0 <= k < items.len() ==> merkle::find(remote, path::path_names((#[trigger] items[k]).path)) == Some(
            merkle::file_tree(contents[k], chunk_size),
        )
}

/// Taking in the contents that the peer has makes the tree that the plan counts on.
proof fn lemma_fetches_make_the_tree(
    ix: IndexModel,
    remote: Tree,
    items: Seq<ItemModel>,
    contents: Seq<Seq<u8>>,
    origin: OriginModel,
    n: int,
)
    requires
        contents_of(remote, items, contents, ix.chunk_size),
        0 <= n <= items.len(),
    ensures
        after_fetches(ix, items.take(n), contents, origin).tree == fetched(ix.tree, remote, items.take(n)),
        after_fetches(ix, items.take(n), contents, origin).chunk_size == ix.chunk_size,
    decreases n,
{
    if n > 0 {
        lemma_fetches_make_the_tree(ix, remote, items, contents, origin, n - 1);
        let upto = items.take(n);
        assert(upto.drop_last() =~= items.take(n - 1));
        assert(upto.last() == items[n - 1]);
    }
}

/// A reconciliation leaves an index with every file of the peer: once each planned file is taken in with the
/// content that it has at the peer, every file of the peer stands in the tree of the index at the same path,
/// with the same content.
pub proof fn lemma_reconciled_index_has_every_file(
    ix: IndexModel,
    remote: Tree,
    contents: Seq<Seq<u8>>,
    origin: OriginModel,
    rel: Seq<Seq<char>>,
)
    requires
        merkle::ordered(ix.tree),
        merkle::ordered(remote),
        diff_laws::plain_names(ix.tree),
        diff_laws::plain_names(remote),
        diff_laws::no_collision(ix.tree, remote),
        nothing_in_the_way(ix.tree, remote),
        contents_of(
            remote,
            reconcile::brought(merkle::tree_diff(ix.tree, remote, Seq::empty()), false),
            contents,
            ix.chunk_size,
        ),
        leads_to_file(remote, rel),
    ensures
        merkle::find(
            after_fetches(
                ix,
                reconcile::brought(merkle::tree_diff(ix.tree, remote, Seq::empty()), false),
                contents,
                origin,
            ).tree,
            rel,
        ) == merkle::find(remote, rel),
{
    let items = reconcile::brought(merkle::tree_diff(ix.tree, remote, Seq::empty()), false);
    lemma_fetches_make_the_tree(ix, remote, items, contents, origin, items.len() as int);
    assert(items.take(items.len() as int) =~= items);
    lemma_reconciliation_brings_every_file(ix.tree, remote, rel);
}

/// A peer that does not pull fetches nothing.
pub proof fn lemma_no_pull_fetches_nothing(changes: Seq<merkle::Change>)
    ensures
        reconcile::brought(changes, true) == Seq::<ItemModel>::empty(),
    decreases changes.len(),
{
    if changes.len() > 0 {
        lemma_no_pull_fetches_nothing(changes.drop_last());
        assert(reconcile::brought(changes, true) =~= Seq::<ItemModel>::empty());
    }
}

/// Folders that are the same need no transfer.
pub proof fn lemma_same_folders_fetch_nothing(local: Tree, remote: Tree)
    requires
        merkle::tree_hash(local) == merkle::tree_hash(remote),
    ensures
        reconcile::brought(merkle::tree_diff(local, remote, Seq::empty()), false) == Seq::<ItemModel>::empty(),
{
    tree_laws::lemma_same_hash_no_diff(local, remote, Seq::empty());
}

} // verus!
