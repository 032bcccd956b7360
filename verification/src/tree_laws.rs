//! What insertion, removal and comparison of Merkle trees promise together.

use vstd::prelude::*;

use crate::chunk;
use crate::merkle;
use crate::merkle::{Change, Tree};
use crate::names;

verus! {

broadcast use vstd::seq::group_seq_axioms;

/// Whether a node can be inserted where the names lead to: every node on the way that exists is a
/// directory.
pub open spec fn open_way(t: Tree, ns: Seq<Seq<char>>) -> bool
    decreases ns.len(),
{
    match t {
        Tree::File { .. } => false,
        Tree::Directory { children, .. } => {
            &&& ns.len() > 0
            &&& ns.len() == 1 || match names::lookup(children, ns[0]) {
                Some(c) => open_way(c, ns.drop_first()),
                None => true,
            }
        },
    }
}

/// Whether one list of names begins with the other.
pub open spec fn begins_with(ns: Seq<Seq<char>>, start: Seq<Seq<char>>) -> bool {
    start.len() <= ns.len() && ns.take(start.len() as int) == start
}

/// The lists of names part ways: neither begins with the other.
pub open spec fn apart(ns: Seq<Seq<char>>, ms: Seq<Seq<char>>) -> bool {
    !begins_with(ns, ms) && !begins_with(ms, ns)
}

proof fn lemma_apart_step(ns: Seq<Seq<char>>, ms: Seq<Seq<char>>)
    requires
        apart(ns, ms),
    ensures
        ns.len() > 0,
        ms.len() > 0,
        ns[0] == ms[0] ==> ns.len() > 1 && ms.len() > 1 && apart(ns.drop_first(), ms.drop_first()),
{
    if ns.len() == 0 {
        assert(ms.take(0) =~= ns);
    }
    if ms.len() == 0 {
        assert(ns.take(0) =~= ms);
    }
    if ns[0] == ms[0] {
        let n1 = ns.drop_first();
        let m1 = ms.drop_first();
        if begins_with(n1, m1) {
            assert(ns.take(ms.len() as int) =~= seq![ns[0]] + n1.take(m1.len() as int));
            assert(ms =~= seq![ms[0]] + m1);
        }
        if begins_with(m1, n1) {
            assert(ms.take(ns.len() as int) =~= seq![ms[0]] + m1.take(n1.len() as int));
            assert(ns =~= seq![ns[0]] + n1);
        }
        if ns.len() == 1 {
            assert(m1.take(0) =~= n1);
        }
        if ms.len() == 1 {
            assert(n1.take(0) =~= m1);
        }
    }
}

proof fn lemma_child_ordered(t: Tree, k: Seq<char>)
    requires
        merkle::ordered(t),
        t is Directory,
    ensures
        names::lookup(t->children, k) matches Some(c) ==> merkle::ordered(c),
        names::in_order(t->children),
{
    names::lemma_has_at_rank(t->children, k);
}

proof fn lemma_empty_find(ns: Seq<Seq<char>>)
    requires
        ns.len() > 0,
    ensures
        merkle::find(merkle::dir_tree(Seq::empty()), ns) is None,
{
}

/// What was inserted is what is found.
pub proof fn lemma_insert_then_find(t: Tree, ns: Seq<Seq<char>>, new: Tree)
    requires
        merkle::ordered(t),
        open_way(t, ns),
    ensures
        merkle::find(merkle::tree_insert(t, ns, new), ns) == Some(new),
    decreases ns.len(),
{
    lemma_child_ordered(t, ns[0]);
    let children = t->children;
    if ns.len() == 1 {
        names::lemma_lookup_put(children, ns[0], new, ns[0]);
        assert(merkle::find(new, ns.drop_first()) == Some(new));
    } else {
        let child = match names::lookup(children, ns[0]) {
            Some(c) => c,
            None => merkle::dir_tree(Seq::empty()),
        };
        let below = merkle::tree_insert(child, ns.drop_first(), new);
        names::lemma_lookup_put(children, ns[0], below, ns[0]);
        if names::lookup(children, ns[0]) is None {
            lemma_open_empty(ns.drop_first());
        }
        lemma_insert_then_find(child, ns.drop_first(), new);
    }
}

/// In an empty directory every way is open.
pub proof fn lemma_open_empty(ns: Seq<Seq<char>>)
    requires
        ns.len() > 0,
    ensures
        open_way(merkle::dir_tree(Seq::empty()), ns),
        merkle::ordered(merkle::dir_tree(Seq::empty())),
{
}

/// Inserting a node leaves alone what is found where the names part ways from it.
pub proof fn lemma_insert_elsewhere(t: Tree, ns: Seq<Seq<char>>, new: Tree, ms: Seq<Seq<char>>)
    requires
        merkle::ordered(t),
        apart(ns, ms),
    ensures
        merkle::find(merkle::tree_insert(t, ns, new), ms) == merkle::find(t, ms),
    decreases ns.len(),
{
    lemma_apart_step(ns, ms);
    if let Tree::Directory { hash, children } = t {
        lemma_child_ordered(t, ns[0]);
        if ns.len() == 1 {
            names::lemma_lookup_put(children, ns[0], new, ms[0]);
        } else {
            let child = match names::lookup(children, ns[0]) {
                Some(c) => c,
                None => merkle::dir_tree(Seq::empty()),
            };
            let below = merkle::tree_insert(child, ns.drop_first(), new);
            names::lemma_lookup_put(children, ns[0], below, ms[0]);
            if ns[0] == ms[0] {
                lemma_open_empty(ns.drop_first());
                lemma_insert_elsewhere(child, ns.drop_first(), new, ms.drop_first());
                if names::lookup(children, ns[0]) is None {
                    lemma_empty_find(ms.drop_first());
                }
            }
        }
    }
}

/// A file on the way blocks an insertion: the tree stays as it is.
pub proof fn lemma_insert_blocked(t: Tree, ns: Seq<Seq<char>>, new: Tree)
    requires
        merkle::ordered(t),
        merkle::dirs_hashed(t),
        !open_way(t, ns),
    ensures
        merkle::tree_insert(t, ns, new) == t,
    decreases ns.len(),
{
    if let Tree::Directory { hash, children } = t {
        if ns.len() > 1 {
            lemma_child_ordered(t, ns[0]);
            names::lemma_has_at_rank(children, ns[0]);
            let c = names::lookup(children, ns[0])->0;
            lemma_insert_blocked(c, ns.drop_first(), new);
            names::lemma_put_same(children, ns[0]);
        }
    }
}

/// What was removed is no longer found.
pub proof fn lemma_remove_then_find(t: Tree, ns: Seq<Seq<char>>)
    requires
        merkle::ordered(t),
        ns.len() > 0,
    ensures
        merkle::find(merkle::tree_remove(t, ns), ns) is None,
    decreases ns.len(),
{
    if merkle::find(t, ns) is Some {
        lemma_child_ordered(t, ns[0]);
        let children = t->children;
        if ns.len() == 1 {
            names::lemma_lookup_without(children, ns[0], ns[0]);
        } else {
            let c = names::lookup(children, ns[0])->0;
            lemma_remove_then_find(c, ns.drop_first());
            names::lemma_lookup_put(children, ns[0], merkle::tree_remove(c, ns.drop_first()), ns[0]);
        }
    }
}

/// Removing a node leaves alone what is found where the names part ways from it.
pub proof fn lemma_remove_elsewhere(t: Tree, ns: Seq<Seq<char>>, ms: Seq<Seq<char>>)
    requires
        merkle::ordered(t),
        apart(ns, ms),
    ensures
        merkle::find(merkle::tree_remove(t, ns), ms) == merkle::find(t, ms),
    decreases ns.len(),
{
    lemma_apart_step(ns, ms);
    if merkle::find(t, ns) is Some {
        lemma_child_ordered(t, ns[0]);
        let children = t->children;
        if ns.len() == 1 {
            names::lemma_lookup_without(children, ns[0], ms[0]);
        } else {
            let c = names::lookup(children, ns[0])->0;
            names::lemma_lookup_put(children, ns[0], merkle::tree_remove(c, ns.drop_first()), ms[0]);
            if ns[0] == ms[0] {
                lemma_remove_elsewhere(c, ns.drop_first(), ms.drop_first());
            }
        }
    }
}

/// Removing what was inserted at a free place in an existing directory gives the tree back.
pub proof fn lemma_remove_undoes_insert(t: Tree, ns: Seq<Seq<char>>, new: Tree)
    requires
        merkle::ordered(t),
        merkle::dirs_hashed(t),
        ns.len() > 0,
        merkle::find(t, ns.drop_last()) matches Some(parent) && parent is Directory,
        merkle::find(t, ns) is None,
    ensures
        merkle::tree_remove(merkle::tree_insert(t, ns, new), ns) == t,
    decreases ns.len(),
{
    lemma_parent_open(t, ns);
    lemma_insert_then_find(t, ns, new);
    if ns.len() == 1 {
        lemma_remove_undoes_insert_here(t, ns, new);
    } else {
        let rest = ns.drop_first();
        assert(ns.drop_last()[0] == ns[0]);
        assert(ns.drop_last().drop_first() =~= rest.drop_last());
        let children = t->children;
        lemma_child_ordered(t, ns[0]);
        names::lemma_has_at_rank(children, ns[0]);
        let c = names::lookup(children, ns[0])->0;
        lemma_remove_undoes_insert(c, rest, new);
        let below = merkle::tree_insert(c, rest, new);
        let more = names::put(children, ns[0], below);
        assert(merkle::tree_insert(t, ns, new) == merkle::dir_tree(more));
        names::lemma_lookup_put(children, ns[0], below, ns[0]);
        names::lemma_put_put(children, ns[0], below, c);
        names::lemma_put_same(children, ns[0]);
        assert(merkle::tree_remove(merkle::dir_tree(more), ns) == merkle::dir_tree(names::put(more, ns[0], c)));
    }
}

proof fn lemma_remove_undoes_insert_here(t: Tree, ns: Seq<Seq<char>>, new: Tree)
    requires
        merkle::ordered(t),
        merkle::dirs_hashed(t),
        ns.len() == 1,
        t is Directory,
        merkle::find(t, ns) is None,
        merkle::find(merkle::tree_insert(t, ns, new), ns) == Some(new),
    ensures
        merkle::tree_remove(merkle::tree_insert(t, ns, new), ns) == t,
{
    let children = t->children;
    let k = ns[0];
    names::lemma_has_at_rank(children, k);
    if names::has_name(children, k) {
        let c = names::lookup(children, k)->0;
        assert(merkle::find(c, ns.drop_first()) == Some(c));
    }
    names::lemma_put_in_order(children, k, new);
    let more = names::put(children, k, new);
    assert(more[names::rank(children, k)] == (k, new));
    names::lemma_lookup_at(more, names::rank(children, k));
    assert(names::without(more, k) =~= children);
    assert(merkle::tree_insert(t, ns, new) == merkle::dir_tree(more));
}

proof fn lemma_parent_open(t: Tree, ns: Seq<Seq<char>>)
    requires
        ns.len() > 0,
        merkle::find(t, ns.drop_last()) matches Some(parent) && parent is Directory,
    ensures
        open_way(t, ns),
    decreases ns.len(),
{
    if ns.len() == 1 {
        assert(ns.drop_last() =~= Seq::<Seq<char>>::empty());
    } else {
        assert(ns.drop_last()[0] == ns[0]);
        assert(ns.drop_last().drop_first() =~= ns.drop_first().drop_last());
        let c = names::lookup(t->children, ns[0])->0;
        lemma_parent_open(c, ns.drop_first());
    }
}

/// The hashes of a directory built from hashed children are right.
proof fn lemma_put_hashed(children: Seq<(Seq<char>, Tree)>, k: Seq<char>, c: Tree)
    requires
        names::in_order(children),
        forall|i: int| 0 <= i < children.len() ==> merkle::hashed((#[trigger] children[i]).1),
        merkle::hashed(c),
    ensures
        merkle::hashed(merkle::dir_tree(names::put(children, k, c))),
{
    names::lemma_has_at_rank(children, k);
    let t = names::put(children, k, c);
    let p = names::rank(children, k);
    assert forall|i: int| 0 <= i < t.len() implies merkle::hashed((#[trigger] t[i]).1) by {
        if i != p {
            assert(t[i] == if names::has_name(children, k) || i < p { children[i] } else { children[i - 1] });
        }
    }
}

/// Inserting a node keeps every hash right.
pub proof fn lemma_insert_hashed(t: Tree, ns: Seq<Seq<char>>, new: Tree)
    requires
        merkle::ordered(t),
        merkle::hashed(t),
        merkle::hashed(new),
    ensures
        merkle::hashed(merkle::tree_insert(t, ns, new)),
    decreases ns.len(),
{
    if let Tree::Directory { hash, children } = t {
        if ns.len() > 0 {
            lemma_child_ordered(t, ns[0]);
            names::lemma_has_at_rank(children, ns[0]);
            if ns.len() == 1 {
                lemma_put_hashed(children, ns[0], new);
            } else {
                let child = match names::lookup(children, ns[0]) {
                    Some(c) => c,
                    None => merkle::dir_tree(Seq::empty()),
                };
                lemma_insert_hashed(child, ns.drop_first(), new);
                lemma_put_hashed(children, ns[0], merkle::tree_insert(child, ns.drop_first(), new));
            }
        }
    }
}

/// Removing a node keeps every hash right.
pub proof fn lemma_remove_hashed(t: Tree, ns: Seq<Seq<char>>)
    requires
        merkle::ordered(t),
        merkle::hashed(t),
    ensures
        merkle::hashed(merkle::tree_remove(t, ns)),
    decreases ns.len(),
{
    if ns.len() > 0 && merkle::find(t, ns) is Some {
        let children = t->children;
        lemma_child_ordered(t, ns[0]);
        names::lemma_has_at_rank(children, ns[0]);
        if ns.len() == 1 {
            let s = names::without(children, ns[0]);
            let p = names::rank(children, ns[0]);
            assert forall|i: int| 0 <= i < s.len() implies merkle::hashed((#[trigger] s[i]).1) by {
                assert(s[i] == if i < p { children[i] } else { children[i + 1] });
            }
        } else {
            let c = names::lookup(children, ns[0])->0;
            lemma_remove_hashed(c, ns.drop_first());
            lemma_put_hashed(children, ns[0], merkle::tree_remove(c, ns.drop_first()));
        }
    }
}

/// A file node carries the right hash.
pub proof fn lemma_file_hashed(data: Seq<u8>, chunk_size: nat)
    ensures
        merkle::hashed(merkle::file_tree(data, chunk_size)),
{
}

/// The bytes of whole chunk hashes are a multiple of a hash's length.
proof fn lemma_joined_hashes_len(metas: Seq<chunk::Meta>)
    requires
        forall|i: int| 0 <= i < metas.len() ==> (#[trigger] metas[i]).hash.len() == 32,
    ensures
        chunk::hashes_joined(metas).len() == 32 * metas.len(),
    decreases metas.len(),
{
    if metas.len() > 0 {
        assert(metas[metas.len() - 1] == metas.last());
        lemma_joined_hashes_len(metas.drop_last());
    }
}

/// An empty directory is told from every file, and an empty file from every directory: what their hashes are
/// taken of differs, so the hashes do too, unless the hash function has them collide.
pub proof fn lemma_empty_ones_are_told_apart(chunks: Seq<chunk::Meta>, children: Seq<(Seq<char>, Tree)>)
    requires
        forall|i: int| 0 <= i < chunks.len() ==> (#[trigger] chunks[i]).hash.len() == 32,
        forall|i: int| 0 <= i < children.len() ==> merkle::tree_hash((#[trigger] children[i]).1).len() == 32,
        chunks.len() == 0 || children.len() == 0,
    ensures
        chunk::hashes_joined(chunks) != merkle::dir_bytes(children),
{
    lemma_joined_hashes_len(chunks);
    if children.len() > 0 {
        assert(children[children.len() - 1] == children.last());
        assert(merkle::entries_bytes(children).len() >= 32);
    }
}

/// A tree with every hash right has the hashes of its directories right.
pub proof fn lemma_hashed_directories(t: Tree)
    requires
        merkle::hashed(t),
    ensures
        merkle::dirs_hashed(t),
    decreases t,
{
    if let Tree::Directory { children, .. } = t {
        assert forall|i: int| 0 <= i < children.len() implies merkle::dirs_hashed((#[trigger] children[i]).1) by {
            lemma_hashed_directories(children[i].1);
        }
    }
}

/// Trees with the same root hash have no differences; so a tree has none from itself.
pub proof fn lemma_same_hash_no_diff(a: Tree, b: Tree, prefix: Seq<char>)
    requires
        merkle::tree_hash(a) == merkle::tree_hash(b),
    ensures
        merkle::tree_diff(a, b, prefix) == Seq::<Change>::empty(),
{
}

/// Removing what is not there, or nothing at all, changes nothing.
pub proof fn lemma_removing_nothing(t: Tree, ns: Seq<Seq<char>>)
    ensures
        ns.len() == 0 ==> merkle::tree_remove(t, ns) == t,
        merkle::find(t, ns) is None ==> merkle::tree_remove(t, ns) == t,
{
}

} // verus!
