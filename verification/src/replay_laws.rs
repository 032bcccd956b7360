//! The differences of two Merkle trees, replayed on the old one, lead to the new one.

use vstd::prelude::*;
use vstd::multiset::Multiset;

use crate::diff_laws;
use crate::merkle;
use crate::merkle::{Change, Tree};
use crate::names;
use crate::path;
use crate::reconcile;
use crate::text;
use crate::tree_laws;

verus! {

broadcast use {
    vstd::seq::group_seq_axioms,
    vstd::seq_lib::group_to_multiset_ensures,
    vstd::multiset::group_multiset_axioms,
};

/// The tree once a change is made in it.
pub open spec fn replayed(t: Tree, c: Change) -> Tree {
    match c {
        Change::Added(p, n) => merkle::tree_insert(t, path::path_names(p), n),
        Change::Removed(p, _) => merkle::tree_remove(t, path::path_names(p)),
        Change::Modified(p, _, n) => merkle::tree_insert(t, path::path_names(p), n),
    }
}

/// The tree once changes are made in it, one after the other.
pub open spec fn replay(t: Tree, cs: Seq<Change>) -> Tree
    decreases cs.len(),
{
    if cs.len() == 0 {
        t
    } else {
        replayed(replay(t, cs.drop_last()), cs.last())
    }
}

/// A change as the names to where it is made, from some directory on, and what stands there then.
ghost struct Edit {
    names: Seq<Seq<char>>,
    new: Option<Tree>,
}

/// What stands somewhere once an edit from there on is made.
spec fn edited(c: Option<Tree>, e: Edit) -> Option<Tree> {
    if e.names.len() == 0 {
        e.new
    } else {
        match (c, e.new) {
            (Some(t), Some(n)) => Some(merkle::tree_insert(t, e.names, n)),
            (Some(t), None) => Some(merkle::tree_remove(t, e.names)),
            (None, Some(n)) => Some(merkle::tree_insert(merkle::dir_tree(Seq::empty()), e.names, n)),
            (None, None) => None,
        }
    }
}

/// What stands somewhere once edits from there on are made, one after the other.
spec fn run(c: Option<Tree>, s: Seq<Edit>) -> Option<Tree>
    decreases s.len(),
{
    if s.len() == 0 {
        c
    } else {
        edited(run(c, s.drop_last()), s.last())
    }
}

/// The edits that go by a name, from behind that name on.
spec fn behind(s: Seq<Edit>, k: Seq<char>) -> Seq<Edit>
    decreases s.len(),
{
    if s.len() == 0 {
        Seq::empty()
    } else {
        let e = s.last();
        let before = behind(s.drop_last(), k);
        if e.names.len() > 0 && e.names[0] == k {
            before.push(Edit { names: e.names.drop_first(), new: e.new })
        } else {
            before
        }
    }
}

proof fn lemma_behind_concat(s: Seq<Edit>, t: Seq<Edit>, k: Seq<char>)
    ensures
        behind(s + t, k) == behind(s, k) + behind(t, k),
    decreases t.len(),
{
    if t.len() == 0 {
        assert(s + t =~= s);
        assert(behind(s, k) + behind(t, k) =~= behind(s, k));
    } else {
        lemma_behind_concat(s, t.drop_last(), k);
        assert((s + t).drop_last() =~= s + t.drop_last());
        assert((s + t).last() == t.last());
        assert(behind(s + t, k) =~= behind(s, k) + behind(t, k));
    }
}

/// An edit occurs behind a name as often as it occurs with that name before it.
proof fn lemma_behind_count(s: Seq<Edit>, k: Seq<char>, e: Edit)
    ensures
        behind(s, k).to_multiset().count(e) == s.to_multiset().count(Edit { names: seq![k] + e.names, new: e.new }),
    decreases s.len(),
{
    let full = Edit { names: seq![k] + e.names, new: e.new };
    if s.len() == 0 {
        assert(s.to_multiset() =~= Multiset::<Edit>::empty());
        assert(behind(s, k).to_multiset() =~= Multiset::<Edit>::empty());
    } else {
        let r = s.drop_last();
        let x = s.last();
        lemma_behind_count(r, k, e);
        assert(s =~= r.push(x));
        assert(s.to_multiset() =~= r.to_multiset().insert(x));
        if x.names.len() > 0 && x.names[0] == k {
            let y = Edit { names: x.names.drop_first(), new: x.new };
            assert(behind(s, k).to_multiset() =~= behind(r, k).to_multiset().insert(y));
            assert(x == full <==> y == e) by {
                assert((seq![k] + e.names).drop_first() =~= e.names);
                assert(x.names =~= seq![k] + x.names.drop_first());
            }
        } else {
            assert(x != full) by {
                assert(full.names[0] == k);
            }
        }
    }
}

/// Edits in another order are behind every name in another order.
proof fn lemma_behind_order(s: Seq<Edit>, t: Seq<Edit>, k: Seq<char>)
    requires
        s.to_multiset() == t.to_multiset(),
    ensures
        behind(s, k).to_multiset() == behind(t, k).to_multiset(),
{
    assert forall|e: Edit| behind(s, k).to_multiset().count(e) == behind(t, k).to_multiset().count(e) by {
        lemma_behind_count(s, k, e);
        lemma_behind_count(t, k, e);
    }
    assert(behind(s, k).to_multiset() =~= behind(t, k).to_multiset());
}

/// There is only one order of one thing.
proof fn lemma_single_order<A>(s: Seq<A>, x: A)
    requires
        s.to_multiset() == seq![x].to_multiset(),
    ensures
        s == seq![x],
{
    assert(s.len() == s.to_multiset().len());
    assert(seq![x].len() == seq![x].to_multiset().len());
    assert(s.contains(s[0]));
    assert(s.to_multiset().count(s[0]) > 0);
    assert(seq![x].contains(s[0]));
    assert(s =~= seq![x]);
}

/// There is only one order of nothing.
proof fn lemma_empty_order<A>(s: Seq<A>, t: Seq<A>)
    requires
        s.to_multiset() == t.to_multiset(),
        t.len() == 0,
    ensures
        s.len() == 0,
{
    assert(s.len() == s.to_multiset().len());
    assert(t.len() == t.to_multiset().len());
}

/// What is found in one order is found in the other.
proof fn lemma_same_things<A>(s: Seq<A>, t: Seq<A>, i: int)
    requires
        s.to_multiset() == t.to_multiset(),
        0 <= i < s.len(),
    ensures
        t.contains(s[i]),
{
    assert(s.contains(s[i]));
    assert(s.to_multiset().count(s[i]) > 0);
}

/// Directories with the same names, and the same hash under each, hold the same.
proof fn lemma_same_entries(x: Seq<(Seq<char>, Tree)>, y: Seq<(Seq<char>, Tree)>)
    requires
        names::in_order(x),
        names::in_order(y),
        forall|k: Seq<char>| #[trigger] same_hash_at(x, y, k),
    ensures
        merkle::entries_bytes(x) == merkle::entries_bytes(y),
        x.len() == y.len(),
    decreases x.len(),
{
    if x.len() == 0 {
        if y.len() > 0 {
            names::lemma_lookup_at(y, 0);
            assert(same_hash_at(x, y, y[0].0));
        }
    } else {
        let kx = x.last().0;
        names::lemma_lookup_at(x, x.len() - 1);
        assert(same_hash_at(x, y, kx));
        names::lemma_has_at_rank(y, kx);
        let i = names::rank(y, kx);
        assert(y[i].0 == kx);
        let ky = y.last().0;
        names::lemma_lookup_at(y, y.len() - 1);
        assert(same_hash_at(x, y, ky));
        names::lemma_has_at_rank(x, ky);
        let j = names::rank(x, ky);
        assert(x[j].0 == ky);
        if kx != ky {
            assert(text::lex_lt(y[i].0, y[y.len() - 1].0));
            assert(text::lex_lt(x[j].0, x[x.len() - 1].0));
            text::lemma_lex_transitive(kx, ky, kx);
            text::lemma_lex_irreflexive(kx);
        }
        lemma_drop_last_in_order(x);
        lemma_drop_last_in_order(y);
        assert forall|k: Seq<char>| #[trigger] same_hash_at(x.drop_last(), y.drop_last(), k) by {
            assert(same_hash_at(x, y, k));
            lemma_lookup_drop_last(x, k);
            lemma_lookup_drop_last(y, k);
        }
        lemma_same_entries(x.drop_last(), y.drop_last());
    }
}

/// Either none of the two has the name, or both have, with the same hash.
spec fn same_hash_at(x: Seq<(Seq<char>, Tree)>, y: Seq<(Seq<char>, Tree)>, k: Seq<char>) -> bool {
    same_hash(names::lookup(x, k), names::lookup(y, k))
}

/// Either both are nothing, or both are something, with the same hash.
spec fn same_hash(a: Option<Tree>, b: Option<Tree>) -> bool {
    match (a, b) {
        (None, None) => true,
        (Some(x), Some(y)) => merkle::tree_hash(x) == merkle::tree_hash(y),
        _ => false,
    }
}

proof fn lemma_drop_last_in_order(s: Seq<(Seq<char>, Tree)>)
    requires
        names::in_order(s),
        s.len() > 0,
    ensures
        names::in_order(s.drop_last()),
{
    let r = s.drop_last();
    assert forall|i: int, j: int| 0 <= i < j < r.len() implies text::lex_lt(#[trigger] r[i].0, #[trigger] r[j].0) by {
        assert(r[i] == s[i] && r[j] == s[j]);
    }
}

proof fn lemma_lookup_drop_last(s: Seq<(Seq<char>, Tree)>, k: Seq<char>)
    requires
        names::in_order(s),
        s.len() > 0,
    ensures
        names::lookup(s.drop_last(), k) == if k == s.last().0 {
            None
        } else {
            names::lookup(s, k)
        },
{
    let r = s.drop_last();
    lemma_drop_last_in_order(s);
    if names::has_name(r, k) {
        let i = choose|i: int| 0 <= i < r.len() && (#[trigger] r[i]).0 == k;
        assert(s[i] == r[i]);
        names::lemma_lookup_at(r, i);
        names::lemma_lookup_at(s, i);
        assert(text::lex_lt(s[i].0, s[s.len() - 1].0));
        text::lemma_lex_irreflexive(k);
    } else if names::has_name(s, k) {
        let i = choose|i: int| 0 <= i < s.len() && (#[trigger] s[i]).0 == k;
        if i < r.len() {
            assert(r[i].0 == k);
        }
    }
}

/// The hash of the directory is that of its children.
spec fn right_hash(t: Tree) -> bool {
    t is Directory && merkle::tree_hash(t) == merkle::dir_digest(t->children)
}

/// Edits below a directory are edits below each of its children.
proof fn lemma_run_children(t: Tree, s: Seq<Edit>)
    requires
        merkle::ordered(t),
        right_hash(t),
        forall|i: int| 0 <= i < s.len() ==> (#[trigger] s[i]).names.len() > 0,
        forall|i: int| 0 <= i < s.len() ==> ((#[trigger] s[i]).new matches Some(n) ==> merkle::ordered(n)),
    ensures
        run(Some(t), s) is Some,
        merkle::ordered(run(Some(t), s)->0),
        right_hash(run(Some(t), s)->0),
        forall|k: Seq<char>| #[trigger]
            names::lookup(run(Some(t), s)->0->children, k) == run(names::lookup(t->children, k), behind(s, k)),
    decreases s.len(),
{
    if s.len() > 0 {
        let r = s.drop_last();
        let e = s.last();
        assert(s[s.len() - 1] == e);
        assert forall|i: int| 0 <= i < r.len() implies (#[trigger] r[i]).names.len() > 0 by {
            assert(r[i] == s[i]);
        }
        assert forall|i: int| 0 <= i < r.len() implies ((#[trigger] r[i]).new matches Some(n) ==> merkle::ordered(n)) by {
            assert(r[i] == s[i]);
        }
        lemma_run_children(t, r);
        let u = run(Some(t), r)->0;
        lemma_edit_children(u, e);
        let v = run(Some(t), s)->0;
        assert forall|k: Seq<char>| #[trigger]
            names::lookup(v->children, k) == run(names::lookup(t->children, k), behind(s, k)) by {
            let c = names::lookup(t->children, k);
            assert(names::lookup(u->children, k) == run(c, behind(r, k)));
            if e.names[0] == k {
                let last = Edit { names: e.names.drop_first(), new: e.new };
                assert(behind(s, k) == behind(r, k).push(last));
                assert(behind(s, k).drop_last() =~= behind(r, k));
                assert(behind(s, k).last() == last);
                assert(names::lookup(v->children, k) == edited(names::lookup(u->children, k), last));
            } else {
                assert(behind(s, k) == behind(r, k));
                assert(names::lookup(v->children, k) == names::lookup(u->children, k));
            }
        }
    }
}

/// An edit below a directory is an edit below one of its children.
proof fn lemma_edit_children(u: Tree, e: Edit)
    requires
        merkle::ordered(u),
        right_hash(u),
        e.names.len() > 0,
        e.new matches Some(n) ==> merkle::ordered(n),
    ensures
        edited(Some(u), e) is Some,
        merkle::ordered(edited(Some(u), e)->0),
        right_hash(edited(Some(u), e)->0),
        forall|k: Seq<char>| #[trigger]
            names::lookup(edited(Some(u), e)->0->children, k) == if k == e.names[0] {
                edited(names::lookup(u->children, k), Edit { names: e.names.drop_first(), new: e.new })
            } else {
                names::lookup(u->children, k)
            },
{
    let ns = e.names;
    let rest = ns.drop_first();
    let children = u->children;
    names::lemma_has_at_rank(children, ns[0]);
    match e.new {
        Some(n) => {
            merkle::lemma_insert_ordered(u, ns, n);
            let child = match names::lookup(children, ns[0]) {
                Some(c) => c,
                None => merkle::dir_tree(Seq::empty()),
            };
            let put = if ns.len() == 1 {
                n
            } else {
                merkle::tree_insert(child, rest, n)
            };
            assert(merkle::tree_insert(u, ns, n) == merkle::dir_tree(names::put(children, ns[0], put)));
            assert forall|k: Seq<char>| #[trigger]
                names::lookup(names::put(children, ns[0], put), k) == if k == ns[0] {
                    Some(put)
                } else {
                    names::lookup(children, k)
                } by {
                names::lemma_lookup_put(children, ns[0], put, k);
            }
        },
        None => {
            merkle::lemma_remove_ordered(u, ns);
            if merkle::find(u, ns) is None {
                if ns.len() == 1 {
                    if let Some(c) = names::lookup(children, ns[0]) {
                        assert(merkle::find(c, rest) == Some(c));
                    }
                }
            } else if ns.len() == 1 {
                assert forall|k: Seq<char>| #[trigger]
                    names::lookup(names::without(children, ns[0]), k) == if k == ns[0] {
                        None
                    } else {
                        names::lookup(children, k)
                    } by {
                    names::lemma_lookup_without(children, ns[0], k);
                }
            } else {
                let c = names::lookup(children, ns[0])->0;
                let put = merkle::tree_remove(c, rest);
                assert forall|k: Seq<char>| #[trigger]
                    names::lookup(names::put(children, ns[0], put), k) == if k == ns[0] {
                        Some(put)
                    } else {
                        names::lookup(children, k)
                    } by {
                    names::lemma_lookup_put(children, ns[0], put, k);
                }
            }
        },
    }
}

/// A change as an edit, from behind the first `n` names on.
spec fn edit_of(c: Change, n: int) -> Edit {
    Edit {
        names: diff_laws::change_names(c).skip(n),
        new: match c {
            Change::Added(_, t) => Some(t),
            Change::Removed(_, _) => None,
            Change::Modified(_, _, t) => Some(t),
        },
    }
}

/// Changes as edits.
spec fn edits(cs: Seq<Change>, n: int) -> Seq<Edit> {
    cs.map_values(|c: Change| edit_of(c, n))
}

/// The edits that lead from what stands at a path in the old tree to what stands there in the new one.
spec fn edits_between(a: Option<Tree>, b: Option<Tree>, prefix: Seq<char>) -> Seq<Edit> {
    match (a, b) {
        (None, None) => Seq::empty(),
        (None, Some(_)) => seq![Edit { names: Seq::empty(), new: b }],
        (Some(_), None) => seq![Edit { names: Seq::empty(), new: None }],
        (Some(x), Some(y)) => edits(merkle::tree_diff(x, y, prefix), path::path_names(prefix).len() as int),
    }
}

/// Changes whose names all go on with one name behind the first `n`.
proof fn lemma_behind_part(part: Seq<Change>, base: Seq<Seq<char>>, name: Seq<char>, k: Seq<char>)
    requires
        forall|m: int|
            0 <= m < part.len() ==> tree_laws::begins_with(
                diff_laws::change_names(#[trigger] part[m]),
                base.push(name),
            ),
    ensures
        behind(edits(part, base.len() as int), k) == if k == name {
            edits(part, base.len() as int + 1)
        } else {
            Seq::<Edit>::empty()
        },
    decreases part.len(),
{
    let n = base.len() as int;
    let s = edits(part, n);
    if part.len() == 0 {
        assert(behind(s, k) =~= Seq::<Edit>::empty());
        assert(edits(part, n + 1) =~= Seq::<Edit>::empty());
    } else {
        let r = part.drop_last();
        assert forall|m: int| 0 <= m < r.len() implies tree_laws::begins_with(
            diff_laws::change_names(#[trigger] r[m]),
            base.push(name),
        ) by {
            assert(r[m] == part[m]);
        }
        lemma_behind_part(r, base, name, k);
        assert(s.drop_last() =~= edits(r, n));
        let c = part.last();
        assert(part[part.len() - 1] == c);
        let ns = diff_laws::change_names(c);
        diff_laws::lemma_name_behind(ns, base, name);
        assert(s.last() == edit_of(c, n));
        assert(ns.skip(n)[0] == name);
        assert(ns.skip(n).drop_first() =~= ns.skip(n + 1));
        assert(edits(part, n + 1) =~= edits(r, n + 1).push(edit_of(c, n + 1)));
    }
}

/// The edits under the first names of the new directory, behind one name.
proof fn lemma_behind_kept(a: Tree, b: Tree, prefix: Seq<char>, n: nat, k: Seq<char>)
    requires
        merkle::ordered(a),
        merkle::ordered(b),
        diff_laws::plain_names(a),
        diff_laws::plain_names(b),
        a is Directory,
        b is Directory,
        n <= b->children.len(),
    ensures
        behind(
            edits(merkle::kept_diff(a->children, b->children, prefix, n), path::path_names(prefix).len() as int),
            k,
        ) == if names::has_name(b->children.take(n as int), k) {
            edits_between(
                names::lookup(a->children, k),
                names::lookup(b->children, k),
                path::join_text(prefix, k),
            )
        } else {
            Seq::<Edit>::empty()
        },
    decreases n,
{
    let ac = a->children;
    let bc = b->children;
    let base = path::path_names(prefix);
    let at = base.len() as int;
    let all = merkle::kept_diff(ac, bc, prefix, n);
    let first = bc.take(n as int);
    if n == 0 {
        assert(edits(all, at) =~= Seq::<Edit>::empty());
    } else {
        let j = n - 1;
        let before = merkle::kept_diff(ac, bc, prefix, j as nat);
        let part = diff_laws::child_diff(ac, bc, prefix, j);
        let name = bc[j].0;
        let child = bc[j].1;
        let here = path::join_text(prefix, name);
        lemma_behind_kept(a, b, prefix, j as nat, k);
        assert(all == before + part);
        assert(edits(all, at) =~= edits(before, at) + edits(part, at));
        lemma_behind_concat(edits(before, at), edits(part, at), k);
        assert forall|m: int| 0 <= m < part.len() implies tree_laws::begins_with(
            diff_laws::change_names(#[trigger] part[m]),
            base.push(name),
        ) by {
            diff_laws::lemma_child_names(a, b, prefix, j, m);
        }
        lemma_behind_part(part, base, name, k);
        path::lemma_join_name(prefix, name);
        names::lemma_lookup_at(bc, j);
        let fewer = bc.take(j);
        assert(first[j] == bc[j]);
        if k == name {
            assert(names::has_name(first, k));
            assert(!names::has_name(fewer, k)) by {
                if names::has_name(fewer, k) {
                    let i = choose|i: int| 0 <= i < fewer.len() && (#[trigger] fewer[i]).0 == k;
                    diff_laws::lemma_names_differ(bc, i, j);
                }
            }
            let between = edits_between(names::lookup(ac, k), names::lookup(bc, k), here);
            if names::lookup(ac, k) is None {
                let ns = path::path_names(here);
                assert(ns.skip(ns.len() as int) =~= Seq::<Seq<char>>::empty());
                assert(edits(part, at + 1) =~= between);
            } else {
                assert(edits(part, at + 1) == between);
            }
            assert(behind(edits(all, at), k) =~= between);
        } else {
            if names::has_name(first, k) {
                let i = choose|i: int| 0 <= i < first.len() && (#[trigger] first[i]).0 == k;
                assert(fewer[i].0 == k);
            }
            if names::has_name(fewer, k) {
                let i = choose|i: int| 0 <= i < fewer.len() && (#[trigger] fewer[i]).0 == k;
                assert(first[i].0 == k);
            }
            assert(behind(edits(all, at), k) =~= behind(edits(before, at), k));
        }
    }
}

/// The removals among the first names of the old directory, behind one name.
proof fn lemma_behind_gone(a: Tree, b: Tree, prefix: Seq<char>, n: nat, k: Seq<char>)
    requires
        merkle::ordered(a),
        diff_laws::plain_names(a),
        a is Directory,
        b is Directory,
        n <= a->children.len(),
    ensures
        behind(
            edits(merkle::gone_diff(a->children, b->children, prefix, n), path::path_names(prefix).len() as int),
            k,
        ) == if names::has_name(a->children.take(n as int), k) && !names::has_name(b->children, k) {
            seq![Edit { names: Seq::empty(), new: None }]
        } else {
            Seq::<Edit>::empty()
        },
    decreases n,
{
    let ac = a->children;
    let bc = b->children;
    let base = path::path_names(prefix);
    let at = base.len() as int;
    let all = merkle::gone_diff(ac, bc, prefix, n);
    let first = ac.take(n as int);
    if n == 0 {
        assert(edits(all, at) =~= Seq::<Edit>::empty());
    } else {
        let j = n - 1;
        let before = merkle::gone_diff(ac, bc, prefix, j as nat);
        let name = ac[j].0;
        let fewer = ac.take(j);
        lemma_behind_gone(a, b, prefix, j as nat, k);
        assert(first[j] == ac[j]);
        if k == name {
            assert(names::has_name(first, k));
            assert(!names::has_name(fewer, k)) by {
                if names::has_name(fewer, k) {
                    let i = choose|i: int| 0 <= i < fewer.len() && (#[trigger] fewer[i]).0 == k;
                    diff_laws::lemma_names_differ(ac, i, j);
                }
            }
        } else {
            if names::has_name(first, k) {
                let i = choose|i: int| 0 <= i < first.len() && (#[trigger] first[i]).0 == k;
                assert(fewer[i].0 == k);
            }
            if names::has_name(fewer, k) {
                let i = choose|i: int| 0 <= i < fewer.len() && (#[trigger] fewer[i]).0 == k;
                assert(first[i].0 == k);
            }
        }
        if !names::has_name(bc, name) {
            path::lemma_join_name(prefix, name);
            let c = Change::Removed(path::join_text(prefix, name), ac[j].1);
            let e = edit_of(c, at);
            assert(e.names =~= seq![name]);
            assert(edits(all, at) =~= edits(before, at).push(e));
            assert(edits(all, at).drop_last() =~= edits(before, at));
            assert(e.names.drop_first() =~= Seq::<Seq<char>>::empty());
            if k == name {
                assert(behind(edits(all, at), k) =~= seq![Edit { names: Seq::<Seq<char>>::empty(), new: None }]);
            }
        }
    }
}

/// Behind each name, the edits between two directories are those between what stands under the name.
proof fn lemma_behind_name(a: Tree, b: Tree, prefix: Seq<char>, k: Seq<char>)
    requires
        merkle::ordered(a),
        merkle::ordered(b),
        diff_laws::plain_names(a),
        diff_laws::plain_names(b),
        a is Directory,
        b is Directory,
        merkle::tree_hash(a) != merkle::tree_hash(b),
    ensures
        behind(edits_between(Some(a), Some(b), prefix), k) == edits_between(
            names::lookup(a->children, k),
            names::lookup(b->children, k),
            path::join_text(prefix, k),
        ),
{
    let ac = a->children;
    let bc = b->children;
    let at = path::path_names(prefix).len() as int;
    let kept = merkle::kept_diff(ac, bc, prefix, bc.len());
    let gone = merkle::gone_diff(ac, bc, prefix, ac.len());
    assert(merkle::tree_diff(a, b, prefix) == kept + gone);
    assert(edits(kept + gone, at) =~= edits(kept, at) + edits(gone, at));
    lemma_behind_concat(edits(kept, at), edits(gone, at), k);
    lemma_behind_kept(a, b, prefix, bc.len(), k);
    lemma_behind_gone(a, b, prefix, ac.len(), k);
    assert(bc.take(bc.len() as int) =~= bc);
    assert(ac.take(ac.len() as int) =~= ac);
    names::lemma_has_at_rank(ac, k);
    names::lemma_has_at_rank(bc, k);
    assert(behind(edits_between(Some(a), Some(b), prefix), k) =~= edits_between(
        names::lookup(ac, k),
        names::lookup(bc, k),
        path::join_text(prefix, k),
    ));
}

/// Every edit between two directories goes by a name, and brings a well-formed node.
proof fn lemma_edits_go_by_names(a: Tree, b: Tree, prefix: Seq<char>, i: int)
    requires
        merkle::ordered(a),
        merkle::ordered(b),
        diff_laws::plain_names(a),
        diff_laws::plain_names(b),
        a is Directory,
        b is Directory,
        0 <= i < merkle::tree_diff(a, b, prefix).len(),
    ensures
        edit_of(merkle::tree_diff(a, b, prefix)[i], path::path_names(prefix).len() as int).names.len() > 0,
        edit_of(merkle::tree_diff(a, b, prefix)[i], path::path_names(prefix).len() as int).new matches Some(n)
            ==> merkle::ordered(n),
{
    let base = path::path_names(prefix);
    let c = merkle::tree_diff(a, b, prefix)[i];
    diff_laws::lemma_diff_truthful(a, b, prefix);
    assert(diff_laws::truthful(c, a, b, base));
    let rel = diff_laws::change_names(c).skip(base.len() as int);
    reconcile::lemma_found_is_well_formed(b, rel);
}

/// Edits in any order lead to the same hash, where what is edited is nothing, or no directory, or equal.
proof fn lemma_run_flat(a: Option<Tree>, b: Option<Tree>, prefix: Seq<char>, s: Seq<Edit>)
    requires
        s.to_multiset() == edits_between(a, b, prefix).to_multiset(),
        a matches Some(x) ==> b matches Some(y) ==> merkle::tree_hash(x) == merkle::tree_hash(y) || !(x is Directory)
            || !(y is Directory),
    ensures
        same_hash(run(a, s), b),
{
    match (a, b) {
        (None, None) => {
            lemma_empty_order(s, edits_between(a, b, prefix));
        },
        (None, Some(_)) => {
            lemma_single_order(s, Edit { names: Seq::empty(), new: b });
            lemma_run_single(a, s);
        },
        (Some(_), None) => {
            lemma_single_order(s, Edit { names: Seq::empty(), new: None });
            lemma_run_single(a, s);
        },
        (Some(x), Some(y)) => {
            if merkle::tree_hash(x) == merkle::tree_hash(y) {
                lemma_empty_order(s, edits_between(a, b, prefix));
            } else {
                let base = path::path_names(prefix);
                let e = Edit { names: Seq::empty(), new: b };
                assert(base.skip(base.len() as int) =~= Seq::<Seq<char>>::empty());
                assert(edits_between(a, b, prefix) =~= seq![e]);
                lemma_single_order(s, e);
                lemma_run_single(a, s);
            }
        },
    }
}

proof fn lemma_run_single(a: Option<Tree>, s: Seq<Edit>)
    requires
        s.len() == 1,
    ensures
        run(a, s) == edited(a, s[0]),
{
    assert(s.drop_last().len() == 0);
    assert(run(a, s.drop_last()) == a);
}

/// The edits between two trees, made in the old one in any order, give the root hash of the new one.
proof fn lemma_run_gives_hash(a: Option<Tree>, b: Tree, prefix: Seq<char>, s: Seq<Edit>)
    requires
        a matches Some(x) ==> merkle::ordered(x) && merkle::dirs_hashed(x) && diff_laws::plain_names(x),
        merkle::ordered(b),
        merkle::dirs_hashed(b),
        diff_laws::plain_names(b),
        s.to_multiset() == edits_between(a, Some(b), prefix).to_multiset(),
    ensures
        same_hash(run(a, s), Some(b)),
    decreases b,
{
    if a is Some && a->0 is Directory && b is Directory && merkle::tree_hash(a->0) != merkle::tree_hash(b) {
        let x = a->0;
        let all = edits_between(a, Some(b), prefix);
        let d = merkle::tree_diff(x, b, prefix);
        let at = path::path_names(prefix).len() as int;
        assert forall|i: int| 0 <= i < s.len() implies (#[trigger] s[i]).names.len() > 0 && (s[i].new matches Some(n)
            ==> merkle::ordered(n)) by {
            lemma_same_things(s, all, i);
            let j = choose|j: int| 0 <= j < all.len() && all[j] == s[i];
            assert(all[j] == edit_of(d[j], at));
            lemma_edits_go_by_names(x, b, prefix, j);
        }
        lemma_run_children(x, s);
        let r = run(a, s)->0;
        let xc = x->children;
        let bc = b->children;
        assert forall|k: Seq<char>| #[trigger] same_hash_at(r->children, bc, k) by {
            let here = path::join_text(prefix, k);
            assert(names::lookup(r->children, k) == run(names::lookup(xc, k), behind(s, k)));
            lemma_behind_order(s, all, k);
            lemma_behind_name(x, b, prefix, k);
            names::lemma_has_at_rank(bc, k);
            names::lemma_has_at_rank(xc, k);
            match names::lookup(bc, k) {
                Some(c) => {
                    let j = names::rank(bc, k);
                    assert(bc[j].1 == c);
                    lemma_run_gives_hash(names::lookup(xc, k), c, here, behind(s, k));
                },
                None => {
                    lemma_run_flat(names::lookup(xc, k), None, here, behind(s, k));
                },
            }
        }
        lemma_same_entries(r->children, bc);
    } else {
        lemma_run_flat(a, Some(b), prefix, s);
    }
}

/// Changes in another order are edits in another order.
proof fn lemma_edits_order(s: Seq<Change>, t: Seq<Change>, n: int)
    requires
        s.to_multiset() == t.to_multiset(),
    ensures
        edits(s, n).to_multiset() == edits(t, n).to_multiset(),
    decreases s.len(),
{
    assert(s.len() == s.to_multiset().len());
    assert(t.len() == t.to_multiset().len());
    if s.len() == 0 {
        assert(edits(s, n) =~= edits(t, n));
    } else {
        let x = s.last();
        let r = s.drop_last();
        assert(s =~= r.push(x));
        assert(s[s.len() - 1] == x);
        lemma_same_things(s, t, s.len() - 1);
        let i = choose|i: int| 0 <= i < t.len() && t[i] == x;
        let u = t.remove(i);
        assert(u.to_multiset() =~= t.to_multiset().remove(x));
        assert(s.to_multiset() =~= r.to_multiset().insert(x));
        assert(r.to_multiset() =~= u.to_multiset());
        lemma_edits_order(r, u, n);
        let e = edit_of(x, n);
        assert(edits(s, n) =~= edits(r, n).push(e));
        assert(edits(t, n).remove(i) =~= edits(u, n));
        assert(edits(t, n)[i] == e);
        assert(edits(u, n).to_multiset() =~= edits(t, n).to_multiset().remove(e));
        assert(edits(t, n).contains(e));
        assert(edits(t, n).to_multiset().count(e) > 0);
        assert(edits(t, n).to_multiset() =~= edits(u, n).to_multiset().insert(e));
        assert(edits(s, n).to_multiset() =~= edits(t, n).to_multiset());
    }
}

/// Replaying changes is making their edits.
proof fn lemma_replay_runs(t: Tree, cs: Seq<Change>)
    requires
        forall|i: int| 0 <= i < cs.len() ==> diff_laws::change_names(#[trigger] cs[i]).len() > 0,
    ensures
        run(Some(t), edits(cs, 0)) == Some(replay(t, cs)),
    decreases cs.len(),
{
    let s = edits(cs, 0);
    if cs.len() > 0 {
        let r = cs.drop_last();
        assert forall|i: int| 0 <= i < r.len() implies diff_laws::change_names(#[trigger] r[i]).len() > 0 by {
            assert(r[i] == cs[i]);
        }
        lemma_replay_runs(t, r);
        assert(s.drop_last() =~= edits(r, 0));
        assert(cs[cs.len() - 1] == cs.last());
        let ns = diff_laws::change_names(cs.last());
        assert(ns.skip(0) =~= ns);
        assert(s.last() == edit_of(cs.last(), 0));
    }
}

/// Replaying the differences on the old tree, in whatever order, gives the root hash of the new one.
pub proof fn lemma_replay_gives_the_new_root(a: Tree, b: Tree, cs: Seq<Change>)
    requires
        a is Directory,
        b is Directory,
        merkle::ordered(a),
        merkle::ordered(b),
        merkle::dirs_hashed(a),
        merkle::dirs_hashed(b),
        diff_laws::plain_names(a),
        diff_laws::plain_names(b),
        cs.to_multiset() == merkle::tree_diff(a, b, Seq::empty()).to_multiset(),
    ensures
        merkle::tree_hash(replay(a, cs)) == merkle::tree_hash(b),
{
    let root = Seq::<char>::empty();
    let d = merkle::tree_diff(a, b, root);
    reconcile::lemma_root_has_no_names();
    assert forall|i: int| 0 <= i < cs.len() implies diff_laws::change_names(#[trigger] cs[i]).len() > 0 by {
        lemma_same_things(cs, d, i);
        let j = choose|j: int| 0 <= j < d.len() && d[j] == cs[i];
        lemma_edits_go_by_names(a, b, root, j);
        assert(diff_laws::change_names(d[j]).skip(0) =~= diff_laws::change_names(d[j]));
    }
    lemma_replay_runs(a, cs);
    lemma_edits_order(cs, d, 0);
    assert(edits_between(Some(a), Some(b), root) == edits(d, 0));
    lemma_run_gives_hash(Some(a), b, root, edits(cs, 0));
}

/// Trees without differences have the same root hash.
pub proof fn lemma_no_differences_mean_the_same_root(a: Tree, b: Tree, prefix: Seq<char>)
    requires
        merkle::ordered(a),
        merkle::ordered(b),
        merkle::dirs_hashed(a),
        merkle::dirs_hashed(b),
        merkle::tree_diff(a, b, prefix).len() == 0,
    ensures
        merkle::tree_hash(a) == merkle::tree_hash(b),
    decreases b,
{
    if merkle::tree_hash(a) != merkle::tree_hash(b) && a is Directory && b is Directory {
        let ac = a->children;
        let bc = b->children;
        let kept = merkle::kept_diff(ac, bc, prefix, bc.len());
        let gone = merkle::gone_diff(ac, bc, prefix, ac.len());
        assert(merkle::tree_diff(a, b, prefix) == kept + gone);
        assert forall|k: Seq<char>| #[trigger] same_hash_at(ac, bc, k) by {
            names::lemma_has_at_rank(ac, k);
            names::lemma_has_at_rank(bc, k);
            if names::has_name(bc, k) {
                let j = names::rank(bc, k);
                let part = diff_laws::child_diff(ac, bc, prefix, j);
                let at = diff_laws::lemma_kept_holds_child(ac, bc, prefix, bc.len(), j);
                assert(part.len() == 0);
                let o = names::lookup(ac, k)->0;
                lemma_no_differences_mean_the_same_root(o, bc[j].1, path::join_text(prefix, k));
            } else if names::has_name(ac, k) {
                let j = names::rank(ac, k);
                let at = diff_laws::lemma_gone_holds(ac, bc, prefix, ac.len(), j);
            }
        }
        lemma_same_entries(ac, bc);
    }
}

/// Trees that differ have differences, where no two different contents that meet have one hash. So an empty
/// file and an empty directory of the same name are told apart.
pub proof fn lemma_different_trees_have_differences(a: Tree, b: Tree, prefix: Seq<char>)
    requires
        merkle::ordered(a),
        merkle::ordered(b),
        merkle::dirs_hashed(a),
        merkle::dirs_hashed(b),
        diff_laws::no_collision(a, b),
        a != b,
    ensures
        merkle::tree_diff(a, b, prefix).len() > 0,
{
    if merkle::tree_diff(a, b, prefix).len() == 0 {
        lemma_no_differences_mean_the_same_root(a, b, prefix);
    }
}

} // verus!
