//! What the comparison of two Merkle trees promises.

use vstd::prelude::*;

use crate::merkle;
use crate::merkle::{Change, Tree};
use crate::names;
use crate::path;
use crate::text;
use crate::tree_laws;

verus! {

broadcast use vstd::seq::group_seq_axioms;

/// Every name in the tree can name an entry of a directory: it is not empty, holds no slash, and is
/// neither `.` nor `..`.
pub open spec fn plain_names(t: Tree) -> bool
    decreases t,
{
    match t {
        Tree::File { .. } => true,
        Tree::Directory { children, .. } => forall|i: int|
            0 <= i < children.len() ==> path::plain_name((#[trigger] children[i]).0) && plain_names(children[i].1),
    }
}

/// Where the two trees carry the same hash they are the same: no two different contents that meet
/// in the comparison have one hash.
pub open spec fn no_collision(a: Tree, b: Tree) -> bool
    decreases b,
{
    &&& merkle::tree_hash(a) == merkle::tree_hash(b) ==> a == b
    &&& match (a, b) {
        (Tree::Directory { children: ac, .. }, Tree::Directory { children: bc, .. }) => forall|i: int|
            0 <= i < bc.len() ==> match names::lookup(ac, (#[trigger] bc[i]).0) {
                Some(o) => no_collision(o, bc[i].1),
                None => true,
            },
        _ => true,
    }
}

/// The path that a change is about.
pub open spec fn change_path(c: Change) -> Seq<char> {
    match c {
        Change::Added(p, _) => p,
        Change::Removed(p, _) => p,
        Change::Modified(p, _, _) => p,
    }
}

/// The change tells the truth about two trees that stand at the path with the names `base`.
pub open spec fn truthful(c: Change, a: Tree, b: Tree, base: Seq<Seq<char>>) -> bool {
    let ns = path::path_names(change_path(c));
    let rel = ns.skip(base.len() as int);
    &&& tree_laws::begins_with(ns, base)
    &&& match c {
        Change::Added(_, t) => merkle::find(a, rel) is None && merkle::find(b, rel) == Some(t),
        Change::Removed(_, t) => merkle::find(a, rel) == Some(t) && merkle::find(b, rel) is None,
        Change::Modified(_, o, n) => {
            &&& merkle::find(a, rel) == Some(o)
            &&& merkle::find(b, rel) == Some(n)
            &&& merkle::tree_hash(o) != merkle::tree_hash(n)
            &&& !(o is Directory && n is Directory)
        },
    }
}

/// What holds of a child holds of its directory, one name further down.
proof fn lemma_truthful_lifts(
    c: Change,
    a: Tree,
    b: Tree,
    base: Seq<Seq<char>>,
    name: Seq<char>,
)
    requires
        a is Directory,
        b is Directory,
        names::lookup(a->children, name) is Some,
        names::lookup(b->children, name) is Some,
        truthful(
            c,
            names::lookup(a->children, name)->0,
            names::lookup(b->children, name)->0,
            base.push(name),
        ),
    ensures
        truthful(c, a, b, base),
{
    let ns = path::path_names(change_path(c));
    let more = base.push(name);
    let rel = ns.skip(base.len() as int);
    assert(ns.take(more.len() as int)[base.len() as int] == name);
    assert(ns.take(base.len() as int) =~= ns.take(more.len() as int).take(base.len() as int));
    assert(more.take(base.len() as int) =~= base);
    assert(rel[0] == name);
    assert(rel.drop_first() =~= ns.skip(more.len() as int));
}

/// Every difference that is reported is one: what is added is only in the new tree, what is removed
/// only in the old one, and what is modified is in both, with different hashes.
pub proof fn lemma_diff_truthful(a: Tree, b: Tree, prefix: Seq<char>)
    requires
        merkle::ordered(a),
        merkle::ordered(b),
        plain_names(a),
        plain_names(b),
    ensures
        forall|i: int| 0 <= i < merkle::tree_diff(a, b, prefix).len() ==> truthful(
            #[trigger] merkle::tree_diff(a, b, prefix)[i],
            a,
            b,
            path::path_names(prefix),
        ),
    decreases b, 0nat,
{
    let base = path::path_names(prefix);
    let d = merkle::tree_diff(a, b, prefix);
    if merkle::tree_hash(a) != merkle::tree_hash(b) {
        if a is Directory && b is Directory {
            let ac = a->children;
            let bc = b->children;
            lemma_kept_truthful(a, b, prefix, bc.len());
            lemma_gone_truthful(a, b, prefix, ac.len());
            let kept = merkle::kept_diff(ac, bc, prefix, bc.len());
            let gone = merkle::gone_diff(ac, bc, prefix, ac.len());
            assert forall|i: int| 0 <= i < d.len() implies truthful(#[trigger] d[i], a, b, base) by {
                if i < kept.len() {
                    assert(d[i] == kept[i]);
                } else {
                    assert(d[i] == gone[i - kept.len()]);
                }
            }
        } else {
            assert(base.take(base.len() as int) =~= base);
            assert(base.skip(base.len() as int) =~= Seq::<Seq<char>>::empty());
        }
    }
}

proof fn lemma_kept_truthful(a: Tree, b: Tree, prefix: Seq<char>, n: nat)
    requires
        merkle::ordered(a),
        merkle::ordered(b),
        plain_names(a),
        plain_names(b),
        a is Directory,
        b is Directory,
        n <= b->children.len(),
    ensures
        forall|i: int| 0 <= i < merkle::kept_diff(a->children, b->children, prefix, n).len() ==> truthful(
            #[trigger] merkle::kept_diff(a->children, b->children, prefix, n)[i],
            a,
            b,
            path::path_names(prefix),
        ),
    decreases b->children, n,
{
    let base = path::path_names(prefix);
    let ac = a->children;
    let bc = b->children;
    let d = merkle::kept_diff(ac, bc, prefix, n);
    if n > 0 {
        lemma_kept_truthful(a, b, prefix, (n - 1) as nat);
        let before = merkle::kept_diff(ac, bc, prefix, (n - 1) as nat);
        let name = bc[n - 1].0;
        let child = bc[n - 1].1;
        let here = path::join_text(prefix, name);
        path::lemma_join_name(prefix, name);
        names::lemma_lookup_at(bc, n - 1);
        names::lemma_has_at_rank(ac, name);
        match names::lookup(ac, name) {
            Some(o) => {
                lemma_diff_truthful(o, child, here);
                let below = merkle::tree_diff(o, child, here);
                assert forall|i: int| 0 <= i < d.len() implies truthful(#[trigger] d[i], a, b, base) by {
                    if i < before.len() {
                        assert(d[i] == before[i]);
                    } else {
                        assert(d[i] == below[i - before.len()]);
                        lemma_truthful_lifts(d[i], a, b, base, name);
                    }
                }
            },
            None => {
                let added = Change::Added(here, child);
                let ns = base.push(name);
                assert(ns.take(base.len() as int) =~= base);
                let rel = ns.skip(base.len() as int);
                assert(rel =~= seq![name]);
                assert(merkle::find(child, rel.drop_first()) == Some(child));
                assert(merkle::find(b, rel) == Some(child));
                assert(truthful(added, a, b, base));
                assert forall|i: int| 0 <= i < d.len() implies truthful(#[trigger] d[i], a, b, base) by {
                    if i < before.len() {
                        assert(d[i] == before[i]);
                    }
                }
            },
        }
    }
}

proof fn lemma_gone_truthful(a: Tree, b: Tree, prefix: Seq<char>, n: nat)
    requires
        merkle::ordered(a),
        merkle::ordered(b),
        plain_names(a),
        a is Directory,
        b is Directory,
        n <= a->children.len(),
    ensures
        forall|i: int| 0 <= i < merkle::gone_diff(a->children, b->children, prefix, n).len() ==> truthful(
            #[trigger] merkle::gone_diff(a->children, b->children, prefix, n)[i],
            a,
            b,
            path::path_names(prefix),
        ),
    decreases n,
{
    let base = path::path_names(prefix);
    let ac = a->children;
    let bc = b->children;
    let d = merkle::gone_diff(ac, bc, prefix, n);
    if n > 0 {
        lemma_gone_truthful(a, b, prefix, (n - 1) as nat);
        let before = merkle::gone_diff(ac, bc, prefix, (n - 1) as nat);
        let name = ac[n - 1].0;
        let child = ac[n - 1].1;
        path::lemma_join_name(prefix, name);
        names::lemma_lookup_at(ac, n - 1);
        if !names::has_name(bc, name) {
            let ns = base.push(name);
            assert(ns.take(base.len() as int) =~= base);
            let rel = ns.skip(base.len() as int);
            assert(rel =~= seq![name]);
            assert(merkle::find(child, rel.drop_first()) == Some(child));
            assert(merkle::find(a, rel) == Some(child));
            assert forall|i: int| 0 <= i < d.len() implies truthful(#[trigger] d[i], a, b, base) by {
                if i < before.len() {
                    assert(d[i] == before[i]);
                }
            }
        }
    }
}

/// The change is about a node at or above the path with the given names.
pub open spec fn covers(c: Change, ns: Seq<Seq<char>>) -> bool {
    tree_laws::begins_with(ns, path::path_names(change_path(c)))
}

/// Some change that brings new content covers the names.
pub open spec fn brings(d: Seq<Change>, ns: Seq<Seq<char>>) -> bool {
    exists|i: int| 0 <= i < d.len() && covers(#[trigger] d[i], ns) && !(d[i] is Removed)
}

/// Some change that takes old content away covers the names.
pub open spec fn takes(d: Seq<Change>, ns: Seq<Seq<char>>) -> bool {
    exists|i: int| 0 <= i < d.len() && covers(#[trigger] d[i], ns) && !(d[i] is Added)
}

/// What is reported under the name at place `j` of the new directory.
pub open spec fn child_diff(
    ac: Seq<(Seq<char>, Tree)>,
    bc: Seq<(Seq<char>, Tree)>,
    prefix: Seq<char>,
    j: int,
) -> Seq<Change> {
    let here = path::join_text(prefix, bc[j].0);
    match names::lookup(ac, bc[j].0) {
        Some(o) => merkle::tree_diff(o, bc[j].1, here),
        None => seq![Change::Added(here, bc[j].1)],
    }
}

/// What the comparison of one shared child reports is in what the comparison of the directories
/// reports.
pub proof fn lemma_kept_holds_child(
    ac: Seq<(Seq<char>, Tree)>,
    bc: Seq<(Seq<char>, Tree)>,
    prefix: Seq<char>,
    n: nat,
    j: int,
) -> (at: int)
    requires
        0 <= j < n <= bc.len(),
    ensures
        0 <= at <= at + child_diff(ac, bc, prefix, j).len() <= merkle::kept_diff(ac, bc, prefix, n).len(),
        merkle::kept_diff(ac, bc, prefix, n).subrange(at, at + child_diff(ac, bc, prefix, j).len()) == child_diff(
            ac,
            bc,
            prefix,
            j,
        ),
    decreases n,
{
    let before = merkle::kept_diff(ac, bc, prefix, (n - 1) as nat);
    let all = merkle::kept_diff(ac, bc, prefix, n);
    let part = child_diff(ac, bc, prefix, j);
    assert(all == before + child_diff(ac, bc, prefix, n - 1));
    if j == n - 1 {
        assert(all.subrange(before.len() as int, (before.len() + part.len()) as int) =~= part);
        before.len() as int
    } else {
        let at = lemma_kept_holds_child(ac, bc, prefix, (n - 1) as nat, j);
        assert(all.subrange(at, at + part.len()) =~= before.subrange(at, at + part.len()));
        at
    }
}

/// A name that only the old directory has is in what is reported as removed.
pub proof fn lemma_gone_holds(
    ac: Seq<(Seq<char>, Tree)>,
    bc: Seq<(Seq<char>, Tree)>,
    prefix: Seq<char>,
    n: nat,
    j: int,
) -> (at: int)
    requires
        0 <= j < n <= ac.len(),
        !names::has_name(bc, ac[j].0),
    ensures
        0 <= at < merkle::gone_diff(ac, bc, prefix, n).len(),
        merkle::gone_diff(ac, bc, prefix, n)[at] == Change::Removed(path::join_text(prefix, ac[j].0), ac[j].1),
    decreases n,
{
    let before = merkle::gone_diff(ac, bc, prefix, (n - 1) as nat);
    if j == n - 1 {
        before.len() as int
    } else {
        lemma_gone_holds(ac, bc, prefix, (n - 1) as nat, j)
    }
}

/// What a part of the report brings or takes, the report brings or takes.
proof fn lemma_part_of_report(d: Seq<Change>, part: Seq<Change>, at: int, ns: Seq<Seq<char>>)
    requires
        0 <= at <= at + part.len() <= d.len(),
        d.subrange(at, at + part.len()) == part,
    ensures
        brings(part, ns) ==> brings(d, ns),
        takes(part, ns) ==> takes(d, ns),
{
    if brings(part, ns) {
        let i = choose|i: int| 0 <= i < part.len() && covers(#[trigger] part[i], ns) && !(part[i] is Removed);
        assert(d.subrange(at, at + part.len())[i] == d[at + i]);
    }
    if takes(part, ns) {
        let i = choose|i: int| 0 <= i < part.len() && covers(#[trigger] part[i], ns) && !(part[i] is Added);
        assert(d.subrange(at, at + part.len())[i] == d[at + i]);
    }
}

/// Of two directories that differ, what is reported under one name of the new one is in the report.
proof fn lemma_child_in_report(a: Tree, b: Tree, prefix: Seq<char>, j: int, ns: Seq<Seq<char>>)
    requires
        a is Directory,
        b is Directory,
        merkle::tree_hash(a) != merkle::tree_hash(b),
        0 <= j < b->children.len(),
    ensures
        brings(child_diff(a->children, b->children, prefix, j), ns) ==> brings(merkle::tree_diff(a, b, prefix), ns),
        takes(child_diff(a->children, b->children, prefix, j), ns) ==> takes(merkle::tree_diff(a, b, prefix), ns),
{
    let ac = a->children;
    let bc = b->children;
    let part = child_diff(ac, bc, prefix, j);
    let at = lemma_kept_holds_child(ac, bc, prefix, bc.len(), j);
    let kept = merkle::kept_diff(ac, bc, prefix, bc.len());
    let d = merkle::tree_diff(a, b, prefix);
    assert(d == kept + merkle::gone_diff(ac, bc, prefix, ac.len()));
    assert(d.subrange(at, at + part.len()) =~= kept.subrange(at, at + part.len()));
    lemma_part_of_report(d, part, at, ns);
}

/// A change at the start of the names covers them.
proof fn lemma_covers_below(c: Change, base: Seq<Seq<char>>, rel: Seq<Seq<char>>)
    requires
        path::path_names(change_path(c)) == base,
    ensures
        covers(c, base + rel),
{
    assert((base + rel).take(base.len() as int) =~= base);
}

/// No new file is missed: where the new tree has a file that the old tree does not have there, some
/// reported addition or modification covers it.
pub proof fn lemma_diff_misses_no_file(a: Tree, b: Tree, prefix: Seq<char>, rel: Seq<Seq<char>>)
    requires
        merkle::ordered(a),
        merkle::ordered(b),
        plain_names(a),
        plain_names(b),
        no_collision(a, b),
        merkle::find(b, rel) matches Some(f) && f is File && merkle::find(a, rel) != Some(f),
    ensures
        brings(merkle::tree_diff(a, b, prefix), path::path_names(prefix) + rel),
    decreases rel.len(),
{
    let base = path::path_names(prefix);
    let ns = base + rel;
    let d = merkle::tree_diff(a, b, prefix);
    assert(merkle::tree_hash(a) != merkle::tree_hash(b));
    if a is Directory && b is Directory {
        let ac = a->children;
        let bc = b->children;
        let name = rel[0];
        names::lemma_has_at_rank(bc, name);
        names::lemma_has_at_rank(ac, name);
        let j = names::rank(bc, name);
        assert(bc[j].0 == name);
        path::lemma_join_name(prefix, name);
        assert(base.push(name) + rel.drop_first() =~= ns);
        let here = path::join_text(prefix, name);
        let part = child_diff(ac, bc, prefix, j);
        lemma_child_in_report(a, b, prefix, j, ns);
        match names::lookup(ac, name) {
            Some(o) => {
                lemma_diff_misses_no_file(o, bc[j].1, here, rel.drop_first());
            },
            None => {
                lemma_covers_below(part[0], base.push(name), rel.drop_first());
            },
        }
        assert(brings(part, ns));
    } else {
        assert(d =~= seq![Change::Modified(prefix, a, b)]);
        lemma_covers_below(d[0], base, rel);
    }
}

/// No lost node is missed: where the old tree has a node and the new tree has none, some reported
/// removal or modification covers it.
pub proof fn lemma_diff_misses_no_loss(a: Tree, b: Tree, prefix: Seq<char>, rel: Seq<Seq<char>>)
    requires
        merkle::ordered(a),
        merkle::ordered(b),
        plain_names(a),
        plain_names(b),
        no_collision(a, b),
        merkle::find(a, rel) is Some,
        merkle::find(b, rel) is None,
    ensures
        takes(merkle::tree_diff(a, b, prefix), path::path_names(prefix) + rel),
    decreases rel.len(),
{
    let base = path::path_names(prefix);
    let ns = base + rel;
    let d = merkle::tree_diff(a, b, prefix);
    assert(merkle::tree_hash(a) != merkle::tree_hash(b));
    if a is Directory && b is Directory {
        let ac = a->children;
        let bc = b->children;
        let name = rel[0];
        names::lemma_has_at_rank(bc, name);
        names::lemma_has_at_rank(ac, name);
        path::lemma_join_name(prefix, name);
        assert(base.push(name) + rel.drop_first() =~= ns);
        let here = path::join_text(prefix, name);
        if names::has_name(bc, name) {
            let j = names::rank(bc, name);
            assert(bc[j].0 == name);
            lemma_child_in_report(a, b, prefix, j, ns);
            lemma_diff_misses_no_loss(names::lookup(ac, name)->0, bc[j].1, here, rel.drop_first());
        } else {
            let j = names::rank(ac, name);
            let kept = merkle::kept_diff(ac, bc, prefix, bc.len());
            let gone = merkle::gone_diff(ac, bc, prefix, ac.len());
            let at = lemma_gone_holds(ac, bc, prefix, ac.len(), j);
            assert(d == kept + gone);
            assert(d[kept.len() + at] == gone[at]);
            lemma_covers_below(d[kept.len() + at], base.push(name), rel.drop_first());
        }
    } else {
        assert(d =~= seq![Change::Modified(prefix, a, b)]);
        lemma_covers_below(d[0], base, rel);
    }
}

/// The names along the path that a change is about.
pub open spec fn change_names(c: Change) -> Seq<Seq<char>> {
    path::path_names(change_path(c))
}

/// Where a difference under the first names of the new directory comes from.
proof fn lemma_kept_from(
    ac: Seq<(Seq<char>, Tree)>,
    bc: Seq<(Seq<char>, Tree)>,
    prefix: Seq<char>,
    n: nat,
    i: int,
) -> (r: (int, int))
    requires
        n <= bc.len(),
        0 <= i < merkle::kept_diff(ac, bc, prefix, n).len(),
    ensures
        0 <= r.0 < n,
        0 <= r.1 < child_diff(ac, bc, prefix, r.0).len(),
        merkle::kept_diff(ac, bc, prefix, n)[i] == child_diff(ac, bc, prefix, r.0)[r.1],
    decreases n,
{
    let before = merkle::kept_diff(ac, bc, prefix, (n - 1) as nat);
    assert(merkle::kept_diff(ac, bc, prefix, n) == before + child_diff(ac, bc, prefix, n - 1));
    if i < before.len() {
        lemma_kept_from(ac, bc, prefix, (n - 1) as nat, i)
    } else {
        (n - 1, i - before.len())
    }
}

/// Where a removal among the first names of the old directory comes from.
proof fn lemma_gone_from(
    ac: Seq<(Seq<char>, Tree)>,
    bc: Seq<(Seq<char>, Tree)>,
    prefix: Seq<char>,
    n: nat,
    i: int,
) -> (j: int)
    requires
        n <= ac.len(),
        0 <= i < merkle::gone_diff(ac, bc, prefix, n).len(),
    ensures
        0 <= j < n,
        !names::has_name(bc, ac[j].0),
        merkle::gone_diff(ac, bc, prefix, n)[i] == Change::Removed(path::join_text(prefix, ac[j].0), ac[j].1),
    decreases n,
{
    let before = merkle::gone_diff(ac, bc, prefix, (n - 1) as nat);
    if i < before.len() {
        lemma_gone_from(ac, bc, prefix, (n - 1) as nat, i)
    } else {
        n - 1
    }
}

/// What is reported under a name of the new directory is about paths with that name.
pub proof fn lemma_child_names(a: Tree, b: Tree, prefix: Seq<char>, j: int, m: int)
    requires
        merkle::ordered(a),
        merkle::ordered(b),
        plain_names(a),
        plain_names(b),
        a is Directory,
        b is Directory,
        0 <= j < b->children.len(),
        0 <= m < child_diff(a->children, b->children, prefix, j).len(),
    ensures
        tree_laws::begins_with(
            change_names(child_diff(a->children, b->children, prefix, j)[m]),
            path::path_names(prefix).push(b->children[j].0),
        ),
{
    let ac = a->children;
    let bc = b->children;
    let name = bc[j].0;
    let here = path::join_text(prefix, name);
    path::lemma_join_name(prefix, name);
    names::lemma_has_at_rank(ac, name);
    match names::lookup(ac, name) {
        Some(o) => {
            lemma_diff_truthful(o, bc[j].1, here);
            assert(truthful(merkle::tree_diff(o, bc[j].1, here)[m], o, bc[j].1, path::path_names(here)));
        },
        None => {
            let ns = path::path_names(here);
            assert(ns.take(ns.len() as int) =~= ns);
        },
    }
}

/// A list of names that begins with another one and a name has that name behind the other.
pub proof fn lemma_name_behind(ns: Seq<Seq<char>>, base: Seq<Seq<char>>, name: Seq<char>)
    requires
        tree_laws::begins_with(ns, base.push(name)),
    ensures
        tree_laws::begins_with(ns, base),
        ns.len() > base.len(),
        ns[base.len() as int] == name,
{
    let more = base.push(name);
    assert(ns.take(more.len() as int)[base.len() as int] == name);
    assert(ns.take(base.len() as int) =~= ns.take(more.len() as int).take(base.len() as int));
    assert(more.take(base.len() as int) =~= base);
}

/// Lists of names that differ at one place part ways.
proof fn lemma_differ_apart(ns: Seq<Seq<char>>, ms: Seq<Seq<char>>, at: int)
    requires
        0 <= at < ns.len(),
        at < ms.len(),
        ns[at] != ms[at],
    ensures
        tree_laws::apart(ns, ms),
{
    if tree_laws::begins_with(ns, ms) {
        assert(ns.take(ms.len() as int)[at] == ms[at]);
    }
    if tree_laws::begins_with(ms, ns) {
        assert(ms.take(ns.len() as int)[at] == ns[at]);
    }
}

/// Different places of a directory have different names.
pub proof fn lemma_names_differ(children: Seq<(Seq<char>, Tree)>, i: int, j: int)
    requires
        names::in_order(children),
        0 <= i < children.len(),
        0 <= j < children.len(),
        i != j,
    ensures
        children[i].0 != children[j].0,
{
    text::lemma_lex_irreflexive(children[i].0);
    if i < j {
        assert(text::lex_lt(children[i].0, children[j].0));
    } else {
        assert(text::lex_lt(children[j].0, children[i].0));
    }
}

/// No two differences are about the same path, and none is about a path below that of another.
pub proof fn lemma_differences_are_apart(a: Tree, b: Tree, prefix: Seq<char>, i: int, j: int)
    requires
        merkle::ordered(a),
        merkle::ordered(b),
        plain_names(a),
        plain_names(b),
        0 <= i < j < merkle::tree_diff(a, b, prefix).len(),
    ensures
        tree_laws::apart(
            change_names(merkle::tree_diff(a, b, prefix)[i]),
            change_names(merkle::tree_diff(a, b, prefix)[j]),
        ),
    decreases b, 0nat,
{
    let ac = a->children;
    let bc = b->children;
    let base = path::path_names(prefix);
    let at = base.len() as int;
    let d = merkle::tree_diff(a, b, prefix);
    let kept = merkle::kept_diff(ac, bc, prefix, bc.len());
    let gone = merkle::gone_diff(ac, bc, prefix, ac.len());
    assert(d == kept + gone);
    if j < kept.len() {
        lemma_kept_apart(a, b, prefix, bc.len(), i, j);
    } else {
        let y = lemma_gone_from(ac, bc, prefix, ac.len(), j - kept.len());
        path::lemma_join_name(prefix, ac[y].0);
        assert(change_names(d[j]) == base.push(ac[y].0));
        if i < kept.len() {
            let (x, m) = lemma_kept_from(ac, bc, prefix, bc.len(), i);
            lemma_child_names(a, b, prefix, x, m);
            lemma_name_behind(change_names(d[i]), base, bc[x].0);
            assert(names::has_name(bc, bc[x].0));
            lemma_differ_apart(change_names(d[i]), change_names(d[j]), at);
        } else {
            lemma_gone_apart(a, b, prefix, ac.len(), i - kept.len(), j - kept.len());
        }
    }
}

proof fn lemma_gone_apart(a: Tree, b: Tree, prefix: Seq<char>, n: nat, i: int, j: int)
    requires
        merkle::ordered(a),
        plain_names(a),
        a is Directory,
        b is Directory,
        n <= a->children.len(),
        0 <= i < j < merkle::gone_diff(a->children, b->children, prefix, n).len(),
    ensures
        tree_laws::apart(
            change_names(merkle::gone_diff(a->children, b->children, prefix, n)[i]),
            change_names(merkle::gone_diff(a->children, b->children, prefix, n)[j]),
        ),
    decreases n,
{
    let ac = a->children;
    let bc = b->children;
    let base = path::path_names(prefix);
    let before = merkle::gone_diff(ac, bc, prefix, (n - 1) as nat);
    if j < before.len() {
        lemma_gone_apart(a, b, prefix, (n - 1) as nat, i, j);
    } else {
        let x = lemma_gone_from(ac, bc, prefix, (n - 1) as nat, i);
        path::lemma_join_name(prefix, ac[x].0);
        path::lemma_join_name(prefix, ac[n - 1].0);
        lemma_names_differ(ac, x, n - 1);
        lemma_differ_apart(base.push(ac[x].0), base.push(ac[n - 1].0), base.len() as int);
    }
}

proof fn lemma_kept_apart(a: Tree, b: Tree, prefix: Seq<char>, n: nat, i: int, j: int)
    requires
        merkle::ordered(a),
        merkle::ordered(b),
        plain_names(a),
        plain_names(b),
        a is Directory,
        b is Directory,
        n <= b->children.len(),
        0 <= i < j < merkle::kept_diff(a->children, b->children, prefix, n).len(),
    ensures
        tree_laws::apart(
            change_names(merkle::kept_diff(a->children, b->children, prefix, n)[i]),
            change_names(merkle::kept_diff(a->children, b->children, prefix, n)[j]),
        ),
    decreases b->children, n,
{
    let ac = a->children;
    let bc = b->children;
    let base = path::path_names(prefix);
    let all = merkle::kept_diff(ac, bc, prefix, n);
    let before = merkle::kept_diff(ac, bc, prefix, (n - 1) as nat);
    let part = child_diff(ac, bc, prefix, n - 1);
    assert(all == before + part);
    if j < before.len() {
        lemma_kept_apart(a, b, prefix, (n - 1) as nat, i, j);
    } else if i < before.len() {
        let (x, m) = lemma_kept_from(ac, bc, prefix, (n - 1) as nat, i);
        lemma_child_names(a, b, prefix, x, m);
        lemma_name_behind(change_names(all[i]), base, bc[x].0);
        lemma_child_names(a, b, prefix, n - 1, j - before.len());
        lemma_name_behind(change_names(all[j]), base, bc[n - 1].0);
        lemma_names_differ(bc, x, n - 1);
        lemma_differ_apart(change_names(all[i]), change_names(all[j]), base.len() as int);
    } else {
        let name = bc[n - 1].0;
        names::lemma_has_at_rank(ac, name);
        let o = names::lookup(ac, name)->0;
        let here = path::join_text(prefix, name);
        lemma_differences_are_apart(o, bc[n - 1].1, here, i - before.len(), j - before.len());
    }
}

/// The change seen from the other side.
pub open spec fn swapped(c: Change) -> Change {
    match c {
        Change::Added(p, t) => Change::Removed(p, t),
        Change::Removed(p, t) => Change::Added(p, t),
        Change::Modified(p, o, n) => Change::Modified(p, n, o),
    }
}

/// What the comparison reports, it reports swapped with the trees swapped.
proof fn lemma_swap_holds(a: Tree, b: Tree, prefix: Seq<char>, c: Change)
    requires
        merkle::ordered(a),
        merkle::ordered(b),
        merkle::tree_diff(a, b, prefix).contains(c),
    ensures
        merkle::tree_diff(b, a, prefix).contains(swapped(c)),
    decreases b,
{
    let d = merkle::tree_diff(a, b, prefix);
    let e = merkle::tree_diff(b, a, prefix);
    let i = choose|i: int| 0 <= i < d.len() && d[i] == c;
    if a is Directory && b is Directory {
        let ac = a->children;
        let bc = b->children;
        let kept = merkle::kept_diff(ac, bc, prefix, bc.len());
        let gone = merkle::gone_diff(ac, bc, prefix, ac.len());
        let kept2 = merkle::kept_diff(bc, ac, prefix, ac.len());
        let gone2 = merkle::gone_diff(bc, ac, prefix, bc.len());
        assert(d == kept + gone);
        assert(e == kept2 + gone2);
        if i < kept.len() {
            let (j, m) = lemma_kept_from(ac, bc, prefix, bc.len(), i);
            let name = bc[j].0;
            names::lemma_has_at_rank(ac, name);
            names::lemma_lookup_at(bc, j);
            match names::lookup(ac, name) {
                Some(o) => {
                    let r = names::rank(ac, name);
                    let here = path::join_text(prefix, name);
                    assert(ac[r] == (name, o));
                    assert(merkle::tree_diff(o, bc[j].1, here)[m] == c);
                    lemma_swap_holds(o, bc[j].1, here, c);
                    let part = child_diff(bc, ac, prefix, r);
                    assert(part == merkle::tree_diff(bc[j].1, o, here));
                    let at = lemma_kept_holds_child(bc, ac, prefix, ac.len(), r);
                    let x = choose|x: int| 0 <= x < part.len() && part[x] == swapped(c);
                    assert(kept2.subrange(at, at + part.len())[x] == kept2[at + x]);
                    assert(e[at + x] == swapped(c));
                },
                None => {
                    let at = lemma_gone_holds(bc, ac, prefix, bc.len(), j);
                    assert(e[kept2.len() + at] == gone2[at]);
                },
            }
        } else {
            let j = lemma_gone_from(ac, bc, prefix, ac.len(), i - kept.len());
            names::lemma_has_at_rank(bc, ac[j].0);
            let part = child_diff(bc, ac, prefix, j);
            assert(part =~= seq![swapped(c)]);
            let at = lemma_kept_holds_child(bc, ac, prefix, ac.len(), j);
            assert(kept2.subrange(at, at + part.len())[0] == kept2[at]);
            assert(e[at] == swapped(c));
        }
    } else {
        assert(e =~= seq![swapped(c)]);
        assert(e[0] == swapped(c));
    }
}

/// Swapping the trees swaps the differences: what was added is removed, what was removed is added, and what
/// was modified is modified the other way.
pub proof fn lemma_swapping_swaps_differences(a: Tree, b: Tree, prefix: Seq<char>, c: Change)
    requires
        merkle::ordered(a),
        merkle::ordered(b),
    ensures
        merkle::tree_diff(a, b, prefix).contains(c) <==> merkle::tree_diff(b, a, prefix).contains(swapped(c)),
{
    if merkle::tree_diff(a, b, prefix).contains(c) {
        lemma_swap_holds(a, b, prefix, c);
    }
    if merkle::tree_diff(b, a, prefix).contains(swapped(c)) {
        lemma_swap_holds(b, a, prefix, swapped(c));
        assert(swapped(swapped(c)) == c);
    }
}

/// The differences of two directories go name by name: first what is reported under each name of the new one,
/// in their order.
pub proof fn lemma_differences_go_name_by_name(
    ac: Seq<(Seq<char>, Tree)>,
    bc: Seq<(Seq<char>, Tree)>,
    prefix: Seq<char>,
    n: nat,
)
    requires
        n <= bc.len(),
    ensures
        merkle::kept_diff(ac, bc, prefix, n) == Seq::new(n, |j: int| child_diff(ac, bc, prefix, j)).flatten(),
    decreases n,
{
    let parts = Seq::new(n, |j: int| child_diff(ac, bc, prefix, j));
    if n > 0 {
        lemma_differences_go_name_by_name(ac, bc, prefix, (n - 1) as nat);
        let before = Seq::new((n - 1) as nat, |j: int| child_diff(ac, bc, prefix, j));
        assert(parts =~= before.push(child_diff(ac, bc, prefix, n - 1)));
        before.lemma_flatten_push(child_diff(ac, bc, prefix, n - 1));
    }
}

/// Then come the names that only the old directory has, in their order.
pub proof fn lemma_what_is_gone_goes_name_by_name(
    ac: Seq<(Seq<char>, Tree)>,
    bc: Seq<(Seq<char>, Tree)>,
    prefix: Seq<char>,
    n: nat,
)
    requires
        n < ac.len(),
    ensures
        merkle::gone_diff(ac, bc, prefix, 0) == Seq::<Change>::empty(),
        merkle::gone_diff(ac, bc, prefix, (n + 1) as nat) == merkle::gone_diff(ac, bc, prefix, n) + if exists|i: int|
            0 <= i < bc.len() && (#[trigger] bc[i]).0 == ac[n as int].0 {
            Seq::<Change>::empty()
        } else {
            seq![Change::Removed(path::join_text(prefix, ac[n as int].0), ac[n as int].1)]
        },
{
    let before = merkle::gone_diff(ac, bc, prefix, n);
    assert(before + Seq::<Change>::empty() =~= before);
    assert(names::has_name(bc, ac[n as int].0) <==> exists|i: int|
        0 <= i < bc.len() && (#[trigger] bc[i]).0 == ac[n as int].0);
}

/// Two trees with different hashes are compared by their children where both are directories, and are one
/// difference else.
pub proof fn lemma_trees_are_compared_by_their_children(a: Tree, b: Tree, prefix: Seq<char>)
    requires
        merkle::tree_hash(a) != merkle::tree_hash(b),
    ensures
        a is Directory && b is Directory ==> merkle::tree_diff(a, b, prefix) == merkle::kept_diff(
            a->children,
            b->children,
            prefix,
            b->children.len(),
        ) + merkle::gone_diff(a->children, b->children, prefix, a->children.len()),
        a is File || b is File ==> merkle::tree_diff(a, b, prefix) == seq![Change::Modified(prefix, a, b)],
{
}

} // verus!
