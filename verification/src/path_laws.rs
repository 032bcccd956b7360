//! What paths stand for: each slash, dot and name in turn.

use vstd::prelude::*;

use crate::path;
use crate::path::Part;
use crate::sync_engine;

verus! {

broadcast use vstd::seq::group_seq_axioms;

/// What one more segment adds to a path: nothing where it is empty or a dot, a step up where it is two dots,
/// else a name.
pub open spec fn step(seg: Seq<char>) -> Seq<Part> {
    if seg.len() == 0 || seg == seq!['.'] {
        Seq::empty()
    } else if seg == seq!['.', '.'] {
        seq![Part::Parent]
    } else {
        seq![Part::Normal(seg)]
    }
}

proof fn lemma_one_segment(seg: Seq<char>)
    requires
        !seg.contains('/'),
    ensures
        path::segments(seg) == seq![seg],
        path::segment_parts(seq![seg]) == step(seg),
    decreases seg.len(),
{
    assert(seq![seg].drop_last() =~= Seq::<Seq<char>>::empty());
    assert(path::segment_parts(seq![seg].drop_last()) =~= Seq::<Part>::empty());
    assert(path::segment_parts(seq![seg]) =~= step(seg));
    if seg.len() > 0 {
        let rest = seg.drop_last();
        assert(seg[seg.len() - 1] == seg.last());
        assert(!rest.contains('/')) by {
            if rest.contains('/') {
                let i = choose|i: int| 0 <= i < rest.len() && rest[i] == '/';
                assert(seg[i] == '/');
            }
        }
        lemma_one_segment(rest);
        assert(rest.push(seg.last()) =~= seg);
        assert(path::segments(seg) =~= seq![seg]);
    } else {
        assert(seg =~= Seq::<char>::empty());
    }
}

/// A path without a slash is one step; a single dot stands for the place itself.
pub proof fn lemma_a_path_of_one_segment(seg: Seq<char>)
    requires
        !seg.contains('/'),
    ensures
        path::parts(seg) == if seg == seq!['.'] {
            seq![Part::Current]
        } else {
            step(seg)
        },
{
    lemma_one_segment(seg);
    if seg.len() > 0 && seg[0] == '/' {
        assert(seg.contains(seg[0]));
    }
    assert(path::parts(seg) =~= if seg == seq!['.'] {
        seq![Part::Current]
    } else {
        step(seg)
    });
}

/// A slash and one more segment add one step, whatever stands before them.
pub proof fn lemma_a_path_of_one_segment_more(a: Seq<char>, seg: Seq<char>)
    requires
        a.len() > 0,
        !seg.contains('/'),
    ensures
        path::parts(a + seq!['/'] + seg) == path::parts(a) + step(seg),
{
    let whole = a.push('/') + seg;
    assert(a + seq!['/'] + seg =~= whole);
    path::lemma_segments_concat(a, seg);
    path::lemma_segments_nonempty(a);
    lemma_one_segment(seg);
    path::lemma_segment_parts_concat(path::segments(a), seq![seg]);
    assert(path::segments(whole)[0] == path::segments(a)[0]);
    assert(whole[0] == a[0]);
    assert(path::parts(whole) =~= path::parts(a) + step(seg));
}

/// A path that begins with a slash begins at the root.
pub proof fn lemma_a_path_from_the_root(seg: Seq<char>)
    requires
        !seg.contains('/'),
    ensures
        path::parts(seq!['/'] + seg) == seq![Part::Root] + step(seg),
{
    let e = Seq::<char>::empty();
    let whole = e.push('/') + seg;
    assert(seq!['/'] + seg =~= whole);
    path::lemma_segments_concat(e, seg);
    lemma_one_segment(seg);
    lemma_one_segment(e);
    path::lemma_segment_parts_concat(path::segments(e), seq![seg]);
    assert(whole[0] == '/');
    assert(path::parts(whole) =~= seq![Part::Root] + step(seg));
}

/// Two paths are put together with one slash between them; one that begins at the root stands for itself.
pub proof fn lemma_paths_are_put_together(base: Seq<char>, rel: Seq<char>)
    ensures
        rel.len() > 0 && rel[0] == '/' ==> path::join_text(base, rel) == rel,
        (rel.len() == 0 || rel[0] != '/') && base.len() > 0 && base.last() != '/' ==> path::join_text(base, rel) == base
            + seq!['/'] + rel,
        (rel.len() == 0 || rel[0] != '/') && (base.len() == 0 || base.last() == '/') ==> path::join_text(base, rel)
            == base + rel,
{
    assert(base.push('/') =~= base + seq!['/']);
}

/// The names along a path are its names, in their order; other components leave none.
pub proof fn lemma_the_names_along_a_path(ps: Seq<Part>, p: Part)
    ensures
        path::names_in(Seq::empty()) == Seq::<Seq<char>>::empty(),
        path::names_in(ps.push(p)) == match p {
            Part::Normal(name) => path::names_in(ps).push(name),
            _ => path::names_in(ps),
        },
{
    assert(ps.push(p).drop_last() =~= ps);
}

/// A path begins with another where it has all of its components, at the same places.
pub proof fn lemma_a_path_begins_with_another(ps: Seq<Part>, base: Seq<Part>)
    ensures
        path::starts_with(ps, base) <==> base.len() <= ps.len() && forall|i: int|
            0 <= i < base.len() ==> #[trigger] ps[i] == base[i],
{
    if path::starts_with(ps, base) {
        assert forall|i: int| 0 <= i < base.len() implies #[trigger] ps[i] == base[i] by {
            assert(ps.take(base.len() as int)[i] == ps[i]);
        }
    } else if base.len() <= ps.len() && forall|i: int| 0 <= i < base.len() ==> #[trigger] ps[i] == base[i] {
        assert(ps.take(base.len() as int) =~= base);
    }
}

/// A path of one segment may be used below a root unless it is one dot or two.
pub proof fn lemma_a_safe_segment(seg: Seq<char>)
    requires
        !seg.contains('/'),
    ensures
        sync_engine::is_safe(seg) <==> seg != seq!['.'] && seg != seq!['.', '.'],
{
    lemma_a_path_of_one_segment(seg);
    if seg.len() > 0 && seg[0] == '/' {
        assert(seg.contains(seg[0]));
    }
    if seg == seq!['.'] || seg == seq!['.', '.'] {
        assert(!(path::parts(seg)[0] is Normal));
    } else {
        assert forall|i: int| 0 <= i < path::parts(seg).len() implies #[trigger] path::parts(seg)[i] is Normal by {}
    }
}

/// A path may be used below a root exactly where what stands before its last slash may be, and the last
/// segment is no step up.
pub proof fn lemma_a_safe_path_of_one_segment_more(a: Seq<char>, seg: Seq<char>)
    requires
        a.len() > 0,
        !seg.contains('/'),
    ensures
        sync_engine::is_safe(a + seq!['/'] + seg) <==> sync_engine::is_safe(a) && seg != seq!['.', '.'],
{
    lemma_a_path_of_one_segment_more(a, seg);
    let whole = a + seq!['/'] + seg;
    let ps = path::parts(a);
    let qs = path::parts(whole);
    assert(whole[0] == a[0]);
    assert forall|i: int| 0 <= i < ps.len() implies #[trigger] ps[i] == qs[i] by {}
    if path::only_names(qs) {
        assert forall|i: int| 0 <= i < ps.len() implies #[trigger] ps[i] is Normal by {
            assert(qs[i] is Normal);
        }
        if seg == seq!['.', '.'] {
            assert(qs[ps.len() as int] == Part::Parent);
        }
    }
    if path::only_names(ps) && seg != seq!['.', '.'] {
        assert forall|i: int| 0 <= i < qs.len() implies #[trigger] qs[i] is Normal by {
            if i < ps.len() {
                assert(ps[i] is Normal);
            }
        }
    }
}

/// A path that begins at the root may never be used below another one.
pub proof fn lemma_an_absolute_path_is_not_safe(rest: Seq<char>)
    ensures
        !sync_engine::is_safe(seq!['/'] + rest),
{
    assert((seq!['/'] + rest)[0] == '/');
}

/// Putting names below a folder leads to those names below it: what is found there has the components of the
/// folder, then the names.
pub proof fn lemma_a_name_below_a_folder(root: Seq<char>, name: Seq<char>)
    requires
        name.len() > 0,
        name != seq!['.'],
        name != seq!['.', '.'],
        !name.contains('/'),
    ensures
        path::parts(path::join_text(root, name)) == path::parts(root).push(Part::Normal(name)),
        path::path_names(path::join_text(root, name)) == path::path_names(root).push(name),
        path::relative_parts(path::join_text(root, name), root) == seq![Part::Normal(name)],
{
    path::lemma_join_name(root, name);
    let all = path::parts(path::join_text(root, name));
    let n = path::parts(root).len() as int;
    assert(all.take(n) =~= path::parts(root));
    assert(all.skip(n) =~= seq![Part::Normal(name)]);
}

/// The shortest form of a path is a form of the same path, and it is its own shortest form.
pub proof fn lemma_the_shortest_form(s: Seq<char>)
    ensures
        path::parts(path::clean_text(s)) == path::parts(s),
        path::clean_text(path::clean_text(s)) == path::clean_text(s),
{
    path::lemma_clean_keeps_parts(s);
}

/// The shortest form of names is the names with a slash between each two.
pub proof fn lemma_the_shortest_form_of_names(a: Seq<char>, name: Seq<char>)
    requires
        name.len() > 0,
        name != seq!['.'],
        name != seq!['.', '.'],
        !name.contains('/'),
    ensures
        path::clean_text(name) == name,
        sync_engine::is_safe(a) && path::parts(a).len() > 0 ==> path::clean_text(a + seq!['/'] + name)
            == path::clean_text(a) + seq!['/'] + name,
{
    lemma_a_path_of_one_segment(name);
    let one = seq![Part::Normal(name)];
    let f = |p: Part| path::part_text(p);
    assert(path::parts(name) =~= one);
    assert(one.map_values(f) =~= seq![name]);
    assert(one[0] != Part::Root);
    assert(path::clean_text(name) =~= name);
    if sync_engine::is_safe(a) && path::parts(a).len() > 0 {
        let ps = path::parts(a);
        if a.len() == 0 {
            assert(!a.contains('/'));
            lemma_a_path_of_one_segment(a);
        }
        lemma_a_path_of_one_segment_more(a, name);
        let qs = ps + one;
        assert(ps[0] is Normal);
        assert(qs[0] == ps[0]);
        let ts = qs.map_values(f);
        assert(ts.drop_last() =~= ps.map_values(f));
        assert(ts.last() == name);
        assert(ps != seq![Part::Root]) by {
            if ps == seq![Part::Root] {
                assert(ps[0] == Part::Root);
            }
        }
        assert(path::clean_text(a).push('/') =~= path::clean_text(a) + seq!['/']);
    }
}

/// Below a root, the components that matter are those behind the root; elsewhere all of them.
pub proof fn lemma_the_components_that_matter(p: Seq<char>, root: Seq<char>)
    ensures
        path::starts_with(path::parts(p), path::parts(root)) ==> path::parts(root) + path::relative_parts(p, root)
            == path::parts(p),
        !path::starts_with(path::parts(p), path::parts(root)) ==> path::relative_parts(p, root) == path::parts(p),
{
    let ps = path::parts(p);
    let base = path::parts(root);
    if path::starts_with(ps, base) {
        assert(base + ps.skip(base.len() as int) =~= ps) by {
            assert(ps.take(base.len() as int) + ps.skip(base.len() as int) =~= ps);
        }
    }
}

} // verus!
