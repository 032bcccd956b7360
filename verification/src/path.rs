//! Slash-separated paths, read component by component.
//!
//! Empty segments and `.` segments carry no meaning, but for a leading `.`; `..` is kept as it is,
//! since what it leads to is not known from the text.

use vstd::prelude::*;

use crate::text;

verus! {

broadcast use {vstd::string::group_string_axioms, vstd::seq::group_seq_axioms};

/// A component of a path, as a value of specifications.
pub enum Part {
    Root,
    Current,
    Parent,
    Normal(Seq<char>),
}

/// A component of a path.
#[derive(Debug, PartialEq, Eq)]
pub enum Component {
    /// The leading slash.
    Root,
    /// A leading `.`.
    Current,
    /// A `..`.
    Parent,
    /// A name.
    Normal(String),
}

impl View for Component {
    type V = Part;

    open spec fn view(&self) -> Part {
        match self {
            Component::Root => Part::Root,
            Component::Current => Part::Current,
            Component::Parent => Part::Parent,
            Component::Normal(name) => Part::Normal(name@),
        }
    }
}

/// The pieces of `s` between slashes.
pub open spec fn segments(s: Seq<char>) -> Seq<Seq<char>>
    decreases s.len(),
{
    if s.len() == 0 {
        seq![Seq::<char>::empty()]
    } else {
        let before = segments(s.drop_last());
        if s.last() == '/' {
            before.push(Seq::<char>::empty())
        } else {
            before.drop_last().push(before.last().push(s.last()))
        }
    }
}

/// What a segment contributes.
pub open spec fn segment_part(seg: Seq<char>) -> Option<Part> {
    if seg.len() == 0 || seg == seq!['.'] {
        None
    } else if seg == seq!['.', '.'] {
        Some(Part::Parent)
    } else {
        Some(Part::Normal(seg))
    }
}

/// What the segments contribute, in their order.
pub open spec fn segment_parts(segs: Seq<Seq<char>>) -> Seq<Part>
    decreases segs.len(),
{
    if segs.len() == 0 {
        Seq::empty()
    } else {
        match segment_part(segs.last()) {
            Some(part) => segment_parts(segs.drop_last()).push(part),
            None => segment_parts(segs.drop_last()),
        }
    }
}

/// Whether the path starts at the root.
pub open spec fn absolute(s: Seq<char>) -> bool {
    s.len() > 0 && s[0] == '/'
}

/// The part that only the beginning of a path can have.
pub open spec fn leading_part(s: Seq<char>) -> Seq<Part> {
    if absolute(s) {
        seq![Part::Root]
    } else if segments(s)[0] == seq!['.'] {
        seq![Part::Current]
    } else {
        Seq::empty()
    }
}

/// The components of a path.
pub open spec fn parts(s: Seq<char>) -> Seq<Part> {
    leading_part(s) + segment_parts(segments(s))
}

/// The names among the components.
pub open spec fn names_in(ps: Seq<Part>) -> Seq<Seq<char>>
    decreases ps.len(),
{
    if ps.len() == 0 {
        Seq::empty()
    } else {
        match ps.last() {
            Part::Normal(name) => names_in(ps.drop_last()).push(name),
            _ => names_in(ps.drop_last()),
        }
    }
}

/// The names along a path.
pub open spec fn path_names(s: Seq<char>) -> Seq<Seq<char>> {
    names_in(parts(s))
}

/// Whether every component is a name.
pub open spec fn only_names(ps: Seq<Part>) -> bool {
    forall|i: int| 0 <= i < ps.len() ==> #[trigger] ps[i] is Normal
}

/// `rel` read from `base`: an absolute `rel` stands for itself.
pub open spec fn join_text(base: Seq<char>, rel: Seq<char>) -> Seq<char> {
    if absolute(rel) {
        rel
    } else if base.len() == 0 || base.last() == '/' {
        base + rel
    } else {
        base.push('/') + rel
    }
}

/// Whether `base` is a prefix of `ps`, component by component.
pub open spec fn starts_with(ps: Seq<Part>, base: Seq<Part>) -> bool {
    base.len() <= ps.len() && ps.take(base.len() as int) == base
}

/// The components of a path once the root is taken off; a path elsewhere keeps all of them.
pub open spec fn relative_parts(path: Seq<char>, root: Seq<char>) -> Seq<Part> {
    if starts_with(parts(path), parts(root)) {
        parts(path).skip(parts(root).len() as int)
    } else {
        parts(path)
    }
}

/// A path has at least one segment.
pub proof fn lemma_segments_nonempty(s: Seq<char>)
    ensures
        segments(s).len() > 0,
    decreases s.len(),
{
    if s.len() > 0 {
        lemma_segments_nonempty(s.drop_last());
    }
}

/// The views of a sequence of components.
pub open spec fn views(v: Seq<Component>) -> Seq<Part> {
    v.map_values(|c: Component| c@)
}

/// Cuts a path at its slashes.
fn split_path(path: &str) -> (segs: Vec<String>)
    ensures
        text::texts(segs@) == segments(path@),
        segs@.len() > 0,
{
    let cs = text::chars_of(path);
    let mut segs: Vec<String> = Vec::new();
    let mut cur = String::new();
    let mut i: usize = 0;
    assert(cs@.take(0) =~= Seq::<char>::empty());
    assert(text::texts(segs@).push(cur@) =~= segments(cs@.take(0)));
    while i < cs.len()
        invariant
            0 <= i <= cs@.len(),
            text::texts(segs@).push(cur@) == segments(cs@.take(i as int)),
        decreases cs@.len() - i,
    {
        let c = cs[i];
        let ghost upto = cs@.take(i + 1);
        assert(upto.drop_last() =~= cs@.take(i as int));
        assert(upto.last() == c);
        if c == '/' {
            let ghost before = text::texts(segs@).push(cur@);
            segs.push(cur);
            cur = String::new();
            assert(text::texts(segs@).push(cur@) =~= before.push(Seq::<char>::empty()));
        } else {
            let ghost before = text::texts(segs@).push(cur@);
            cur.push(c);
            assert(before.drop_last() =~= text::texts(segs@));
            assert(text::texts(segs@).push(cur@) =~= segments(upto));
        }
        i = i + 1;
    }
    assert(cs@.take(cs@.len() as int) =~= cs@);
    let ghost all = text::texts(segs@).push(cur@);
    segs.push(cur);
    assert(text::texts(segs@) =~= all);
    segs
}

/// Whether the path starts at the root.
pub fn is_absolute(path: &str) -> (r: bool)
    ensures
        r == absolute(path@),
{
    if path.is_empty() {
        false
    } else {
        path.get_char(0) == '/'
    }
}

/// The components of a path.
pub fn components(path: &str) -> (v: Vec<Component>)
    ensures
        views(v@) == parts(path@),
{
    let segs = split_path(path);
    let mut v: Vec<Component> = Vec::new();
    proof {
        reveal_strlit(".");
        reveal_strlit("..");
        assert("."@ =~= seq!['.']);
        assert(".."@ =~= seq!['.', '.']);
    }
    if is_absolute(path) {
        v.push(Component::Root);
    } else if text::same_text(segs[0].as_str(), ".") {
        assert(text::texts(segs@)[0] == segs@[0]@);
        v.push(Component::Current);
    }
    assert(text::texts(segs@)[0] == segs@[0]@);
    assert(views(v@) =~= leading_part(path@));
    let ghost lead = leading_part(path@);
    let mut i: usize = 0;
    assert(views(v@) =~= lead + segment_parts(text::texts(segs@).take(0)));
    while i < segs.len()
        invariant
            0 <= i <= segs@.len(),
            views(v@) == lead + segment_parts(text::texts(segs@).take(i as int)),
            "."@ == seq!['.'],
            ".."@ == seq!['.', '.'],
        decreases segs@.len() - i,
    {
        let ghost upto = text::texts(segs@).take(i + 1);
        let ghost before = views(v@);
        assert(upto.drop_last() =~= text::texts(segs@).take(i as int));
        assert(upto.last() == segs@[i as int]@);
        let seg = segs[i].as_str();
        if seg.is_empty() || text::same_text(seg, ".") {
            assert(segment_part(seg@) is None);
        } else if text::same_text(seg, "..") {
            v.push(Component::Parent);
            assert(views(v@) =~= before.push(Part::Parent));
            assert(views(v@) =~= lead + segment_parts(upto));
        } else {
            v.push(Component::Normal(segs[i].clone()));
            assert(views(v@) =~= before.push(Part::Normal(seg@)));
            assert(views(v@) =~= lead + segment_parts(upto));
        }
        i = i + 1;
    }
    assert(text::texts(segs@).take(segs@.len() as int) =~= text::texts(segs@));
    v
}

/// The names along a path.
pub fn names(path: &str) -> (v: Vec<String>)
    ensures
        text::texts(v@) == path_names(path@),
{
    let cs = components(path);
    let mut v: Vec<String> = Vec::new();
    let mut i: usize = 0;
    assert(text::texts(v@) =~= names_in(views(cs@).take(0)));
    while i < cs.len()
        invariant
            0 <= i <= cs@.len(),
            text::texts(v@) == names_in(views(cs@).take(i as int)),
        decreases cs@.len() - i,
    {
        let ghost upto = views(cs@).take(i + 1);
        let ghost before = text::texts(v@);
        assert(upto.drop_last() =~= views(cs@).take(i as int));
        assert(upto.last() == cs@[i as int]@);
        if let Component::Normal(name) = &cs[i] {
            v.push(name.clone());
            assert(text::texts(v@) =~= before.push(name@));
        }
        i = i + 1;
    }
    assert(views(cs@).take(cs@.len() as int) =~= views(cs@));
    v
}

/// `rel` read from `base`.
pub fn join(base: &str, rel: &str) -> (r: String)
    ensures
        r@ == join_text(base@, rel@),
{
    if is_absolute(rel) {
        return rel.to_owned();
    }
    let mut r = base.to_owned();
    let n: usize = base.unicode_len();
    if n > 0 {
        if base.get_char(n - 1) != '/' {
            r.push('/');
        }
    }
    r.append(rel);
    r
}

/// Whether the two components are the same.
fn same_component(a: &Component, b: &Component) -> (r: bool)
    ensures
        r == (a@ == b@),
{
    match (a, b) {
        (Component::Root, Component::Root) => true,
        (Component::Current, Component::Current) => true,
        (Component::Parent, Component::Parent) => true,
        (Component::Normal(x), Component::Normal(y)) => text::same_text(x.as_str(), y.as_str()),
        _ => false,
    }
}

/// Whether `base` is a prefix of `cs`, component by component.
fn has_prefix(cs: &Vec<Component>, base: &Vec<Component>) -> (r: bool)
    ensures
        r == starts_with(views(cs@), views(base@)),
{
    if base.len() > cs.len() {
        return false;
    }
    let mut i: usize = 0;
    while i < base.len()
        invariant
            0 <= i <= base@.len() <= cs@.len(),
            forall|j: int| 0 <= j < i ==> views(cs@)[j] == views(base@)[j],
        decreases base@.len() - i,
    {
        if !same_component(&cs[i], &base[i]) {
            assert(views(cs@).take(base@.len() as int)[i as int] == cs@[i as int]@);
            assert(views(base@)[i as int] == base@[i as int]@);
            return false;
        }
        i = i + 1;
    }
    assert(views(cs@).take(base@.len() as int) =~= views(base@));
    true
}

/// The components of `path` once `root` is taken off; a path elsewhere keeps all of them.
pub fn relative_components(path: &str, root: &str) -> (v: Vec<Component>)
    ensures
        views(v@) == relative_parts(path@, root@),
{
    let mut cs = components(path);
    let base = components(root);
    if has_prefix(&cs, &base) {
        let ghost all = cs@;
        let v = cs.split_off(base.len());
        assert(views(v@) =~= views(all).skip(base@.len() as int));
        v
    } else {
        cs
    }
}

/// The components of `path` below `root`, if it is there.
pub fn strip_prefix(path: &str, root: &str) -> (r: Option<Vec<Component>>)
    ensures
        match r {
            Some(v) => {
                &&& starts_with(parts(path@), parts(root@))
                &&& views(v@) == parts(path@).skip(parts(root@).len() as int)
            },
            None => !starts_with(parts(path@), parts(root@)),
        },
{
    let mut cs = components(path);
    let base = components(root);
    if has_prefix(&cs, &base) {
        let ghost all = cs@;
        let v = cs.split_off(base.len());
        assert(views(v@) =~= views(all).skip(base@.len() as int));
        Some(v)
    } else {
        None
    }
}

/// The text of a component.
pub open spec fn part_text(p: Part) -> Seq<char> {
    match p {
        Part::Root => Seq::empty(),
        Part::Current => seq!['.'],
        Part::Parent => seq!['.', '.'],
        Part::Normal(name) => name,
    }
}

/// Texts with a slash between each two.
pub open spec fn slash_join(ts: Seq<Seq<char>>) -> Seq<char>
    decreases ts.len(),
{
    if ts.len() == 0 {
        Seq::empty()
    } else if ts.len() == 1 {
        ts[0]
    } else {
        slash_join(ts.drop_last()).push('/') + ts.last()
    }
}

/// The shortest path with the given components.
pub open spec fn parts_text(ps: Seq<Part>) -> Seq<char> {
    if ps == seq![Part::Root] {
        seq!['/']
    } else {
        slash_join(ps.map_values(|p: Part| part_text(p)))
    }
}

/// A path in its shortest form.
pub open spec fn clean_text(s: Seq<char>) -> Seq<char> {
    parts_text(parts(s))
}

/// The path in its shortest form: two paths name the same place in the tree exactly when their
/// shortest forms are the same.
pub fn clean(path: &str) -> (r: String)
    ensures
        r@ == clean_text(path@),
{
    let cs = components(path);
    text_of_components(&cs)
}

/// The shortest path with the given components.
pub fn text_of_components(cs: &Vec<Component>) -> (r: String)
    ensures
        r@ == parts_text(views(cs@)),
{
    let ghost ps = views(cs@);
    let ghost ts = ps.map_values(|p: Part| part_text(p));
    let mut r = String::new();
    let mut i: usize = 0;
    assert(r@ =~= slash_join(ts.take(0)));
    proof {
        reveal_strlit(".");
        reveal_strlit("..");
        assert("."@ =~= seq!['.']);
        assert(".."@ =~= seq!['.', '.']);
    }
    while i < cs.len()
        invariant
            0 <= i <= cs@.len(),
            ps == views(cs@),
            ts == ps.map_values(|p: Part| part_text(p)),
            r@ == slash_join(ts.take(i as int)),
            "."@ == seq!['.'],
            ".."@ == seq!['.', '.'],
        decreases cs@.len() - i,
    {
        let ghost upto = ts.take(i + 1);
        let ghost before = r@;
        assert(upto.drop_last() =~= ts.take(i as int));
        assert(ps[i as int] == cs@[i as int]@);
        assert(upto.last() == part_text(cs@[i as int]@));
        if i > 0 {
            r.push('/');
        }
        match &cs[i] {
            Component::Root => {},
            Component::Current => {
                r.append(".");
            },
            Component::Parent => {
                r.append("..");
            },
            Component::Normal(name) => {
                r.append(name.as_str());
            },
        }
        assert(r@ =~= slash_join(upto));
        i = i + 1;
    }
    assert(ts.take(ts.len() as int) =~= ts);
    if cs.len() == 1 {
        if let Component::Root = &cs[0] {
            r.push('/');
            assert(ps[0] == cs@[0]@);
            assert(ps =~= seq![Part::Root]);
            assert(r@ =~= seq!['/']);
            return r;
        }
        assert(ps[0] == cs@[0]@);
    }
    r
}

/// The segments of two texts with a slash between them are the segments of both.
pub proof fn lemma_segments_concat(a: Seq<char>, b: Seq<char>)
    ensures
        segments(a.push('/') + b) == segments(a) + segments(b),
    decreases b.len(),
{
    if b.len() == 0 {
        assert(a.push('/') + b =~= a.push('/'));
        assert(a.push('/').drop_last() =~= a);
        assert(segments(a).push(Seq::<char>::empty()) =~= segments(a) + segments(b));
    } else {
        let whole = a.push('/') + b;
        lemma_segments_concat(a, b.drop_last());
        assert(whole.drop_last() =~= a.push('/') + b.drop_last());
        lemma_segments_nonempty(b.drop_last());
        let x = segments(a);
        let y = segments(b.drop_last());
        assert((x + y).last() == y.last());
        assert((x + y).drop_last() =~= x + y.drop_last());
        assert(segments(whole) =~= x + segments(b));
    }
}

/// The components of the segments of two lists are those of the one, then those of the other.
pub proof fn lemma_segment_parts_concat(x: Seq<Seq<char>>, y: Seq<Seq<char>>)
    ensures
        segment_parts(x + y) == segment_parts(x) + segment_parts(y),
    decreases y.len(),
{
    if y.len() == 0 {
        assert(x + y =~= x);
        assert(segment_parts(x) + segment_parts(y) =~= segment_parts(x));
    } else {
        lemma_segment_parts_concat(x, y.drop_last());
        assert((x + y).drop_last() =~= x + y.drop_last());
        assert((x + y).last() == y.last());
        assert(segment_parts(x + y) =~= segment_parts(x) + segment_parts(y));
    }
}

/// What a single segment contributes.
proof fn lemma_segment_parts_one(seg: Seq<char>)
    ensures
        segment_parts(seq![seg]) == match segment_part(seg) {
            Some(part) => seq![part],
            None => Seq::<Part>::empty(),
        },
{
    assert(seq![seg].drop_last() =~= Seq::<Seq<char>>::empty());
    assert(segment_parts(seq![seg].drop_last()) =~= Seq::<Part>::empty());
    assert(segment_parts(seq![seg]) =~= match segment_part(seg) {
        Some(part) => seq![part],
        None => Seq::<Part>::empty(),
    });
}

/// What a path whose components are all names adds to a base: its own components, after those of
/// the base.
pub proof fn lemma_join_parts(base: Seq<char>, rel: Seq<char>)
    requires
        only_names(parts(rel)),
    ensures
        !absolute(rel),
        parts(join_text(base, rel)) == parts(base) + parts(rel),
{
    lemma_segments_nonempty(base);
    lemma_segments_nonempty(rel);
    if leading_part(rel).len() > 0 {
        assert(parts(rel)[0] == leading_part(rel)[0]);
        assert(false);
    }
    assert(parts(rel) =~= segment_parts(segments(rel)));
    if base.len() == 0 {
        assert(join_text(base, rel) =~= rel);
        assert(segments(base) =~= seq![Seq::<char>::empty()]);
        lemma_segment_parts_one(Seq::<char>::empty());
        assert(parts(base) =~= Seq::<Part>::empty());
        assert(parts(base) + parts(rel) =~= parts(rel));
    } else {
        let cut = if base.last() == '/' {
            base.drop_last()
        } else {
            base
        };
        let whole = join_text(base, rel);
        assert(whole =~= cut.push('/') + rel);
        lemma_segments_concat(cut, rel);
        lemma_segments_nonempty(cut);
        lemma_segment_parts_concat(segments(cut), segments(rel));
        assert(segments(whole)[0] == segments(cut)[0]);
        assert(whole[0] == base[0]);
        if base.last() == '/' {
            assert(segments(base) == segments(cut).push(Seq::<char>::empty()));
            assert(segments(base)[0] == segments(cut)[0]);
            assert(segments(base).drop_last() =~= segments(cut));
            assert(segment_parts(segments(base)) == segment_parts(segments(cut)));
        }
        assert(leading_part(whole) == leading_part(base));
        assert(parts(whole) =~= parts(base) + parts(rel));
    }
}

/// A text without a slash is its own only segment.
proof fn lemma_segments_plain(t: Seq<char>)
    requires
        !t.contains('/'),
    ensures
        segments(t) == seq![t],
    decreases t.len(),
{
    if t.len() == 0 {
        assert(t =~= Seq::<char>::empty());
    } else {
        assert(t[t.len() - 1] == t.last());
        assert(!t.drop_last().contains('/')) by {
            if t.drop_last().contains('/') {
                let i = choose|i: int| 0 <= i < t.drop_last().len() && t.drop_last()[i] == '/';
                assert(t[i] == '/');
            }
        }
        lemma_segments_plain(t.drop_last());
        assert(t.drop_last().push(t.last()) =~= t);
        assert(segments(t) =~= seq![t]);
    }
}

/// The segments of joined texts are the texts.
proof fn lemma_segments_joined(ts: Seq<Seq<char>>)
    requires
        ts.len() > 0,
        forall|i: int| 0 <= i < ts.len() ==> !(#[trigger] ts[i]).contains('/'),
    ensures
        segments(slash_join(ts)) == ts,
    decreases ts.len(),
{
    lemma_segments_plain(ts.last());
    if ts.len() == 1 {
        assert(ts =~= seq![ts[0]]);
    } else {
        lemma_segments_joined(ts.drop_last());
        lemma_segments_concat(slash_join(ts.drop_last()), ts.last());
        assert(segments(slash_join(ts)) =~= ts);
    }
}

/// No segment holds a slash.
proof fn lemma_segments_have_no_slash(s: Seq<char>)
    ensures
        forall|i: int| 0 <= i < segments(s).len() ==> !(#[trigger] segments(s)[i]).contains('/'),
    decreases s.len(),
{
    if s.len() > 0 {
        lemma_segments_have_no_slash(s.drop_last());
        lemma_segments_nonempty(s.drop_last());
        let before = segments(s.drop_last());
        assert forall|i: int| 0 <= i < segments(s).len() implies !(#[trigger] segments(s)[i]).contains('/') by {
            if s.last() != '/' && i == before.len() - 1 {
                let seg = segments(s)[i];
                assert(seg == before[i].push(s.last()));
                if seg.contains('/') {
                    let j = choose|j: int| 0 <= j < seg.len() && seg[j] == '/';
                    assert(before[i][j] == '/');
                    assert(before[i].contains('/'));
                }
            } else if i < before.len() {
                assert(segments(s)[i] == before[i]);
            }
        }
    }
}

/// A part that some segment without a slash contributes.
pub open spec fn plain_part(p: Part) -> bool {
    match p {
        Part::Parent => true,
        Part::Normal(name) => name.len() > 0 && name != seq!['.'] && name != seq!['.', '.'] && !name.contains('/'),
        _ => false,
    }
}

/// Segments without slashes contribute plain parts only, and the texts of plain parts contribute
/// those parts again.
proof fn lemma_segment_parts_plain(segs: Seq<Seq<char>>)
    requires
        forall|i: int| 0 <= i < segs.len() ==> !(#[trigger] segs[i]).contains('/'),
    ensures
        forall|i: int| 0 <= i < segment_parts(segs).len() ==> plain_part(#[trigger] segment_parts(segs)[i]),
    decreases segs.len(),
{
    if segs.len() > 0 {
        assert forall|i: int| 0 <= i < segs.drop_last().len() implies !(#[trigger] segs.drop_last()[i]).contains('/') by {
            assert(segs.drop_last()[i] == segs[i]);
        }
        assert(!segs[segs.len() - 1].contains('/'));
        lemma_segment_parts_plain(segs.drop_last());
        let before = segment_parts(segs.drop_last());
        assert forall|i: int| 0 <= i < segment_parts(segs).len() implies plain_part(#[trigger] segment_parts(segs)[i]) by {
            if i < before.len() {
                assert(segment_parts(segs)[i] == before[i]);
            }
        }
    }
}

proof fn lemma_parts_of_plain_texts(ps: Seq<Part>)
    requires
        forall|i: int| 0 <= i < ps.len() ==> plain_part(#[trigger] ps[i]),
    ensures
        segment_parts(ps.map_values(|p: Part| part_text(p))) == ps,
    decreases ps.len(),
{
    let ts = ps.map_values(|p: Part| part_text(p));
    if ps.len() == 0 {
        assert(segment_parts(ts) =~= ps);
    } else {
        lemma_parts_of_plain_texts(ps.drop_last());
        assert(ts.drop_last() =~= ps.drop_last().map_values(|p: Part| part_text(p)));
        let p = ps[ps.len() - 1];
        assert(plain_part(p));
        assert(ts.last() == part_text(p));
        assert(seq!['.', '.'].len() != seq!['.'].len());
        assert(segment_part(ts.last()) == Some(p));
        assert(segment_parts(ts) =~= ps);
    }
}

/// The names among the components of a path can name entries of directories.
pub proof fn lemma_parts_are_plain(s: Seq<char>)
    ensures
        forall|i: int| 0 <= i < parts(s).len() && #[trigger] parts(s)[i] is Normal ==> plain_part(parts(s)[i]),
{
    lemma_segments_have_no_slash(s);
    lemma_segment_parts_plain(segments(s));
    let lead = leading_part(s);
    let body = segment_parts(segments(s));
    assert forall|i: int| 0 <= i < parts(s).len() && #[trigger] parts(s)[i] is Normal implies plain_part(parts(s)[i]) by {
        if i >= lead.len() {
            assert(parts(s)[i] == body[i - lead.len()]);
        }
    }
}

/// The shortest form of a path has the components of the path.
pub proof fn lemma_clean_keeps_parts(s: Seq<char>)
    ensures
        parts(clean_text(s)) == parts(s),
{
    let ps = parts(s);
    let ts = ps.map_values(|p: Part| part_text(p));
    let lead = leading_part(s);
    let body = segment_parts(segments(s));
    lemma_segments_have_no_slash(s);
    lemma_segment_parts_plain(segments(s));
    lemma_parts_of_plain_texts(body);
    assert(!seq!['.'].contains('/'));
    assert(!seq!['.', '.'].contains('/'));
    assert forall|i: int| 0 <= i < ts.len() implies !(#[trigger] ts[i]).contains('/') by {
        if i < lead.len() {
            assert(ps[i] == lead[i]);
        } else {
            assert(ps[i] == body[i - lead.len()]);
        }
    }
    let body_ts = body.map_values(|p: Part| part_text(p));
    if ps == seq![Part::Root] {
        let c = seq!['/'];
        assert(c =~= Seq::<char>::empty().push('/') + Seq::<char>::empty());
        lemma_segments_concat(Seq::<char>::empty(), Seq::<char>::empty());
        lemma_segment_parts_concat(seq![Seq::<char>::empty()], seq![Seq::<char>::empty()]);
        lemma_segment_parts_one(Seq::<char>::empty());
        assert(parts(c) =~= ps);
    } else if ps.len() == 0 {
        assert(clean_text(s) =~= Seq::<char>::empty());
        lemma_segment_parts_one(Seq::<char>::empty());
        assert(parts(clean_text(s)) =~= ps);
    } else {
        let c = slash_join(ts);
        lemma_segments_joined(ts);
        lemma_join_first(ts);
        if lead.len() == 0 {
            assert(ps =~= body);
            assert(ts =~= body_ts);
            assert(plain_part(body[0]));
            assert(ts[0] == part_text(body[0]));
            if ts[0][0] == '/' {
                assert(ts[0].contains('/'));
            }
            assert(leading_part(c) =~= lead);
            assert(parts(c) =~= ps);
        } else {
            assert(ps[0] == lead[0]);
            assert(ts =~= seq![ts[0]] + body_ts);
            lemma_segment_parts_concat(seq![ts[0]], body_ts);
            lemma_segment_parts_one(ts[0]);
            assert(segment_parts(ts) =~= body);
            if absolute(s) {
                if ps.len() == 1 {
                    assert(ps =~= seq![Part::Root]);
                }
                assert(c[0] == '/');
            } else {
                assert(c.take(1)[0] == c[0]);
            }
            assert(leading_part(c) =~= lead);
            assert(parts(c) =~= ps);
        }
    }
}

/// Joined texts start with the first text, then a slash if more follow.
proof fn lemma_join_first(ts: Seq<Seq<char>>)
    requires
        ts.len() > 0,
    ensures
        slash_join(ts).len() >= ts[0].len(),
        slash_join(ts).take(ts[0].len() as int) == ts[0],
        ts.len() > 1 ==> slash_join(ts).len() > ts[0].len() && slash_join(ts)[ts[0].len() as int] == '/',
    decreases ts.len(),
{
    if ts.len() == 1 {
        assert(ts[0].take(ts[0].len() as int) =~= ts[0]);
    } else {
        let before = ts.drop_last();
        lemma_join_first(before);
        assert(before[0] == ts[0]);
        let j = slash_join(ts);
        assert(j.take(ts[0].len() as int) =~= slash_join(before).take(ts[0].len() as int));
    }
}

/// Two paths have one shortest form exactly when they have the same components.
pub proof fn lemma_clean_same_parts(a: Seq<char>, b: Seq<char>)
    ensures
        clean_text(a) == clean_text(b) <==> parts(a) == parts(b),
{
    lemma_clean_keeps_parts(a);
    lemma_clean_keeps_parts(b);
}


/// A text that can name one entry of a directory.
pub open spec fn plain_name(name: Seq<char>) -> bool {
    plain_part(Part::Normal(name))
}

/// The path to an entry of a directory has the names of the directory's path, then its own.
pub proof fn lemma_join_name(base: Seq<char>, name: Seq<char>)
    requires
        plain_name(name),
    ensures
        parts(join_text(base, name)) == parts(base).push(Part::Normal(name)),
        path_names(join_text(base, name)) == path_names(base).push(name),
{
    lemma_segments_plain(name);
    lemma_segment_parts_one(name);
    if absolute(name) {
        assert(name.contains('/'));
    }
    assert(parts(name) =~= seq![Part::Normal(name)]);
    lemma_join_parts(base, name);
    let ps = parts(base).push(Part::Normal(name));
    assert(parts(base) + parts(name) =~= ps);
    assert(ps.drop_last() =~= parts(base));
}

/// Whether two paths name the same place.
pub fn same_path(a: &str, b: &str) -> (r: bool)
    ensures
        r == (parts(a@) == parts(b@)),
{
    proof {
        lemma_clean_same_parts(a@, b@);
    }
    text::same_text(clean(a).as_str(), clean(b).as_str())
}

} // verus!
