//! The Merkle tree of a folder: every file and directory carries a hash of its content.

use vstd::prelude::*;

use crate::chunk;
use crate::chunk::{ChunkMeta, DEFAULT_CHUNK_SIZE};
use crate::hash;
use crate::names;
use crate::names::NameMap;
use crate::path;
use crate::text;

verus! {

broadcast use {
    crate::names::lemma_value_smaller,
    vstd::string::group_string_axioms,
    vstd::seq::group_seq_axioms,
};

/// A node in the Merkle tree, representing either a file or a directory.
#[derive(Debug, PartialEq, Eq)]
pub enum Node {
    File { hash: [u8; 32], size: u64, chunks: Vec<ChunkMeta> },
    Directory { hash: [u8; 32], children: NameMap<Node> },
}

/// What a node says: the tree as a value of specifications.
#[verifier::ext_equal]
pub enum Tree {
    File { hash: Seq<u8>, size: u64, chunks: Seq<chunk::Meta> },
    Directory { hash: Seq<u8>, children: Seq<(Seq<char>, Tree)> },
}

/// The hash that a tree carries.
pub open spec fn tree_hash(t: Tree) -> Seq<u8> {
    match t {
        Tree::File { hash, .. } => hash,
        Tree::Directory { hash, .. } => hash,
    }
}

/// What a directory holds, as bytes: each name followed by the hash of the child, in name order.
pub open spec fn entries_bytes(children: Seq<(Seq<char>, Tree)>) -> Seq<u8>
    decreases children.len(),
{
    if children.len() == 0 {
        Seq::empty()
    } else {
        entries_bytes(children.drop_last()) + vstd::utf8::encode_utf8(children.last().0) + tree_hash(children.last().1)
    }
}

/// The byte that the hash of an empty directory is taken of.
pub const EMPTY_DIRECTORY_MARK: u8 = 1;

/// What a directory's hash is taken of: what it holds. The hash of an empty file is taken of no bytes, so an
/// empty directory has a mark to be told from it.
pub open spec fn dir_bytes(children: Seq<(Seq<char>, Tree)>) -> Seq<u8> {
    if children.len() == 0 {
        seq![EMPTY_DIRECTORY_MARK]
    } else {
        entries_bytes(children)
    }
}

/// The hash of the directory with the given children.
pub open spec fn dir_digest(children: Seq<(Seq<char>, Tree)>) -> Seq<u8> {
    hash::blake3_digest(dir_bytes(children))
}

/// The directory with the given children.
pub open spec fn dir_tree(children: Seq<(Seq<char>, Tree)>) -> Tree {
    Tree::Directory { hash: dir_digest(children), children }
}

/// The file with the given content.
pub open spec fn file_tree(data: Seq<u8>, chunk_size: nat) -> Tree {
    let chunks = chunk::metas_of(data, chunk_size);
    Tree::File { hash: chunk::file_digest(chunks), size: data.len() as u64, chunks }
}

/// In every directory the names are in order and none occurs twice.
pub open spec fn ordered(t: Tree) -> bool
    decreases t,
{
    match t {
        Tree::File { .. } => true,
        Tree::Directory { children, .. } => {
            &&& names::in_order(children)
            &&& forall|i: int| 0 <= i < children.len() ==> ordered((#[trigger] children[i]).1)
        },
    }
}

/// Every hash in the tree is the hash of what it stands for.
pub open spec fn hashed(t: Tree) -> bool
    decreases t,
{
    match t {
        Tree::File { hash, chunks, .. } => hash == chunk::file_digest(chunks),
        Tree::Directory { hash, children } => {
            &&& hash == dir_digest(children)
            &&& forall|i: int| 0 <= i < children.len() ==> hashed((#[trigger] children[i]).1)
        },
    }
}

/// Every hash of a directory in the tree is the hash of what it holds.
pub open spec fn dirs_hashed(t: Tree) -> bool
    decreases t,
{
    match t {
        Tree::File { .. } => true,
        Tree::Directory { hash, children } => {
            &&& hash == dir_digest(children)
            &&& forall|i: int| 0 <= i < children.len() ==> dirs_hashed((#[trigger] children[i]).1)
        },
    }
}

/// The node that a list of names leads to.
pub open spec fn find(t: Tree, ns: Seq<Seq<char>>) -> Option<Tree>
    decreases ns.len(),
{
    if ns.len() == 0 {
        Some(t)
    } else {
        match t {
            Tree::File { .. } => None,
            Tree::Directory { children, .. } => match names::lookup(children, ns[0]) {
                Some(child) => find(child, ns.drop_first()),
                None => None,
            },
        }
    }
}

/// The tree once `new` stands where the names lead to. Directories on the way are made where there
/// is nothing; a file on the way keeps everything as it is.
pub open spec fn tree_insert(t: Tree, ns: Seq<Seq<char>>, new: Tree) -> Tree
    decreases ns.len(),
{
    match t {
        Tree::File { .. } => t,
        Tree::Directory { children, .. } => if ns.len() == 0 {
            t
        } else if ns.len() == 1 {
            dir_tree(names::put(children, ns[0], new))
        } else {
            let child = match names::lookup(children, ns[0]) {
                Some(c) => c,
                None => dir_tree(Seq::empty()),
            };
            dir_tree(names::put(children, ns[0], tree_insert(child, ns.drop_first(), new)))
        },
    }
}

/// The tree without the node that the names lead to; the same tree if there is no such node.
pub open spec fn tree_remove(t: Tree, ns: Seq<Seq<char>>) -> Tree
    decreases ns.len(),
{
    if ns.len() == 0 || find(t, ns) is None {
        t
    } else {
        match t {
            Tree::File { .. } => t,
            Tree::Directory { children, .. } => if ns.len() == 1 {
                dir_tree(names::without(children, ns[0]))
            } else {
                match names::lookup(children, ns[0]) {
                    Some(c) => dir_tree(names::put(children, ns[0], tree_remove(c, ns.drop_first()))),
                    None => t,
                }
            },
        }
    }
}

/// What the children of a directory say.
pub open spec fn children_model(children: Seq<(Seq<char>, Node)>) -> Seq<(Seq<char>, Tree)> {
    names::with_values(children, |n: Node| n.model())
}

impl Node {
    /// What the node says.
    pub open spec fn model(self) -> Tree
        decreases self,
    {
        match self {
            Node::File { hash, size, chunks } => Tree::File { hash: hash@, size, chunks: chunk::metas_view(chunks@) },
            Node::Directory { hash, children } => Tree::Directory {
                hash: hash@,
                children: Seq::new(
                    children@.len(),
                    |i: int|
                        if 0 <= i < children@.len() {
                            (children@[i].0, children@[i].1.model())
                        } else {
                            arbitrary()
                        },
                ),
            },
        }
    }

    /// The names in every directory are in order.
    pub open spec fn wf(self) -> bool {
        ordered(self.model())
    }

    pub fn hash(&self) -> (h: &[u8; 32])
        ensures
            h@ == tree_hash(self.model()),
    {
        match self {
            Node::File { hash, .. } => hash,
            Node::Directory { hash, .. } => hash,
        }
    }

    pub fn is_file(&self) -> (r: bool)
        ensures
            r == (self.model() is File),
    {
        matches!(self, Node::File { .. })
    }

    pub fn is_dir(&self) -> (r: bool)
        ensures
            r == (self.model() is Directory),
    {
        matches!(self, Node::Directory { .. })
    }
}

/// What a directory says, from what its children say.
pub proof fn lemma_directory_model(hash: [u8; 32], children: NameMap<Node>)
    ensures
        (Node::Directory { hash, children }).model() == (Tree::Directory { hash: hash@, children: children_model(children@) }),
{
    let t = (Node::Directory { hash, children }).model();
    assert(t->children =~= children_model(children@));
}

/// A well-formed directory has its names in order, and well-formed children.
pub proof fn lemma_directory_wf(hash: [u8; 32], children: NameMap<Node>)
    ensures
        (Node::Directory { hash, children }).wf() <==> {
            &&& names::in_order(children@)
            &&& forall|i: int| 0 <= i < children@.len() ==> (#[trigger] children@[i]).1.wf()
        },
{
    lemma_directory_model(hash, children);
    let s = children@;
    let t = children_model(s);
    assert(forall|i: int| 0 <= i < s.len() ==> (#[trigger] t[i]) == (s[i].0, s[i].1.model()));
    if (Node::Directory { hash, children }).wf() {
        assert forall|i: int, j: int| 0 <= i < j < s.len() implies text::lex_lt(#[trigger] s[i].0, #[trigger] s[j].0) by {
            assert(t[i].0 == s[i].0 && t[j].0 == s[j].0);
        }
        assert forall|i: int| 0 <= i < s.len() implies (#[trigger] s[i]).1.wf() by {
            assert(t[i].1 == s[i].1.model());
        }
    } else if names::in_order(s) && (forall|i: int| 0 <= i < s.len() ==> (#[trigger] s[i]).1.wf()) {
        assert forall|i: int, j: int| 0 <= i < j < t.len() implies text::lex_lt(#[trigger] t[i].0, #[trigger] t[j].0) by {
            assert(t[i].0 == s[i].0 && t[j].0 == s[j].0);
        }
        assert forall|i: int| 0 <= i < t.len() implies ordered((#[trigger] t[i]).1) by {
            assert(s[i].1.wf());
        }
    }
}

impl Clone for Node {
    fn clone(&self) -> (r: Self)
        ensures
            r.model() == self.model(),
        decreases self,
    {
        match self {
            Node::File { hash, size, chunks } => {
                let copy = chunks.clone();
                assert(copy@ =~= chunks@);
                Node::File { hash: *hash, size: *size, chunks: copy }
            },
            Node::Directory { hash, children } => {
                let mut entries: Vec<(String, Node)> = Vec::new();
                let mut i: usize = 0;
                while i < children.len()
                    invariant
                        0 <= i <= children@.len(),
                        entries@.len() == i,
                        *self == (Node::Directory { hash: *hash, children: *children }),
                        forall|j: int| #![trigger entries@[j]]
                            0 <= j < i ==> entries@[j].0@ == children@[j].0 && entries@[j].1.model() == children@[j].1.model(),
                    decreases children@.len() - i,
                {
                    let name = children.name_at(i).clone();
                    let child = children.value_at(i);
                    assert(decreases_to!(*self => *child)) by {
                        names::lemma_value_smaller(*children, i as int);
                        assert(decreases_to!(*self => self->children));
                    }
                    let node = child.clone();
                    entries.push((name, node));
                    i = i + 1;
                }
                let copy = NameMap::from_ordered(entries);
                proof {
                    lemma_directory_model(*hash, *children);
                    lemma_directory_model(*hash, copy);
                    assert(children_model(copy@) =~= children_model(children@));
                }
                Node::Directory { hash: *hash, children: copy }
            },
        }
    }
}

/// Build a file node from raw data using the default chunk size.
pub fn file_node(data: &[u8]) -> (n: Node)
    ensures
        n.model() == file_tree(data@, DEFAULT_CHUNK_SIZE as nat),
        n.wf(),
{
    file_node_with_chunk_size(data, DEFAULT_CHUNK_SIZE)
}

/// Build a file node from raw data with a custom chunk size.
pub fn file_node_with_chunk_size(data: &[u8], chunk_size: usize) -> (n: Node)
    requires
        chunk_size > 0,
    ensures
        n.model() == file_tree(data@, chunk_size as nat),
        n.wf(),
{
    let chunks = chunk::metadata(data, chunk_size);
    let hash = chunk::file_hash(chunks.as_slice());
    Node::File { hash, size: data.len() as u64, chunks }
}

/// Compute the hash of a directory from its children.
fn dir_hash(children: &NameMap<Node>) -> (h: [u8; 32])
    ensures
        h@ == dir_digest(children_model(children@)),
{
    let mut buf: Vec<u8> = Vec::new();
    let mut i: usize = 0;
    let ghost m = children_model(children@);
    assert(buf@ =~= entries_bytes(m.take(0)));
    while i < children.len()
        invariant
            0 <= i <= children@.len(),
            m == children_model(children@),
            buf@ == entries_bytes(m.take(i as int)),
        decreases children@.len() - i,
    {
        let ghost upto = m.take(i + 1);
        assert(upto.drop_last() =~= m.take(i as int));
        assert(upto.last() == (children@[i as int].0, children@[i as int].1.model()));
        let mut name = children.name_at(i).as_str().as_bytes_vec();
        buf.append(&mut name);
        hash::push_hash(&mut buf, children.value_at(i).hash());
        i = i + 1;
    }
    assert(m.take(m.len() as int) =~= m);
    if children.len() == 0 {
        buf.push(EMPTY_DIRECTORY_MARK);
    }
    assert(buf@ =~= dir_bytes(m));
    hash::digest(buf.as_slice())
}

/// Build a directory node from children.
pub fn dir_node(children: NameMap<Node>) -> (n: Node)
    ensures
        n.model() == dir_tree(children_model(children@)),
{
    let hash = dir_hash(&children);
    proof {
        lemma_directory_model(hash, children);
    }
    Node::Directory { hash, children }
}

/// The children once one of them is stored are well-formed if all parts are.
proof fn lemma_put_ordered(children: Seq<(Seq<char>, Tree)>, k: Seq<char>, c: Tree)
    requires
        ordered(dir_tree(children)),
        ordered(c),
    ensures
        ordered(dir_tree(names::put(children, k, c))),
{
    names::lemma_has_at_rank(children, k);
    names::lemma_put_in_order(children, k, c);
    let t = names::put(children, k, c);
    let p = names::rank(children, k);
    assert forall|i: int| 0 <= i < t.len() implies ordered((#[trigger] t[i]).1) by {
        if i != p {
            assert(t[i] == if names::has_name(children, k) || i < p { children[i] } else { children[i - 1] });
        }
    }
}

/// The children that stay when one is taken out are well-formed.
proof fn lemma_without_ordered(children: Seq<(Seq<char>, Tree)>, k: Seq<char>)
    requires
        ordered(dir_tree(children)),
    ensures
        ordered(dir_tree(names::without(children, k))),
{
    names::lemma_has_at_rank(children, k);
    names::lemma_without_in_order(children, k);
    let t = names::without(children, k);
    let p = names::rank(children, k);
    assert forall|i: int| 0 <= i < t.len() implies ordered((#[trigger] t[i]).1) by {
        assert(t[i] == if !names::has_name(children, k) || i < p { children[i] } else { children[i + 1] });
    }
}

/// A child of a well-formed directory is well-formed.
proof fn lemma_child_ordered(hash: Seq<u8>, children: Seq<(Seq<char>, Tree)>, k: Seq<char>)
    requires
        ordered(Tree::Directory { hash, children }),
    ensures
        names::lookup(children, k) matches Some(c) ==> ordered(c),
        ordered(dir_tree(children)),
{
    names::lemma_has_at_rank(children, k);
}

/// Inserting a node keeps the names of every directory in order.
pub proof fn lemma_insert_ordered(t: Tree, ns: Seq<Seq<char>>, new: Tree)
    requires
        ordered(t),
        ordered(new),
    ensures
        ordered(tree_insert(t, ns, new)),
    decreases ns.len(),
{
    if let Tree::Directory { hash, children } = t {
        if ns.len() > 0 {
            lemma_child_ordered(hash, children, ns[0]);
            if ns.len() == 1 {
                lemma_put_ordered(children, ns[0], new);
            } else {
                let child = match names::lookup(children, ns[0]) {
                    Some(c) => c,
                    None => dir_tree(Seq::empty()),
                };
                lemma_insert_ordered(child, ns.drop_first(), new);
                lemma_put_ordered(children, ns[0], tree_insert(child, ns.drop_first(), new));
            }
        }
    }
}

/// Removing a node keeps the names of every directory in order.
pub proof fn lemma_remove_ordered(t: Tree, ns: Seq<Seq<char>>)
    requires
        ordered(t),
    ensures
        ordered(tree_remove(t, ns)),
    decreases ns.len(),
{
    if let Tree::Directory { hash, children } = t {
        if ns.len() > 0 && find(t, ns) is Some {
            lemma_child_ordered(hash, children, ns[0]);
            if ns.len() == 1 {
                lemma_without_ordered(children, ns[0]);
            } else {
                let c = names::lookup(children, ns[0])->0;
                lemma_remove_ordered(c, ns.drop_first());
                lemma_put_ordered(children, ns[0], tree_remove(c, ns.drop_first()));
            }
        }
    }
}

/// Update a single file in an existing Merkle tree using default chunk size.
pub fn update_file(tree: &mut Node, rel_path: &str, data: &[u8])
    requires
        old(tree).wf(),
    ensures
        final(tree).model() == tree_insert(
            old(tree).model(),
            path::path_names(rel_path@),
            file_tree(data@, DEFAULT_CHUNK_SIZE as nat),
        ),
        final(tree).wf(),
{
    let new_file = file_node(data);
    insert_node(tree, rel_path, new_file);
}

/// Update a single file with a custom chunk size.
pub fn update_file_with_chunk_size(tree: &mut Node, rel_path: &str, data: &[u8], chunk_size: usize)
    requires
        old(tree).wf(),
        chunk_size > 0,
    ensures
        final(tree).model() == tree_insert(
            old(tree).model(),
            path::path_names(rel_path@),
            file_tree(data@, chunk_size as nat),
        ),
        final(tree).wf(),
{
    let new_file = file_node_with_chunk_size(data, chunk_size);
    insert_node(tree, rel_path, new_file);
}

/// Remove a file or directory from the tree.
pub fn remove_path(tree: &mut Node, rel_path: &str) -> (removed: bool)
    requires
        old(tree).wf(),
    ensures
        removed == (path::path_names(rel_path@).len() > 0 && find(old(tree).model(), path::path_names(rel_path@)) is Some),
        final(tree).model() == tree_remove(old(tree).model(), path::path_names(rel_path@)),
        final(tree).wf(),
{
    let components = path::names(rel_path);
    assert(text::texts(components@).skip(0) =~= text::texts(components@));
    remove_recursive(tree, &components, 0)
}

fn remove_recursive(node: &mut Node, components: &Vec<String>, at: usize) -> (removed: bool)
    requires
        old(node).wf(),
        at <= components@.len(),
    ensures
        removed == (at < components@.len() && find(old(node).model(), text::texts(components@).skip(at as int)) is Some),
        final(node).model() == tree_remove(old(node).model(), text::texts(components@).skip(at as int)),
        final(node).wf(),
    decreases components@.len() - at,
{
    let ghost t = node.model();
    let ghost ns = text::texts(components@).skip(at as int);
    proof {
        lemma_remove_ordered(t, ns);
    }
    match node {
        Node::File { .. } => false,
        Node::Directory { children, hash } => {
            let ghost before = children@;
            let ghost m = children_model(before);
            proof {
                lemma_directory_model(*hash, *children);
                lemma_directory_wf(*hash, *children);
            }
            if at == components.len() {
                return false;
            }
            let first = components[at].as_str();
            assert(ns[0] == first@);
            assert(ns.drop_first() =~= text::texts(components@).skip(at + 1));
            if at + 1 == components.len() {
                let removed = children.remove(first).is_some();
                proof {
                    names::lemma_with_values(before, |n: Node| n.model(), first@, arbitrary());
                    assert(find(t, ns) is Some == names::has_name(before, first@)) by {
                        if names::has_name(before, first@) {
                            assert(find(names::lookup(m, ns[0])->0, ns.drop_first()) is Some);
                        }
                    }
                }
                if removed {
                    *hash = dir_hash(children);
                }
                proof {
                    lemma_directory_model(*hash, *children);
                }
                return removed;
            }
            match children.get_mut(first) {
                None => {
                    proof {
                        names::lemma_with_values(before, |n: Node| n.model(), first@, arbitrary());
                    }
                    false
                },
                Some(child) => {
                    proof {
                        names::lemma_with_values(before, |n: Node| n.model(), first@, arbitrary());
                        lemma_child_ordered(t->Directory_hash, m, first@);
                    }
                    let removed = remove_recursive(child, components, at + 1);
                    proof {
                        let c = *child;
                        names::lemma_with_values(before, |n: Node| n.model(), first@, c);
                        names::lemma_put_same(m, first@);
                    }
                    if removed {
                        *hash = dir_hash(children);
                    }
                    proof {
                        lemma_directory_model(*hash, *children);
                    }
                    removed
                },
            }
        },
    }
}

fn insert_node(tree: &mut Node, rel_path: &str, new_node: Node)
    requires
        old(tree).wf(),
        new_node.wf(),
    ensures
        final(tree).model() == tree_insert(old(tree).model(), path::path_names(rel_path@), new_node.model()),
        final(tree).wf(),
{
    let components = path::names(rel_path);
    assert(text::texts(components@).skip(0) =~= text::texts(components@));
    insert_recursive(tree, &components, 0, new_node);
}

fn insert_recursive(node: &mut Node, components: &Vec<String>, at: usize, new_node: Node)
    requires
        old(node).wf(),
        new_node.wf(),
        at <= components@.len(),
    ensures
        final(node).model() == tree_insert(old(node).model(), text::texts(components@).skip(at as int), new_node.model()),
        final(node).wf(),
    decreases components@.len() - at,
{
    let ghost t = node.model();
    let ghost ns = text::texts(components@).skip(at as int);
    let ghost new = new_node.model();
    proof {
        lemma_insert_ordered(t, ns, new);
    }
    match node {
        Node::File { .. } => {},
        Node::Directory { children, hash } => {
            let ghost before = children@;
            let ghost m = children_model(before);
            proof {
                lemma_directory_model(*hash, *children);
                lemma_directory_wf(*hash, *children);
            }
            if at == components.len() {
                return;
            }
            let first = components[at].as_str();
            assert(ns[0] == first@);
            assert(ns.drop_first() =~= text::texts(components@).skip(at + 1));
            if at + 1 == components.len() {
                proof {
                    names::lemma_with_values(before, |n: Node| n.model(), first@, new_node);
                }
                children.insert(components[at].clone(), new_node);
                *hash = dir_hash(children);
                proof {
                    lemma_directory_model(*hash, *children);
                }
                return;
            }
            proof {
                names::lemma_with_values(before, |n: Node| n.model(), first@, arbitrary());
                lemma_child_ordered(t->Directory_hash, m, first@);
            }
            if !children.contains_key(first) {
                let empty = dir_node(NameMap::new());
                proof {
                    assert(empty.model()->children =~= Seq::<(Seq<char>, Tree)>::empty());
                    names::lemma_with_values(before, |n: Node| n.model(), first@, empty);
                    names::lemma_lookup_put(before, first@, empty, first@);
                }
                children.insert(components[at].clone(), empty);
            }
            let ghost mid = children@;
            proof {
                names::lemma_with_values(mid, |n: Node| n.model(), first@, arbitrary());
            }
            if let Some(child) = children.get_mut(first) {
                insert_recursive(child, components, at + 1, new_node);
                proof {
                    let c = *child;
                    names::lemma_with_values(mid, |n: Node| n.model(), first@, c);
                    names::lemma_put_put(m, first@, dir_tree(Seq::empty()), c.model());
                }
            }
            *hash = dir_hash(children);
            proof {
                lemma_directory_model(*hash, *children);
            }
        },
    }
}

/// Diff result between two Merkle trees.
#[derive(Debug, PartialEq, Eq)]
pub enum DiffEntry {
    Added(String, Node),
    Removed(String, Node),
    Modified(String, Node, Node),
}

/// What a diff entry says.
#[verifier::ext_equal]
pub enum Change {
    Added(Seq<char>, Tree),
    Removed(Seq<char>, Tree),
    Modified(Seq<char>, Tree, Tree),
}

impl View for DiffEntry {
    type V = Change;

    open spec fn view(&self) -> Change {
        match self {
            DiffEntry::Added(p, n) => Change::Added(p@, n.model()),
            DiffEntry::Removed(p, n) => Change::Removed(p@, n.model()),
            DiffEntry::Modified(p, o, n) => Change::Modified(p@, o.model(), n.model()),
        }
    }
}

/// What a list of diff entries says.
pub open spec fn changes(v: Seq<DiffEntry>) -> Seq<Change> {
    v.map_values(|e: DiffEntry| e@)
}

/// The differences of two trees at the path `prefix`: none where the hashes are the same, those of
/// the children where both are directories, else the whole node.
pub open spec fn tree_diff(old_tree: Tree, new_tree: Tree, prefix: Seq<char>) -> Seq<Change>
    decreases new_tree, 0nat,
{
    if tree_hash(old_tree) == tree_hash(new_tree) {
        Seq::empty()
    } else {
        match (old_tree, new_tree) {
            (
                Tree::Directory { children: old_children, .. },
                Tree::Directory { children: new_children, .. },
            ) => kept_diff(old_children, new_children, prefix, new_children.len()) + gone_diff(
                old_children,
                new_children,
                prefix,
                old_children.len(),
            ),
            _ => seq![Change::Modified(prefix, old_tree, new_tree)],
        }
    }
}

/// The differences under the first `n` names of the new directory.
pub open spec fn kept_diff(
    old_children: Seq<(Seq<char>, Tree)>,
    new_children: Seq<(Seq<char>, Tree)>,
    prefix: Seq<char>,
    n: nat,
) -> Seq<Change>
    decreases new_children, n,
{
    if n == 0 || n > new_children.len() {
        Seq::empty()
    } else {
        let name = new_children[n - 1].0;
        let child = new_children[n - 1].1;
        let here = path::join_text(prefix, name);
        kept_diff(old_children, new_children, prefix, (n - 1) as nat) + match names::lookup(old_children, name) {
            Some(o) => tree_diff(o, child, here),
            None => seq![Change::Added(here, child)],
        }
    }
}

/// Those of the first `n` names of the old directory that the new one lacks.
pub open spec fn gone_diff(
    old_children: Seq<(Seq<char>, Tree)>,
    new_children: Seq<(Seq<char>, Tree)>,
    prefix: Seq<char>,
    n: nat,
) -> Seq<Change>
    decreases n,
{
    if n == 0 || n > old_children.len() {
        Seq::empty()
    } else {
        let name = old_children[n - 1].0;
        let before = gone_diff(old_children, new_children, prefix, (n - 1) as nat);
        if names::has_name(new_children, name) {
            before
        } else {
            before.push(Change::Removed(path::join_text(prefix, name), old_children[n - 1].1))
        }
    }
}

/// Compare two Merkle trees and return the differences.
pub fn diff(old_tree: &Node, new_tree: &Node) -> (result: Vec<DiffEntry>)
    requires
        old_tree.wf(),
        new_tree.wf(),
    ensures
        changes(result@) == tree_diff(old_tree.model(), new_tree.model(), Seq::empty()),
{
    let mut result: Vec<DiffEntry> = Vec::new();
    let prefix = String::new();
    diff_recursive(old_tree, new_tree, prefix.as_str(), &mut result);
    assert(changes(result@) =~= tree_diff(old_tree.model(), new_tree.model(), Seq::empty()));
    result
}

fn diff_recursive(old_tree: &Node, new_tree: &Node, prefix: &str, result: &mut Vec<DiffEntry>)
    requires
        old_tree.wf(),
        new_tree.wf(),
    ensures
        changes(final(result)@) == changes(old(result)@) + tree_diff(old_tree.model(), new_tree.model(), prefix@),
    decreases new_tree,
{
    let ghost start = changes(result@);
    if hash::same_hash(old_tree.hash(), new_tree.hash()) {
        assert(changes(result@) =~= start + tree_diff(old_tree.model(), new_tree.model(), prefix@));
        return;
    }
    match (old_tree, new_tree) {
        (
            Node::Directory { children: old_children, hash: old_hash },
            Node::Directory { children: new_children, hash: new_hash },
        ) => {
            let ghost oc = children_model(old_children@);
            let ghost nc = children_model(new_children@);
            proof {
                lemma_directory_model(*old_hash, *old_children);
                lemma_directory_model(*new_hash, *new_children);
                lemma_directory_wf(*old_hash, *old_children);
                lemma_directory_wf(*new_hash, *new_children);
            }
            let mut i: usize = 0;
            assert(changes(result@) =~= start + kept_diff(oc, nc, prefix@, 0));
            while i < new_children.len()
                invariant
                    0 <= i <= new_children@.len(),
                    *new_tree == (Node::Directory { hash: *new_hash, children: *new_children }),
                    oc == children_model(old_children@),
                    nc == children_model(new_children@),
                    names::in_order(old_children@),
                    forall|j: int| 0 <= j < old_children@.len() ==> (#[trigger] old_children@[j]).1.wf(),
                    forall|j: int| 0 <= j < new_children@.len() ==> (#[trigger] new_children@[j]).1.wf(),
                    changes(result@) == start + kept_diff(oc, nc, prefix@, i as nat),
                decreases new_children@.len() - i,
            {
                let name = new_children.name_at(i);
                let new_node = new_children.value_at(i);
                let child_path = path::join(prefix, name.as_str());
                let ghost before = changes(result@);
                assert(nc[i as int] == (name@, new_node.model()));
                proof {
                    names::lemma_with_values(old_children@, |n: Node| n.model(), name@, arbitrary());
                    names::lemma_has_at_rank(old_children@, name@);
                }
                match old_children.get(name.as_str()) {
                    Some(old_node) => {
                        assert(decreases_to!(*new_tree => *new_node)) by {
                            names::lemma_value_smaller(*new_children, i as int);
                            assert(decreases_to!(*new_tree => new_tree->children));
                        }
                        diff_recursive(old_node, new_node, child_path.as_str(), result);
                    },
                    None => {
                        result.push(DiffEntry::Added(child_path, new_node.clone()));
                        assert(changes(result@) =~= before.push(Change::Added(child_path@, new_node.model())));
                    },
                }
                assert(changes(result@) =~= start + kept_diff(oc, nc, prefix@, (i + 1) as nat));
                i = i + 1;
            }
            let ghost kept = kept_diff(oc, nc, prefix@, nc.len());
            let mut i: usize = 0;
            assert(changes(result@) =~= start + kept + gone_diff(oc, nc, prefix@, 0));
            while i < old_children.len()
                invariant
                    0 <= i <= old_children@.len(),
                    oc == children_model(old_children@),
                    nc == children_model(new_children@),
                    names::in_order(new_children@),
                    changes(result@) == start + kept + gone_diff(oc, nc, prefix@, i as nat),
                decreases old_children@.len() - i,
            {
                let name = old_children.name_at(i);
                let old_node = old_children.value_at(i);
                let ghost before = changes(result@);
                assert(oc[i as int] == (name@, old_node.model()));
                proof {
                    names::lemma_with_values(new_children@, |n: Node| n.model(), name@, arbitrary());
                }
                if !new_children.contains_key(name.as_str()) {
                    result.push(DiffEntry::Removed(path::join(prefix, name.as_str()), old_node.clone()));
                    assert(changes(result@) =~= before.push(
                        Change::Removed(path::join_text(prefix@, name@), old_node.model()),
                    ));
                }
                assert(changes(result@) =~= start + kept + gone_diff(oc, nc, prefix@, (i + 1) as nat));
                i = i + 1;
            }
            assert(changes(result@) =~= start + tree_diff(old_tree.model(), new_tree.model(), prefix@));
        },
        _ => {
            result.push(DiffEntry::Modified(prefix.to_owned(), old_tree.clone(), new_tree.clone()));
            assert(changes(result@) =~= start.push(Change::Modified(prefix@, old_tree.model(), new_tree.model())));
            assert(changes(result@) =~= start + tree_diff(old_tree.model(), new_tree.model(), prefix@));
        },
    }
}

} // verus!
