//! What stands on disk under a folder, and the Merkle tree that it makes.

use vstd::prelude::*;

use crate::chunk::DEFAULT_CHUNK_SIZE;
use crate::merkle;
use crate::merkle::{Node, Tree, dir_node, file_node_with_chunk_size};
use crate::names;
use crate::names::NameMap;
use crate::path;

verus! {

broadcast use {vstd::string::group_string_axioms, vstd::seq::group_seq_axioms};

/// Something found on disk.
pub enum DiskEntry {
    /// A symbolic link.
    Symlink,
    /// A file with its content.
    File(Vec<u8>),
    /// A directory with its entries, in any order.
    Directory(Vec<Listed>),
    /// Something that was scanned before.
    Scanned(Node),
}

/// An entry of a directory.
pub struct Listed {
    /// The name, where each sequence that is no UTF-8 is replaced.
    pub name: String,
    /// Whether nothing was replaced.
    pub is_utf8: bool,
    pub entry: DiskEntry,
}

/// A name on disk cannot be read.
#[derive(Debug, Clone, Copy, PartialEq, Eq)]
pub enum ScanError {
    NonUtf8Filename,
}

impl ScanError {
    /// The error in words.
    pub fn message(&self) -> (s: &'static str)
        ensures
            s@ == "non-UTF8 filename"@,
    {
        match self {
            ScanError::NonUtf8Filename => "non-UTF8 filename",
        }
    }
}

impl DiskEntry {
    /// What was scanned before is well-formed.
    pub open spec fn wf(self) -> bool
        decreases self,
    {
        match self {
            DiskEntry::Directory(entries) => forall|i: int|
                0 <= i < entries@.len() ==> (#[trigger] entries@[i]).entry.wf(),
            DiskEntry::Scanned(node) => node.wf(),
            _ => true,
        }
    }
}

/// What a scan does about an entry of a directory.
#[derive(Debug, Clone, Copy, PartialEq, Eq)]
pub enum Visit {
    /// It is left out.
    Leave,
    /// Its name cannot be used: the scan fails.
    Refuse,
    /// It is looked into.
    Enter,
}

/// What a scan does about an entry of a directory: links and excluded paths are left out, and any other name
/// has to be UTF-8.
pub open spec fn visit_of(is_symlink: bool, is_excluded: bool, is_utf8: bool) -> Visit {
    if is_symlink || is_excluded {
        Visit::Leave
    } else if !is_utf8 {
        Visit::Refuse
    } else {
        Visit::Enter
    }
}

/// Decides what a scan does about an entry of a directory.
pub fn visit(is_symlink: bool, is_excluded: bool, is_utf8: bool) -> (r: Visit)
    ensures
        r == visit_of(is_symlink, is_excluded, is_utf8),
{
    if is_symlink || is_excluded {
        Visit::Leave
    } else if !is_utf8 {
        Visit::Refuse
    } else {
        Visit::Enter
    }
}

/// The tree of what stands at a path: a link counts as an empty directory.
pub open spec fn tree_at(
    entry: DiskEntry,
    at: Seq<char>,
    skip: spec_fn(Seq<char>) -> bool,
    chunk_size: nat,
) -> Result<Tree, ScanError>
    decreases entry, 0nat,
{
    match entry {
        DiskEntry::Symlink => Ok(merkle::dir_tree(Seq::empty())),
        DiskEntry::File(data) => Ok(merkle::file_tree(data@, chunk_size)),
        DiskEntry::Scanned(node) => Ok(node.model()),
        DiskEntry::Directory(entries) => match children_at(entries@, at, skip, chunk_size, entries@.len()) {
            Ok(children) => Ok(merkle::dir_tree(children)),
            Err(e) => Err(e),
        },
    }
}

/// The children that the first `n` entries of a directory make. Links and skipped paths leave no
/// trace; any other name has to be UTF-8.
pub open spec fn children_at(
    entries: Seq<Listed>,
    at: Seq<char>,
    skip: spec_fn(Seq<char>) -> bool,
    chunk_size: nat,
    n: nat,
) -> Result<Seq<(Seq<char>, Tree)>, ScanError>
    decreases entries, n,
{
    if n == 0 || n > entries.len() {
        Ok(Seq::empty())
    } else {
        match children_at(entries, at, skip, chunk_size, (n - 1) as nat) {
            Err(e) => Err(e),
            Ok(before) => {
                let listed = entries[n - 1];
                let here = path::join_text(at, listed.name@);
                match visit_of(listed.entry is Symlink, skip(here), listed.is_utf8) {
                    Visit::Leave => Ok(before),
                    Visit::Refuse => Err(ScanError::NonUtf8Filename),
                    Visit::Enter => match tree_at(listed.entry, here, skip, chunk_size) {
                        Err(e) => Err(e),
                        Ok(t) => Ok(names::put(before, listed.name@, t)),
                    },
                }
            },
        }
    }
}

/// Whether `skip` says what a predicate on texts answers.
pub open spec fn decides<F: Fn(&str) -> bool>(f: F, skip: spec_fn(Seq<char>) -> bool) -> bool {
    forall|s: &str, b: bool| #[trigger] call_ensures(f, (s,), b) ==> b == skip(s@)
}

/// Whether a result is the tree of what stands on disk.
pub open spec fn scanned_as(
    r: Result<Node, ScanError>,
    entry: DiskEntry,
    at: Seq<char>,
    skip: spec_fn(Seq<char>) -> bool,
    chunk_size: nat,
) -> bool {
    match r {
        Ok(n) => tree_at(entry, at, skip, chunk_size) == Ok::<Tree, ScanError>(n.model()),
        Err(e) => tree_at(entry, at, skip, chunk_size) == Err::<Tree, ScanError>(e),
    }
}

fn never(_path: &str) -> (r: bool)
    ensures
        r == false,
{
    false
}

/// Build a Merkle tree of what stands on disk using default chunk size.
pub fn from_path(entry: &DiskEntry, root: &str) -> (r: Result<Node, ScanError>)
    requires
        entry.wf(),
    ensures
        r matches Ok(n) ==> n.wf(),
        scanned_as(r, *entry, root@, |p: Seq<char>| false, DEFAULT_CHUNK_SIZE as nat),
{
    let ghost skip = |p: Seq<char>| false;
    assert(decides(never, skip));
    from_path_configured(entry, root, &never, DEFAULT_CHUNK_SIZE)
}

/// Build a Merkle tree, skipping excluded paths, using default chunk size.
pub fn from_path_filtered<F: Fn(&str) -> bool>(entry: &DiskEntry, root: &str, exclude: &F) -> (r: Result<Node, ScanError>)
    requires
        entry.wf(),
        forall|s: &str| #[trigger] call_requires(*exclude, (s,)),
    ensures
        r matches Ok(n) ==> n.wf(),
        forall|skip: spec_fn(Seq<char>) -> bool| #[trigger]
            decides(*exclude, skip) ==> scanned_as(r, *entry, root@, skip, DEFAULT_CHUNK_SIZE as nat),
{
    from_path_configured(entry, root, exclude, DEFAULT_CHUNK_SIZE)
}

/// An error among the first entries of a directory is the error of the directory.
proof fn lemma_error_stays(
    entries: Seq<Listed>,
    at: Seq<char>,
    skip: spec_fn(Seq<char>) -> bool,
    chunk_size: nat,
    n: nat,
    m: nat,
)
    requires
        n <= m <= entries.len(),
        children_at(entries, at, skip, chunk_size, n) is Err,
    ensures
        children_at(entries, at, skip, chunk_size, m) == children_at(entries, at, skip, chunk_size, n),
    decreases m,
{
    if n < m {
        lemma_error_stays(entries, at, skip, chunk_size, n, (m - 1) as nat);
    }
}

/// Build a Merkle tree with full configuration.
pub fn from_path_configured<F: Fn(&str) -> bool>(
    entry: &DiskEntry,
    root: &str,
    exclude: &F,
    chunk_size: usize,
) -> (r: Result<Node, ScanError>)
    requires
        entry.wf(),
        forall|s: &str| #[trigger] call_requires(*exclude, (s,)),
        chunk_size > 0,
    ensures
        r matches Ok(n) ==> n.wf(),
        forall|skip: spec_fn(Seq<char>) -> bool| #[trigger]
            decides(*exclude, skip) ==> scanned_as(r, *entry, root@, skip, chunk_size as nat),
    decreases entry,
{
    match entry {
        DiskEntry::Symlink => {
            let n = dir_node(NameMap::new());
            assert(n.model()->children =~= Seq::<(Seq<char>, Tree)>::empty());
            Ok(n)
        },
        DiskEntry::File(data) => Ok(file_node_with_chunk_size(data.as_slice(), chunk_size)),
        DiskEntry::Scanned(node) => Ok(node.clone()),
        DiskEntry::Directory(entries) => {
            let ghost cs = chunk_size as nat;
            let mut children: NameMap<Node> = NameMap::new();
            let mut i: usize = 0;
            assert(merkle::children_model(children@) =~= Seq::<(Seq<char>, Tree)>::empty());
            while i < entries.len()
                invariant
                    0 <= i <= entries@.len(),
                    *entry == DiskEntry::Directory(*entries),
                    entry.wf(),
                    forall|s: &str| #[trigger] call_requires(*exclude, (s,)),
                    chunk_size > 0,
                    cs == chunk_size as nat,
                    names::in_order(children@),
                    forall|j: int| 0 <= j < children@.len() ==> (#[trigger] children@[j]).1.wf(),
                    forall|skip: spec_fn(Seq<char>) -> bool| #[trigger]
                        decides(*exclude, skip) ==> children_at(entries@, root@, skip, cs, i as nat) == Ok::<
                            Seq<(Seq<char>, Tree)>,
                            ScanError,
                        >(merkle::children_model(children@)),
                decreases entries@.len() - i,
            {
                let listed = &entries[i];
                assert(entries@[i as int].entry.wf());
                let here = path::join(root, listed.name.as_str());
                let here_text = here.as_str();
                let excluded = exclude(here_text);
                assert(call_ensures(*exclude, (here_text,), excluded));
                let linked = matches!(listed.entry, DiskEntry::Symlink);
                let ghost before = children@;
                let step = visit(linked, excluded, listed.is_utf8);
                if !matches!(step, Visit::Leave) {
                    if matches!(step, Visit::Refuse) {
                        proof {
                            assert forall|skip: spec_fn(Seq<char>) -> bool| #[trigger]
                                decides(*exclude, skip) implies children_at(entries@, root@, skip, cs, entries@.len())
                                == Err::<Seq<(Seq<char>, Tree)>, ScanError>(ScanError::NonUtf8Filename) by {
                                lemma_error_stays(entries@, root@, skip, cs, (i + 1) as nat, entries@.len());
                            }
                        }
                        return Err(ScanError::NonUtf8Filename);
                    }
                    assert(decreases_to!(*entry => listed.entry)) by {
                        assert(decreases_to!(*entry => *entries));
                        assert(decreases_to!(*entries => entries@[i as int]));
                        assert(decreases_to!(entries@[i as int] => entries@[i as int].entry));
                    }
                    match from_path_configured(&listed.entry, here_text, exclude, chunk_size) {
                        Err(e) => {
                            proof {
                                assert forall|skip: spec_fn(Seq<char>) -> bool| #[trigger]
                                    decides(*exclude, skip) implies children_at(
                                    entries@,
                                    root@,
                                    skip,
                                    cs,
                                    entries@.len(),
                                ) == Err::<Seq<(Seq<char>, Tree)>, ScanError>(e) by {
                                    lemma_error_stays(entries@, root@, skip, cs, (i + 1) as nat, entries@.len());
                                }
                            }
                            return Err(e);
                        },
                        Ok(node) => {
                            proof {
                                names::lemma_with_values(children@, |n: Node| n.model(), listed.name@, node);
                                names::lemma_has_at_rank(children@, listed.name@);
                            }
                            children.insert(listed.name.clone(), node);
                            assert forall|j: int| 0 <= j < children@.len() implies (#[trigger] children@[j]).1.wf() by {
                                let p = names::rank(before, listed.name@);
                                if j != p {
                                    assert(children@[j] == if names::has_name(before, listed.name@) || j < p {
                                        before[j]
                                    } else {
                                        before[j - 1]
                                    });
                                }
                            }
                        },
                    }
                }
                assert forall|skip: spec_fn(Seq<char>) -> bool| #[trigger]
                    decides(*exclude, skip) implies children_at(entries@, root@, skip, cs, (i + 1) as nat) == Ok::<
                    Seq<(Seq<char>, Tree)>,
                    ScanError,
                >(merkle::children_model(children@)) by {
                    assert(children_at(entries@, root@, skip, cs, i as nat) == Ok::<Seq<(Seq<char>, Tree)>, ScanError>(
                        merkle::children_model(before),
                    ));
                }
                i = i + 1;
            }
            let ghost given = children;
            let n = dir_node(children);
            proof {
                assert(n.wf()) by {
                    let t = merkle::children_model(given@);
                    names::lemma_with_values(given@, |n: Node| n.model(), Seq::empty(), arbitrary());
                    assert forall|j: int| 0 <= j < t.len() implies merkle::ordered((#[trigger] t[j]).1) by {
                        assert(given@[j].1.wf());
                    }
                }
            }
            Ok(n)
        },
    }
}

/// Every hash in what was scanned before is the hash of what it stands for.
pub open spec fn scanned_hashed(entry: DiskEntry) -> bool
    decreases entry,
{
    match entry {
        DiskEntry::Directory(entries) => forall|i: int|
            0 <= i < entries@.len() ==> scanned_hashed((#[trigger] entries@[i]).entry),
        DiskEntry::Scanned(node) => merkle::hashed(node.model()),
        _ => true,
    }
}

/// A scanned tree has its names in order and every hash right.
pub proof fn lemma_tree_at_hashed(entry: DiskEntry, at: Seq<char>, skip: spec_fn(Seq<char>) -> bool, chunk_size: nat)
    requires
        entry.wf(),
        scanned_hashed(entry),
    ensures
        tree_at(entry, at, skip, chunk_size) matches Ok(t) ==> merkle::ordered(t) && merkle::hashed(t),
    decreases entry, 0nat,
{
    if let DiskEntry::Directory(entries) = entry {
        lemma_children_at_hashed(entries@, at, skip, chunk_size, entries@.len());
    }
}

proof fn lemma_children_at_hashed(
    entries: Seq<Listed>,
    at: Seq<char>,
    skip: spec_fn(Seq<char>) -> bool,
    chunk_size: nat,
    n: nat,
)
    requires
        n <= entries.len(),
        forall|i: int| 0 <= i < entries.len() ==> (#[trigger] entries[i]).entry.wf(),
        forall|i: int| 0 <= i < entries.len() ==> scanned_hashed((#[trigger] entries[i]).entry),
    ensures
        children_at(entries, at, skip, chunk_size, n) matches Ok(children) ==> {
            &&& names::in_order(children)
            &&& forall|i: int|
                0 <= i < children.len() ==> merkle::ordered((#[trigger] children[i]).1) && merkle::hashed(children[i].1)
        },
    decreases entries, n,
{
    if n > 0 {
        lemma_children_at_hashed(entries, at, skip, chunk_size, (n - 1) as nat);
        let listed = entries[n - 1];
        let here = path::join_text(at, listed.name@);
        lemma_tree_at_hashed(listed.entry, here, skip, chunk_size);
        if let Ok(before) = children_at(entries, at, skip, chunk_size, (n - 1) as nat) {
            if let Ok(t) = tree_at(listed.entry, here, skip, chunk_size) {
                let k = listed.name@;
                let after = names::put(before, k, t);
                names::lemma_put_in_order(before, k, t);
                names::lemma_has_at_rank(before, k);
                let p = names::rank(before, k);
                assert forall|i: int| 0 <= i < after.len() implies merkle::ordered((#[trigger] after[i]).1)
                    && merkle::hashed(after[i].1) by {
                    if i != p {
                        assert(after[i] == if names::has_name(before, k) || i < p {
                            before[i]
                        } else {
                            before[i - 1]
                        });
                    }
                }
            }
        }
    }
}

/// A directory can be scanned in steps: an entry whose own tree stands in its place changes nothing.
pub proof fn lemma_scan_in_steps(
    entries: Seq<Listed>,
    at: Seq<char>,
    skip: spec_fn(Seq<char>) -> bool,
    chunk_size: nat,
    n: nat,
    k: int,
    node: Node,
)
    requires
        0 <= k < entries.len(),
        n <= entries.len(),
        !(entries[k].entry is Symlink),
        tree_at(entries[k].entry, path::join_text(at, entries[k].name@), skip, chunk_size) == Ok::<Tree, ScanError>(
            node.model(),
        ),
    ensures
        children_at(
            entries.update(k, Listed { entry: DiskEntry::Scanned(node), ..entries[k] }),
            at,
            skip,
            chunk_size,
            n,
        ) == children_at(entries, at, skip, chunk_size, n),
    decreases n,
{
    if n > 0 {
        lemma_scan_in_steps(entries, at, skip, chunk_size, (n - 1) as nat, k, node);
        let step = Listed { entry: DiskEntry::Scanned(node), ..entries[k] };
        let other = entries.update(k, step);
        assert(step.name == entries[k].name && step.is_utf8 == entries[k].is_utf8);
        assert(tree_at(step.entry, path::join_text(at, step.name@), skip, chunk_size) == Ok::<Tree, ScanError>(
            node.model(),
        ));
        assert(other[n - 1] == if n - 1 == k { step } else { entries[n - 1] });
    }
}

/// What is skipped leaves no trace: without that entry the directory is the same.
pub proof fn lemma_skipped_leaves_no_trace(
    entries: Seq<Listed>,
    at: Seq<char>,
    skip: spec_fn(Seq<char>) -> bool,
    chunk_size: nat,
    n: nat,
    k: int,
)
    requires
        0 <= k < n <= entries.len(),
        entries[k].entry is Symlink || skip(path::join_text(at, entries[k].name@)),
    ensures
        children_at(entries.remove(k), at, skip, chunk_size, (n - 1) as nat) == children_at(
            entries,
            at,
            skip,
            chunk_size,
            n,
        ),
    decreases n,
{
    if n == k + 1 {
        lemma_same_beginning(entries.remove(k), entries, at, skip, chunk_size, k as nat);
    } else {
        lemma_skipped_leaves_no_trace(entries, at, skip, chunk_size, (n - 1) as nat, k);
        assert(entries.remove(k)[n - 2] == entries[n - 1]);
    }
}

/// Directories that begin with the same entries make the same first children.
proof fn lemma_same_beginning(
    a: Seq<Listed>,
    b: Seq<Listed>,
    at: Seq<char>,
    skip: spec_fn(Seq<char>) -> bool,
    chunk_size: nat,
    n: nat,
)
    requires
        n <= a.len(),
        n <= b.len(),
        forall|i: int| 0 <= i < n ==> a[i] == b[i],
    ensures
        children_at(a, at, skip, chunk_size, n) == children_at(b, at, skip, chunk_size, n),
    decreases n,
{
    if n > 0 {
        lemma_same_beginning(a, b, at, skip, chunk_size, (n - 1) as nat);
        assert(a[n - 1] == b[n - 1]);
    }
}

} // verus!
