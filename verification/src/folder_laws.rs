//! From the disk to the tree, and from the tree of a peer to what is fetched.

use vstd::prelude::*;

use crate::chunk;
use crate::config::StorageConfig;
use crate::conflict;
use crate::conflict::PeerId;
use crate::hash;
use crate::inbound;
use crate::inbound::Answer;
use crate::index;
use crate::index::SyncIndex;
use crate::merkle;
use crate::merkle::{Change, Node, Tree};
use crate::names;
use crate::network;
use crate::path;
use crate::protocol::{SyncRequest, SyncResponse};
use crate::reconcile;
use crate::reconcile::{HashStep, ItemModel, ReconcilePlan};
use crate::scan;
use crate::scan::{DiskEntry, Listed, ScanError, Visit};
use crate::sync_engine;
use crate::sync_engine::{EventModel, RemoteOrigin, SyncEvent};
use crate::text;
use crate::transfer;
use crate::transfer::Admission;

verus! {

broadcast use vstd::seq::group_seq_axioms;

/// A scan looks into everything but links and what is excluded; and it fails on a name that cannot be used
/// only where it would have looked.
pub proof fn lemma_what_a_scan_looks_into(is_symlink: bool, is_excluded: bool, is_utf8: bool)
    ensures
        scan::visit_of(is_symlink, is_excluded, is_utf8) == Visit::Leave <==> is_symlink || is_excluded,
        scan::visit_of(is_symlink, is_excluded, is_utf8) == Visit::Enter <==> !is_symlink && !is_excluded && is_utf8,
        scan::visit_of(is_symlink, is_excluded, is_utf8) == Visit::Refuse <==> !is_symlink && !is_excluded && !is_utf8,
{
}

/// Whether a scan looks into an entry of a directory.
pub open spec fn looked_into(listed: Listed, at: Seq<char>, skip: spec_fn(Seq<char>) -> bool) -> bool {
    !(listed.entry is Symlink) && !skip(path::join_text(at, listed.name@))
}

/// Whether the tree of an entry of a directory stands among the children, under the name of the entry.
pub open spec fn is_among(
    listed: Listed,
    at: Seq<char>,
    skip: spec_fn(Seq<char>) -> bool,
    chunk_size: nat,
    children: Seq<(Seq<char>, Tree)>,
) -> bool {
    match scan::tree_at(listed.entry, path::join_text(at, listed.name@), skip, chunk_size) {
        Ok(t) => names::lookup(children, listed.name@) == Some(t),
        Err(_) => false,
    }
}

/// Every file and directory on disk that is neither a link nor excluded is in the tree, under its name and
/// with its content; and nothing else is.
pub proof fn lemma_every_entry_is_scanned(
    entries: Seq<Listed>,
    at: Seq<char>,
    skip: spec_fn(Seq<char>) -> bool,
    chunk_size: nat,
    n: nat,
    k: Seq<char>,
)
    requires
        n <= entries.len(),
        forall|i: int, j: int|
            0 <= i < j < entries.len() ==> (#[trigger] entries[i]).name@ != (#[trigger] entries[j]).name@,
    ensures
        scan::children_at(entries, at, skip, chunk_size, n) matches Ok(children) ==> {
            &&& names::in_order(children)
            &&& forall|i: int|
                0 <= i < n && looked_into(#[trigger] entries[i], at, skip) ==> is_among(
                    entries[i],
                    at,
                    skip,
                    chunk_size,
                    children,
                )
            &&& names::has_name(children, k) ==> exists|i: int|
                0 <= i < n && (#[trigger] entries[i]).name@ == k && looked_into(entries[i], at, skip)
        },
    decreases n,
{
    if n > 0 {
        lemma_every_entry_is_scanned(entries, at, skip, chunk_size, (n - 1) as nat, k);
        let listed = entries[n - 1];
        let here = path::join_text(at, listed.name@);
        if let Ok(before) = scan::children_at(entries, at, skip, chunk_size, (n - 1) as nat) {
            if looked_into(listed, at, skip) {
                if let Ok(t) = scan::tree_at(listed.entry, here, skip, chunk_size) {
                    let after = names::put(before, listed.name@, t);
                    names::lemma_put_in_order(before, listed.name@, t);
                    if listed.is_utf8 {
                        assert(scan::children_at(entries, at, skip, chunk_size, n) == Ok::<
                            Seq<(Seq<char>, Tree)>,
                            ScanError,
                        >(after));
                        assert forall|i: int| 0 <= i < n && looked_into(#[trigger] entries[i], at, skip) implies is_among(
                            entries[i],
                            at,
                            skip,
                            chunk_size,
                            after,
                        ) by {
                            names::lemma_lookup_put(before, listed.name@, t, entries[i].name@);
                            if i < n - 1 {
                                assert(is_among(entries[i], at, skip, chunk_size, before));
                                assert(entries[i].name@ != entries[n - 1].name@);
                            }
                        }
                        names::lemma_lookup_put(before, listed.name@, t, k);
                        if names::has_name(after, k) {
                            if k == listed.name@ {
                                assert(entries[n - 1].name@ == k);
                            } else {
                                assert(names::lookup(before, k) is Some);
                            }
                        }
                    }
                }
            }
        }
    }
}

/// A file on disk is the file in the tree, and a directory that can be scanned is the directory of its
/// children. What was scanned before is taken as it is, and a link in place of the folder is an empty one.
pub proof fn lemma_what_is_scanned_is_what_is_there(
    data: Vec<u8>,
    node: Node,
    entries: Vec<Listed>,
    at: Seq<char>,
    skip: spec_fn(Seq<char>) -> bool,
    chunk_size: nat,
)
    ensures
        scan::tree_at(DiskEntry::File(data), at, skip, chunk_size) == Ok::<Tree, ScanError>(
            merkle::file_tree(data@, chunk_size),
        ),
        scan::tree_at(DiskEntry::Symlink, at, skip, chunk_size) matches Ok(t) && t is Directory && t->children.len() == 0,
        scan::tree_at(DiskEntry::Scanned(node), at, skip, chunk_size) == Ok::<Tree, ScanError>(node.model()),
        scan::children_at(entries@, at, skip, chunk_size, entries@.len()) matches Ok(children) ==> (scan::tree_at(
            DiskEntry::Directory(entries),
            at,
            skip,
            chunk_size,
        ) matches Ok(t) && t is Directory && t->children == children && merkle::tree_hash(t) == merkle::dir_digest(
            children,
        )),
        scan::children_at(entries@, at, skip, chunk_size, entries@.len()) is Err ==> scan::tree_at(
            DiskEntry::Directory(entries),
            at,
            skip,
            chunk_size,
        ) is Err,
{
}

/// A directory with a name that is no UTF-8, on anything that is looked into, cannot be scanned.
pub proof fn lemma_a_name_that_cannot_be_read_is_an_error(
    entries: Seq<Listed>,
    at: Seq<char>,
    skip: spec_fn(Seq<char>) -> bool,
    chunk_size: nat,
    n: nat,
    i: int,
)
    requires
        0 <= i < n <= entries.len(),
        looked_into(entries[i], at, skip),
        !entries[i].is_utf8,
    ensures
        scan::children_at(entries, at, skip, chunk_size, n) == Err::<Seq<(Seq<char>, Tree)>, ScanError>(
            ScanError::NonUtf8Filename,
        ),
    decreases n,
{
    if i < n - 1 {
        lemma_a_name_that_cannot_be_read_is_an_error(entries, at, skip, chunk_size, (n - 1) as nat, i);
    } else {
        let e = scan::children_at(entries, at, skip, chunk_size, (n - 1) as nat);
        if e is Err {
            assert(e->Err_0 == ScanError::NonUtf8Filename);
        }
    }
}

/// The sizes of files together.
pub open spec fn sum_of_sizes(items: Seq<ItemModel>) -> nat
    decreases items.len(),
{
    if items.len() == 0 {
        0
    } else {
        sum_of_sizes(items.drop_last()) + items.last().size as nat
    }
}

proof fn lemma_sums_add_up(a: Seq<ItemModel>, b: Seq<ItemModel>)
    ensures
        sum_of_sizes(a + b) == sum_of_sizes(a) + sum_of_sizes(b),
    decreases b.len(),
{
    if b.len() == 0 {
        assert(a + b =~= a);
    } else {
        lemma_sums_add_up(a, b.drop_last());
        assert((a + b).drop_last() =~= a + b.drop_last());
    }
}

/// The size of a folder is that of all its files together, each counted once.
pub proof fn lemma_the_size_of_a_folder(t: Tree, base: Seq<char>)
    ensures
        index::total_bytes(t) == sum_of_sizes(reconcile::files_of(t, base)),
    decreases t, 0nat,
{
    match t {
        Tree::File { size, chunks, .. } => {
            let item = ItemModel { path: base, size, chunks };
            let items = reconcile::files_of(t, base);
            assert(items =~= seq![item]);
            assert(items.drop_last() =~= Seq::<ItemModel>::empty());
            assert(sum_of_sizes(items.drop_last()) == 0);
            assert(items.last() == item);
        },
        Tree::Directory { children, .. } => {
            lemma_the_size_under(children, base, children.len());
        },
    }
}

proof fn lemma_the_size_under(children: Seq<(Seq<char>, Tree)>, base: Seq<char>, n: nat)
    requires
        n <= children.len(),
    ensures
        index::children_bytes(children, n) == sum_of_sizes(reconcile::files_under(children, base, n)),
    decreases children, n,
{
    if n > 0 {
        let here = path::join_text(base, children[n - 1].0);
        lemma_the_size_under(children, base, (n - 1) as nat);
        lemma_the_size_of_a_folder(children[n - 1].1, here);
        lemma_sums_add_up(
            reconcile::files_under(children, base, (n - 1) as nat),
            reconcile::files_of(children[n - 1].1, here),
        );
    }
}

/// The number of files that is shown is the number of files, as long as it can be counted.
pub proof fn lemma_the_number_of_files(t: Tree, base: Seq<char>)
    ensures
        reconcile::file_total(t) <= usize::MAX ==> index::counted(reconcile::file_total(t)) == reconcile::files_of(
            t,
            base,
        ).len(),
        reconcile::file_total(t) > usize::MAX ==> index::counted(reconcile::file_total(t)) == usize::MAX,
{
    reconcile::lemma_files_are_counted(t, base);
}

/// The size of a file in the tree is that of its content.
pub proof fn lemma_the_size_of_a_file(data: Seq<u8>, chunk_size: nat)
    requires
        data.len() <= u64::MAX,
    ensures
        merkle::file_tree(data, chunk_size) matches Tree::File { size, chunks, hash } && size == data.len() && chunks
            == chunk::metas_of(data, chunk_size) && hash == chunk::file_digest(chunks),
        index::total_bytes(merkle::file_tree(data, chunk_size)) == data.len(),
{
}

/// Two folders are in sync exactly where their root hashes are the same; then nothing is fetched, and the
/// user and the download are told so. Else the tree of the peer is asked for.
pub proof fn lemma_in_sync_where_the_hashes_are_the_same(
    theirs: [u8; 32],
    ours: &[u8; 32],
    peer: &str,
    step: HashStep,
)
    requires
        call_ensures(reconcile::after_root_hash, (&SyncResponse::RootHash { hash: theirs }, ours, peer), step),
    ensures
        step is InSync <==> theirs@ == ours@,
        step is AskTree <==> theirs@ != ours@,
        step matches HashStep::InSync(events) ==> sync_engine::events_model(events@).contains(
            EventModel::ReconciliationComplete { peer: peer@, files_synced: 0 },
        ),
{
    let response = SyncResponse::RootHash { hash: theirs };
    assert(response@ is RootHash);
    if let HashStep::InSync(events) = step {
        assert(sync_engine::events_model(events@)[1] == EventModel::ReconciliationComplete {
            peer: peer@,
            files_synced: 0,
        });
    }
}

/// The differences bring their files one by one: what is new or modified is fetched with all that stands
/// below it, by a peer that pulls; what is gone at the peer brings nothing.
pub proof fn lemma_differences_bring_their_files(changes: Seq<Change>, c: Change, no_pull: bool)
    ensures
        reconcile::brought(Seq::empty(), no_pull) == Seq::<ItemModel>::empty(),
        reconcile::brought(changes.push(c), no_pull) == reconcile::brought(changes, no_pull) + match c {
            Change::Added(p, t) => if no_pull {
                Seq::empty()
            } else {
                reconcile::files_of(t, p)
            },
            Change::Modified(p, _, t) => if no_pull {
                Seq::empty()
            } else {
                reconcile::files_of(t, p)
            },
            Change::Removed(..) => Seq::empty(),
        },
{
    assert(changes.push(c).drop_last() =~= changes);
}

/// A reconciliation with the tree of a peer fetches the files that the differences bring, and counts them.
pub proof fn lemma_a_reconciliation_fetches_what_differs(
    theirs: Node,
    ours: &Node,
    no_pull: bool,
    plan: Option<ReconcilePlan>,
)
    requires
        ours.wf(),
        theirs.wf(),
        call_ensures(reconcile::plan_reconcile, (SyncResponse::Tree { tree: theirs }, ours, no_pull), plan),
    ensures
        plan matches Some(p) && reconcile::items_model(p.items@) == reconcile::brought(
            merkle::tree_diff(ours.model(), theirs.model(), Seq::empty()),
            no_pull,
        ) && p.files_synced == p.items@.len(),
{
    let response = SyncResponse::Tree { tree: theirs };
    assert(response@ is WholeTree);
}

/// What ends a reconciliation tells with whom it was, and how many files were fetched.
pub proof fn lemma_the_end_of_a_reconciliation(peer: &str, files_synced: usize, events: Vec<SyncEvent>)
    requires
        call_ensures(reconcile::finish_reconcile, (peer, files_synced), events),
    ensures
        sync_engine::events_model(events@).last() == (EventModel::ReconciliationComplete { peer: peer@, files_synced }),
{
}

/// A peer takes a file exactly where it would serve it: what may not be served is not fetched either.
pub proof fn lemma_what_is_fetched_could_be_served(
    index: &SyncIndex,
    root: &str,
    path: &str,
    admission: Admission,
    source: String,
    chunk_indices: Vec<usize>,
    answer: Answer,
)
    requires
        index.wf(),
        source@ == path@,
        call_ensures(transfer::admit_fetch, (index, root, path), admission),
        call_ensures(
            inbound::answer_request,
            (SyncRequest::GetChunks { path: source, chunk_indices }, index, root),
            answer,
        ),
    ensures
        admission is Admitted <==> answer is ReadFile,
        admission is Refused <==> !sync_engine::is_safe(path@),
        admission matches Admission::Admitted { abs_path } ==> answer->abs_path@ == abs_path@,
{
    let request = SyncRequest::GetChunks { path: source, chunk_indices };
    assert(request@ is Chunks);
}

/// A path from a peer leads to the place below the root exactly where it may be used.
pub proof fn lemma_a_safe_path_leads_below_the_root(root: &str, rel: &str, r: Option<String>)
    requires
        call_ensures(sync_engine::safe_path, (root, rel), r),
    ensures
        r is Some <==> sync_engine::is_safe(rel@),
        r matches Some(p) ==> path::parts(p@) == path::parts(root@) + path::parts(rel@),
{
    if r is Some {
        path::lemma_join_parts(root@, rel@);
    }
}

/// Two hashes are the same where all their bytes are.
pub proof fn lemma_hashes_are_compared_in_full(a: &[u8; 32], b: &[u8; 32], r: bool)
    requires
        call_ensures(hash::same_hash, (a, b), r),
    ensures
        r <==> forall|i: int| 0 <= i < 32 ==> #[trigger] a@[i] == b@[i],
{
    if forall|i: int| 0 <= i < 32 ==> #[trigger] a@[i] == b@[i] {
        assert(a@ =~= b@);
    }
}

/// The index of a folder that was just scanned knows every file, as new, and remembers no deletion.
pub proof fn lemma_a_new_index_knows_every_file(
    found: &DiskEntry,
    root: &str,
    local_peer: PeerId,
    exclude_patterns: Vec<String>,
    storage: &StorageConfig,
    r: Result<SyncIndex, ScanError>,
    k: Seq<char>,
)
    requires
        found.wf(),
        storage.chunk_size > 0,
        call_ensures(SyncIndex::build, (found, root, local_peer, exclude_patterns, storage), r),
    ensures
        r matches Ok(ix) ==> {
            &&& names::has_name(ix.file_meta@, k) <==> index::is_file_key(ix@.tree, Seq::empty(), k)
            &&& names::lookup(ix.file_meta@, k) matches Some(m) ==> m.clock@ == Map::<PeerId, u64>::empty()
                && m.last_modified_by == local_peer
            &&& ix@.tombstones.len() == 0
            &&& ix@.local_peer == local_peer
            &&& ix@.root_path == root@
            &&& ix@.exclude_patterns == text::texts(exclude_patterns@)
            &&& ix@.chunk_size == storage.chunk_size
            &&& ix@.tombstone_ttl_secs == storage.tombstone_ttl_secs
        },
{
    if let Ok(ix) = r {
        names::lemma_has_at_rank(ix.file_meta@, k);
        if names::has_name(ix.file_meta@, k) {
            let i = names::rank(ix.file_meta@, k);
            assert(index::is_new_meta(ix.file_meta@[i].1, local_peer));
        }
    }
}

/// What stands in a tree is found name by name: no names lead to the tree itself, and the first name leads to
/// the child of that name, where there is one.
pub proof fn lemma_nodes_are_found_name_by_name(t: Tree, k: Seq<char>, rest: Seq<Seq<char>>)
    ensures
        merkle::find(t, Seq::empty()) == Some(t),
        t is File ==> merkle::find(t, seq![k] + rest) is None,
        t is Directory ==> match names::lookup(t->children, k) {
            Some(c) => merkle::find(t, seq![k] + rest) == merkle::find(c, rest),
            None => merkle::find(t, seq![k] + rest) is None,
        },
{
    assert((seq![k] + rest).drop_first() =~= rest);
    assert((seq![k] + rest)[0] == k);
}

/// The size of a folder is told exactly where it can be counted.
pub proof fn lemma_the_size_is_told_where_it_can_be_counted(index: &SyncIndex, n: Option<u64>, base: Seq<char>)
    requires
        call_ensures(SyncIndex::checked_total_size, (index,), n),
    ensures
        n is Some <==> sum_of_sizes(reconcile::files_of(index@.tree, base)) <= u64::MAX,
        n matches Some(m) ==> m == sum_of_sizes(reconcile::files_of(index@.tree, base)),
{
    lemma_the_size_of_a_folder(index@.tree, base);
}

/// What is told once a folder is indexed is how many files it has, and how large they are together.
pub proof fn lemma_the_folder_is_told(index: &SyncIndex, event: SyncEvent, base: Seq<char>)
    requires
        index::total_bytes(index@.tree) <= u64::MAX,
        call_ensures(network::index_ready, (index,), event),
        reconcile::file_total(index@.tree) <= usize::MAX,
    ensures
        event@ matches EventModel::IndexReady { file_count, total_size } && file_count == reconcile::files_of(
            index@.tree,
            base,
        ).len() && total_size == sum_of_sizes(reconcile::files_of(index@.tree, base)),
{
    lemma_the_size_of_a_folder(index@.tree, base);
    lemma_the_number_of_files(index@.tree, base);
}

/// A file that is fetched in a reconciliation comes from the peer, with no history.
pub proof fn lemma_a_reconciled_file_has_no_history(
    peer: PeerId,
    origin: RemoteOrigin,
    p: PeerId,
)
    requires
        call_ensures(reconcile::reconcile_origin, (peer,), origin),
    ensures
        origin@.peer == peer,
        conflict::count(origin@.clock, p) == 0,
{
}

/// An index that is built of a folder has every entry that is neither a link nor excluded, with its content.
pub proof fn lemma_a_built_index_has_every_entry(
    entries: Vec<Listed>,
    found: &DiskEntry,
    root: &str,
    local_peer: PeerId,
    exclude_patterns: Vec<String>,
    storage: &StorageConfig,
    r: Result<SyncIndex, ScanError>,
    i: int,
)
    requires
        *found == DiskEntry::Directory(entries),
        found.wf(),
        storage.chunk_size > 0,
        call_ensures(SyncIndex::build, (found, root, local_peer, exclude_patterns, storage), r),
        forall|i: int, j: int|
            0 <= i < j < entries@.len() ==> (#[trigger] entries@[i]).name@ != (#[trigger] entries@[j]).name@,
        0 <= i < entries@.len(),
        !(entries@[i].entry is Symlink),
        !index::excluded(path::join_text(root@, entries@[i].name@), root@, text::texts(exclude_patterns@)),
    ensures
        r matches Ok(ix) ==> merkle::find(ix@.tree, seq![entries@[i].name@]) is Some,
        r matches Ok(ix) ==> (entries@[i].entry matches DiskEntry::File(data) ==> merkle::find(
            ix@.tree,
            seq![entries@[i].name@],
        ) == Some(merkle::file_tree(data@, storage.chunk_size as nat))),
        r is Ok ==> entries@[i].is_utf8,
{
    let skip = |p: Seq<char>| index::excluded(p, root@, text::texts(exclude_patterns@));
    let cs = storage.chunk_size as nat;
    let name = entries@[i].name@;
    lemma_every_entry_is_scanned(entries@, root@, skip, cs, entries@.len(), name);
    assert(looked_into(entries@[i], root@, skip));
    if let Ok(ix) = r {
        if !entries@[i].is_utf8 {
            lemma_a_name_that_cannot_be_read_is_an_error(entries@, root@, skip, cs, entries@.len(), i);
        }
        assert(scan::tree_at(*found, root@, skip, cs) == Ok::<Tree, ScanError>(ix@.tree));
        let children = scan::children_at(entries@, root@, skip, cs, entries@.len())->Ok_0;
        assert(is_among(entries@[i], root@, skip, cs, children));
        lemma_nodes_are_found_name_by_name(ix@.tree, name, Seq::empty());
        assert(seq![name] + Seq::<Seq<char>>::empty() =~= seq![name]);
        lemma_nodes_are_found_name_by_name(names::lookup(children, name)->0, name, Seq::empty());
    }
}

/// A tree that is made of a file on disk is made of all of it, in chunks of the default size.
pub proof fn lemma_the_default_chunk_size(data: Vec<u8>, found: &DiskEntry, root: &str, r: Result<Node, ScanError>)
    requires
        *found == DiskEntry::File(data),
        call_ensures(scan::from_path, (found, root), r),
    ensures
        r matches Ok(n) && n.model() == merkle::file_tree(data@, 262_144),
{
}

/// Where a name is stored twice, the later value stays.
pub proof fn lemma_later_entries_replace_earlier_ones<V>(s: Seq<(Seq<char>, V)>, k: Seq<char>, v: V)
    ensures
        names::put_all(Seq::<(Seq<char>, V)>::empty()) == Seq::<(Seq<char>, V)>::empty(),
        names::put_all(s.push((k, v))) == names::put(names::put_all(s), k, v),
{
    assert(s.push((k, v)).drop_last() =~= s);
}

/// A name that is stored is found, with its value and no other.
pub proof fn lemma_what_is_stored_is_found<V>(s: Seq<(Seq<char>, V)>, k: Seq<char>, v: V)
    requires
        names::in_order(s),
    ensures
        names::lookup(s, k) == Some(v) <==> s.contains((k, v)),
        names::lookup(s, k) is Some <==> exists|i: int| 0 <= i < s.len() && (#[trigger] s[i]).0 == k,
{
    names::lemma_has_at_rank(s, k);
    if s.contains((k, v)) {
        let i = choose|i: int| 0 <= i < s.len() && s[i] == (k, v);
        names::lemma_lookup_at(s, i);
    }
    if names::lookup(s, k) == Some(v) {
        assert(s[names::rank(s, k)] == (k, v));
    }
}

/// The files of a directory are listed child by child, in the order of the children.
pub proof fn lemma_files_are_listed_child_by_child(
    children: Seq<(Seq<char>, Tree)>,
    name: Seq<char>,
    child: Tree,
    base: Seq<char>,
    hash: Seq<u8>,
    other_hash: Seq<u8>,
)
    ensures
        reconcile::files_of(Tree::Directory { hash, children: Seq::empty() }, base) == Seq::<ItemModel>::empty(),
        reconcile::files_of(Tree::Directory { hash, children: children.push((name, child)) }, base)
            == reconcile::files_of(Tree::Directory { hash: other_hash, children }, base) + reconcile::files_of(
            child,
            path::join_text(base, name),
        ),
{
    let more = children.push((name, child));
    lemma_same_first_children(children, more, base, children.len());
    assert(more[more.len() - 1] == (name, child));
}

proof fn lemma_same_first_children(
    a: Seq<(Seq<char>, Tree)>,
    b: Seq<(Seq<char>, Tree)>,
    base: Seq<char>,
    n: nat,
)
    requires
        n <= a.len(),
        n <= b.len(),
        forall|i: int| 0 <= i < n ==> a[i] == b[i],
    ensures
        reconcile::files_under(a, base, n) == reconcile::files_under(b, base, n),
    decreases n,
{
    if n > 0 {
        lemma_same_first_children(a, b, base, (n - 1) as nat);
        assert(a[n - 1] == b[n - 1]);
    }
}

/// What the user is told of a reconciliation: with whom it is, how much differs, how it ended, or why it
/// failed.
pub proof fn lemma_what_is_told_of_a_reconciliation(
    peer: &str,
    error: &str,
    root: &str,
    files_synced: usize,
    start: SyncEvent,
    end: Vec<SyncEvent>,
    failed: SyncEvent,
    indexing: SyncEvent,
    theirs: Node,
    ours: &Node,
    no_pull: bool,
    plan: Option<ReconcilePlan>,
)
    requires
        call_ensures(reconcile::start_reconcile, (peer,), start),
        call_ensures(reconcile::finish_reconcile, (peer, files_synced), end),
        call_ensures(reconcile::reconcile_failed, (error,), failed),
        call_ensures(network::indexing, (root,), indexing),
        ours.wf(),
        theirs.wf(),
        call_ensures(reconcile::plan_reconcile, (SyncResponse::Tree { tree: theirs }, ours, no_pull), plan),
    ensures
        start@ == EventModel::Log("reconciling with "@ + peer@),
        failed@ == EventModel::Log("reconciliation failed: "@ + error@),
        indexing@ == EventModel::Log("indexing "@ + root@),
        sync_engine::events_model(end@)[0] == EventModel::Log(
            "reconciliation with "@ + peer@ + " complete ("@ + text::decimal_text(files_synced as nat) + " files)"@,
        ),
        plan matches Some(p) && p.log@ == EventModel::Log(
            "found "@ + text::decimal_text(merkle::tree_diff(ours.model(), theirs.model(), Seq::empty()).len())
                + " differences"@,
        ),
{
    let response = SyncResponse::Tree { tree: theirs };
    assert(response@ is WholeTree);
}

/// A peer that answers something else than was asked for is neither in sync nor reconciled with.
pub proof fn lemma_unexpected_answers_lead_nowhere(
    message: String,
    ours: &[u8; 32],
    peer: &str,
    step: HashStep,
    tree: &Node,
    no_pull: bool,
    plan: Option<ReconcilePlan>,
)
    requires
        tree.wf(),
        call_ensures(reconcile::after_root_hash, (&SyncResponse::Error { message }, ours, peer), step),
        call_ensures(reconcile::plan_reconcile, (SyncResponse::Error { message }, tree, no_pull), plan),
    ensures
        step is Unexpected,
        plan is None,
{
    let response = SyncResponse::Error { message };
    assert(response@ is Failure);
}

} // verus!
