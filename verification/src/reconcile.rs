//! Bringing two folders together: from the root hash of the peer to the files that are fetched.

use vstd::prelude::*;

use crate::chunk;
use crate::chunk::ChunkMeta;
use crate::conflict::{PeerId, VectorClock};
use crate::diff_laws;
use crate::hash::same_hash;
use crate::merkle;
use crate::merkle::{Change, DiffEntry, Node, Tree, diff};
use crate::names;
use crate::path;
use crate::protocol::{ResponseModel, SyncResponse};
use crate::sync_engine;
use crate::sync_engine::{EventModel, OriginModel, RemoteOrigin, SyncEvent};
use crate::text;
use crate::tree_laws;
use crate::util::now_secs;

verus! {

broadcast use {
    crate::names::lemma_value_smaller,
    vstd::string::group_string_axioms,
    vstd::seq::group_seq_axioms,
};

/// A file that is fetched: where it goes, its size and its chunks.
pub struct FetchItem {
    pub path: String,
    pub size: u64,
    pub chunks: Vec<ChunkMeta>,
}

/// A file that is fetched, as a value of specifications.
#[verifier::ext_equal]
pub ghost struct ItemModel {
    pub path: Seq<char>,
    pub size: u64,
    pub chunks: Seq<chunk::Meta>,
}

impl View for FetchItem {
    type V = ItemModel;

    open spec fn view(&self) -> ItemModel {
        ItemModel { path: self.path@, size: self.size, chunks: chunk::metas_view(self.chunks@) }
    }
}

/// What a list of files says.
pub open spec fn items_model(v: Seq<FetchItem>) -> Seq<ItemModel> {
    v.map_values(|i: FetchItem| i@)
}

/// The files of a tree that stands at `base`, in the order of the names.
pub open spec fn files_of(t: Tree, base: Seq<char>) -> Seq<ItemModel>
    decreases t, 0nat,
{
    match t {
        Tree::File { size, chunks, .. } => seq![ItemModel { path: base, size, chunks }],
        Tree::Directory { children, .. } => files_under(children, base, children.len()),
    }
}

/// The files under the first `n` children.
pub open spec fn files_under(children: Seq<(Seq<char>, Tree)>, base: Seq<char>, n: nat) -> Seq<ItemModel>
    decreases children, n,
{
    if n == 0 || n > children.len() {
        Seq::empty()
    } else {
        files_under(children, base, (n - 1) as nat) + files_of(
            children[n - 1].1,
            path::join_text(base, children[n - 1].0),
        )
    }
}

/// How many files a tree has.
pub open spec fn file_total(t: Tree) -> nat
    decreases t, 0nat,
{
    match t {
        Tree::File { .. } => 1,
        Tree::Directory { children, .. } => file_total_under(children, children.len()),
    }
}

/// How many files the first `n` children have.
pub open spec fn file_total_under(children: Seq<(Seq<char>, Tree)>, n: nat) -> nat
    decreases children, n,
{
    if n == 0 || n > children.len() {
        0
    } else {
        file_total_under(children, (n - 1) as nat) + file_total(children[n - 1].1)
    }
}

/// Every file of a tree is fetched once.
pub proof fn lemma_files_are_counted(t: Tree, base: Seq<char>)
    ensures
        files_of(t, base).len() == file_total(t),
    decreases t, 0nat,
{
    if let Tree::Directory { children, .. } = t {
        lemma_files_under_are_counted(children, base, children.len());
    }
}

proof fn lemma_files_under_are_counted(children: Seq<(Seq<char>, Tree)>, base: Seq<char>, n: nat)
    requires
        n <= children.len(),
    ensures
        files_under(children, base, n).len() == file_total_under(children, n),
    decreases children, n,
{
    if n > 0 {
        lemma_files_under_are_counted(children, base, (n - 1) as nat);
        lemma_files_are_counted(children[n - 1].1, path::join_text(base, children[n - 1].0));
    }
}

/// The files that one difference brings: those of what is new or modified. A peer that does not pull
/// fetches nothing.
pub open spec fn brought_by(c: Change, no_pull: bool) -> Seq<ItemModel> {
    match c {
        Change::Added(p, t) if !no_pull => files_of(t, p),
        Change::Modified(p, _, t) if !no_pull => files_of(t, p),
        _ => Seq::empty(),
    }
}

/// The files that differences bring, in their order.
pub open spec fn brought(changes: Seq<Change>, no_pull: bool) -> Seq<ItemModel>
    decreases changes.len(),
{
    if changes.len() == 0 {
        Seq::empty()
    } else {
        brought(changes.drop_last(), no_pull) + brought_by(changes.last(), no_pull)
    }
}

/// Adds the files of a node that stands at `base`.
fn collect_files(node: &Node, base: &str, out: &mut Vec<FetchItem>)
    ensures
        items_model(final(out)@) == items_model(old(out)@) + files_of(node.model(), base@),
    decreases node,
{
    let ghost start = items_model(out@);
    match node {
        Node::File { size, chunks, .. } => {
            let copy = chunks.clone();
            assert(copy@ =~= chunks@);
            out.push(FetchItem { path: base.to_owned(), size: *size, chunks: copy });
            assert(items_model(out@) =~= start + files_of(node.model(), base@));
        },
        Node::Directory { children, hash } => {
            let ghost m = merkle::children_model(children@);
            proof {
                merkle::lemma_directory_model(*hash, *children);
            }
            let mut i: usize = 0;
            assert(items_model(out@) =~= start + files_under(m, base@, 0));
            while i < children.len()
                invariant
                    0 <= i <= children@.len(),
                    *node == (Node::Directory { hash: *hash, children: *children }),
                    m == merkle::children_model(children@),
                    items_model(out@) == start + files_under(m, base@, i as nat),
                decreases children@.len() - i,
            {
                let child = children.value_at(i);
                let child_path = path::join(base, children.name_at(i).as_str());
                assert(m[i as int] == (children@[i as int].0, child.model()));
                assert(decreases_to!(*node => *child)) by {
                    names::lemma_value_smaller(*children, i as int);
                    assert(decreases_to!(*node => node->children));
                }
                collect_files(child, child_path.as_str(), out);
                assert(items_model(out@) =~= start + files_under(m, base@, (i + 1) as nat));
                i = i + 1;
            }
        },
    }
}

/// How a reconciliation begins.
pub fn start_reconcile(peer: &str) -> (event: SyncEvent)
    ensures
        event@ == EventModel::Log("reconciling with "@ + peer@),
{
    SyncEvent::Log(text::joined("reconciling with ", peer))
}

/// What the root hash of a peer leads to.
pub enum HashStep {
    /// Both folders are the same.
    InSync(Vec<SyncEvent>),
    /// The tree of the peer is asked for.
    AskTree,
    /// The peer answered something else.
    Unexpected,
}

/// Compares the root hash of a peer with that of the local tree.
pub fn after_root_hash(response: &SyncResponse, local_hash: &[u8; 32], peer: &str) -> (r: HashStep)
    ensures
        match response@ {
            ResponseModel::RootHash { hash } => if hash == local_hash@ {
                r matches HashStep::InSync(events) && sync_engine::events_model(events@) == seq![
                    EventModel::Log("already in sync"@),
                    EventModel::ReconciliationComplete { peer: peer@, files_synced: 0 },
                ]
            } else {
                r is AskTree
            },
            _ => r is Unexpected,
        },
{
    match response {
        SyncResponse::RootHash { hash } => {
            if same_hash(hash, local_hash) {
                let events: Vec<SyncEvent> = vec![
                    SyncEvent::Log("already in sync".to_owned()),
                    SyncEvent::ReconciliationComplete { peer: peer.to_owned(), files_synced: 0 },
                ];
                assert(sync_engine::events_model(events@) =~= seq![
                    EventModel::Log("already in sync"@),
                    EventModel::ReconciliationComplete { peer: peer@, files_synced: 0 },
                ]);
                HashStep::InSync(events)
            } else {
                HashStep::AskTree
            }
        },
        _ => HashStep::Unexpected,
    }
}

/// What a reconciliation does.
pub struct ReconcilePlan {
    /// What the user is told first.
    pub log: SyncEvent,
    /// The files that are fetched, in this order.
    pub items: Vec<FetchItem>,
    /// How many files that are.
    pub files_synced: usize,
}

/// Compares the tree of a peer with the local tree. None where the peer answered something else.
pub fn plan_reconcile(response: SyncResponse, local_tree: &Node, no_pull: bool) -> (r: Option<ReconcilePlan>)
    requires
        local_tree.wf(),
        response matches SyncResponse::Tree { tree } ==> tree.wf(),
    ensures
        match response@ {
            ResponseModel::WholeTree { tree } => {
                let changes = merkle::tree_diff(local_tree.model(), tree, Seq::empty());
                &&& r is Some
                &&& r->0.log@ == EventModel::Log("found "@ + text::decimal_text(changes.len()) + " differences"@)
                &&& items_model(r->0.items@) == brought(changes, no_pull)
                &&& r->0.files_synced == r->0.items@.len()
            },
            _ => r is None,
        },
{
    match response {
        SyncResponse::Tree { tree } => {
            let diffs = diff(local_tree, &tree);
            let ghost changes = merkle::changes(diffs@);
            let mut log = text::joined("found ", text::decimal(diffs.len() as u64).as_str());
            log.append(" differences");
            let mut items: Vec<FetchItem> = Vec::new();
            let mut i: usize = 0;
            assert(items_model(items@) =~= brought(changes.take(0), no_pull));
            while i < diffs.len()
                invariant
                    0 <= i <= diffs@.len(),
                    changes == merkle::changes(diffs@),
                    items_model(items@) == brought(changes.take(i as int), no_pull),
                decreases diffs@.len() - i,
            {
                let ghost upto = changes.take(i + 1);
                assert(upto.drop_last() =~= changes.take(i as int));
                assert(upto.last() == diffs@[i as int]@);
                match &diffs[i] {
                    DiffEntry::Added(path, node) => {
                        if !no_pull {
                            collect_files(node, path.as_str(), &mut items);
                        }
                    },
                    DiffEntry::Modified(path, _, node) => {
                        if !no_pull {
                            collect_files(node, path.as_str(), &mut items);
                        }
                    },
                    DiffEntry::Removed(_, _) => {},
                }
                assert(items_model(items@) =~= brought(upto, no_pull));
                i = i + 1;
            }
            assert(changes.take(changes.len() as int) =~= changes);
            let files_synced: usize = items.len();
            Some(ReconcilePlan { log: SyncEvent::Log(log), items, files_synced })
        },
        _ => None,
    }
}

/// How a reconciliation ends.
pub fn finish_reconcile(peer: &str, files_synced: usize) -> (events: Vec<SyncEvent>)
    ensures
        sync_engine::events_model(events@) == seq![
            EventModel::Log(
                "reconciliation with "@ + peer@ + " complete ("@ + text::decimal_text(files_synced as nat) + " files)"@,
            ),
            EventModel::ReconciliationComplete { peer: peer@, files_synced },
        ],
{
    let mut log = text::joined("reconciliation with ", peer);
    log.append(" complete (");
    log.append(text::decimal(files_synced as u64).as_str());
    log.append(" files)");
    let events: Vec<SyncEvent> = vec![
        SyncEvent::Log(log),
        SyncEvent::ReconciliationComplete { peer: peer.to_owned(), files_synced },
    ];
    assert(sync_engine::events_model(events@) =~= seq![
        EventModel::Log(
            "reconciliation with "@ + peer@ + " complete ("@ + text::decimal_text(files_synced as nat) + " files)"@,
        ),
        EventModel::ReconciliationComplete { peer: peer@, files_synced },
    ]);
    events
}

/// What the user is told where a reconciliation fails.
pub fn reconcile_failed(error: &str) -> (event: SyncEvent)
    ensures
        event@ == EventModel::Log("reconciliation failed: "@ + error@),
{
    SyncEvent::Log(text::joined("reconciliation failed: ", error))
}

/// The origin of a file that is fetched in a reconciliation: nothing is known of its history, and its
/// time is the present.
pub fn reconcile_origin(peer: PeerId) -> (origin: RemoteOrigin)
    ensures
        origin@ == (OriginModel { clock: Map::empty(), timestamp: origin.timestamp, peer }),
{
    RemoteOrigin { clock: VectorClock::new(), timestamp: now_secs(), peer }
}

/// What is planned tells the truth: every file that a tree lists is found in it, with the same size and
/// chunks.
pub proof fn lemma_files_are_found(t: Tree, base: Seq<char>, k: int)
    requires
        merkle::ordered(t),
        diff_laws::plain_names(t),
        0 <= k < files_of(t, base).len(),
    ensures
        ({
            let item = files_of(t, base)[k];
            let ns = path::path_names(item.path);
            let start = path::path_names(base);
            &&& tree_laws::begins_with(ns, start)
            &&& merkle::find(t, ns.skip(start.len() as int)) matches Some(Tree::File { size, chunks, .. })
                && size == item.size && chunks == item.chunks
        }),
    decreases t, 0nat,
{
    match t {
        Tree::File { .. } => {
            let start = path::path_names(base);
            assert(start.take(start.len() as int) =~= start);
            assert(start.skip(start.len() as int) =~= Seq::<Seq<char>>::empty());
        },
        Tree::Directory { children, .. } => {
            lemma_files_under_are_found(t, base, children.len(), k);
        },
    }
}

proof fn lemma_files_under_are_found(t: Tree, base: Seq<char>, n: nat, k: int)
    requires
        merkle::ordered(t),
        diff_laws::plain_names(t),
        t is Directory,
        n <= t->children.len(),
        0 <= k < files_under(t->children, base, n).len(),
    ensures
        ({
            let item = files_under(t->children, base, n)[k];
            let ns = path::path_names(item.path);
            let start = path::path_names(base);
            &&& tree_laws::begins_with(ns, start)
            &&& merkle::find(t, ns.skip(start.len() as int)) matches Some(Tree::File { size, chunks, .. })
                && size == item.size && chunks == item.chunks
        }),
    decreases t->children, n,
{
    let children = t->children;
    let before = files_under(children, base, (n - 1) as nat);
    if k < before.len() {
        lemma_files_under_are_found(t, base, (n - 1) as nat, k);
    } else {
        let name = children[n - 1].0;
        let child = children[n - 1].1;
        let here = path::join_text(base, name);
        let start = path::path_names(base);
        lemma_files_are_found(child, here, k - before.len());
        path::lemma_join_name(base, name);
        names::lemma_lookup_at(children, n - 1);
        let ns = path::path_names(files_under(children, base, n)[k].path);
        let more = start.push(name);
        assert(ns.take(more.len() as int)[start.len() as int] == name);
        assert(ns.take(start.len() as int) =~= ns.take(more.len() as int).take(start.len() as int));
        assert(more.take(start.len() as int) =~= start);
        let rel = ns.skip(start.len() as int);
        assert(rel[0] == name);
        assert(rel.drop_first() =~= ns.skip(more.len() as int));
    }
}

/// Where a file stands among those that differences bring.
proof fn lemma_brought_from(changes: Seq<Change>, k: int) -> (r: (int, int))
    requires
        0 <= k < brought(changes, false).len(),
    ensures
        0 <= r.0 < changes.len(),
        0 <= r.1 < brought_by(changes[r.0], false).len(),
        brought(changes, false)[k] == brought_by(changes[r.0], false)[r.1],
    decreases changes.len(),
{
    let before = brought(changes.drop_last(), false);
    if k < before.len() {
        let r = lemma_brought_from(changes.drop_last(), k);
        assert(changes[r.0] == changes.drop_last()[r.0]);
        r
    } else {
        (changes.len() - 1, k - before.len())
    }
}

/// A reconciliation fetches only what the peer has: every file that is planned is found in the tree of
/// the peer at its path, with the size and the chunks that are planned.
pub proof fn lemma_plan_is_truthful(local: Tree, remote: Tree, k: int)
    requires
        merkle::ordered(local),
        merkle::ordered(remote),
        diff_laws::plain_names(local),
        diff_laws::plain_names(remote),
        0 <= k < brought(merkle::tree_diff(local, remote, Seq::empty()), false).len(),
    ensures
        ({
            let item = brought(merkle::tree_diff(local, remote, Seq::empty()), false)[k];
            merkle::find(remote, path::path_names(item.path)) matches Some(Tree::File { size, chunks, .. })
                && size == item.size && chunks == item.chunks
        }),
{
    let root = Seq::<char>::empty();
    let d = merkle::tree_diff(local, remote, root);
    let (i, j) = lemma_brought_from(d, k);
    diff_laws::lemma_diff_truthful(local, remote, root);
    lemma_root_has_no_names();
    let c = d[i];
    assert(diff_laws::truthful(c, local, remote, path::path_names(root)));
    let at = path::path_names(diff_laws::change_path(c));
    assert(at.skip(0) =~= at);
    let t = match c {
        Change::Added(_, t) => t,
        Change::Modified(_, _, t) => t,
        Change::Removed(_, t) => t,
    };
    lemma_found_is_well_formed(remote, at);
    lemma_files_are_found(t, diff_laws::change_path(c), j);
    let item = brought(d, false)[k];
    let ns = path::path_names(item.path);
    lemma_find_in_steps(remote, at, ns.skip(at.len() as int));
    assert(at + ns.skip(at.len() as int) =~= ns);
}

/// The empty path has no names.
pub proof fn lemma_root_has_no_names()
    ensures
        path::path_names(Seq::<char>::empty()) == Seq::<Seq<char>>::empty(),
{
    let e = Seq::<char>::empty();
    let segs = path::segments(e);
    assert(segs =~= seq![e]);
    assert(segs.drop_last() =~= Seq::<Seq<char>>::empty());
    assert(segs.last() == e);
    assert(path::segment_parts(segs.drop_last()) =~= Seq::<path::Part>::empty());
    assert(path::segment_parts(segs) =~= Seq::<path::Part>::empty());
    assert(path::leading_part(e) =~= Seq::<path::Part>::empty()) by {
        assert(segs[0].len() == 0);
        assert(seq!['.'].len() == 1);
    }
    assert(path::parts(e) =~= Seq::<path::Part>::empty());
}

/// What is found in a well-formed tree is well-formed.
pub proof fn lemma_found_is_well_formed(t: Tree, ns: Seq<Seq<char>>)
    requires
        merkle::ordered(t),
        diff_laws::plain_names(t),
    ensures
        merkle::find(t, ns) matches Some(x) ==> merkle::ordered(x) && diff_laws::plain_names(x),
    decreases ns.len(),
{
    if ns.len() > 0 {
        if let Tree::Directory { children, .. } = t {
            names::lemma_has_at_rank(children, ns[0]);
            if let Some(child) = names::lookup(children, ns[0]) {
                lemma_found_is_well_formed(child, ns.drop_first());
            }
        }
    }
}

/// A node can be found in two steps.
pub proof fn lemma_find_in_steps(t: Tree, first: Seq<Seq<char>>, then: Seq<Seq<char>>)
    ensures
        merkle::find(t, first + then) == match merkle::find(t, first) {
            Some(x) => merkle::find(x, then),
            None => None,
        },
    decreases first.len(),
{
    if first.len() == 0 {
        assert(first + then =~= then);
    } else {
        assert((first + then).drop_first() =~= first.drop_first() + then);
        assert((first + then)[0] == first[0]);
        if let Tree::Directory { children, .. } = t {
            if let Some(child) = names::lookup(children, first[0]) {
                lemma_find_in_steps(child, first.drop_first(), then);
            }
        }
    }
}

/// A file of a tree is among those that the tree lists.
pub proof fn lemma_found_file_is_listed(t: Tree, base: Seq<char>, rel: Seq<Seq<char>>) -> (k: int)
    requires
        merkle::ordered(t),
        diff_laws::plain_names(t),
        merkle::find(t, rel) matches Some(f) && f is File,
    ensures
        0 <= k < files_of(t, base).len(),
        path::path_names(files_of(t, base)[k].path) == path::path_names(base) + rel,
    decreases rel.len(),
{
    match t {
        Tree::File { .. } => {
            assert(rel.len() == 0);
            assert(path::path_names(base) + rel =~= path::path_names(base));
            0
        },
        Tree::Directory { children, .. } => {
            assert(rel.len() > 0);
            names::lemma_has_at_rank(children, rel[0]);
            let j = names::rank(children, rel[0]);
            let here = path::join_text(base, rel[0]);
            path::lemma_join_name(base, rel[0]);
            let below = lemma_found_file_is_listed(children[j].1, here, rel.drop_first());
            assert(path::path_names(base).push(rel[0]) + rel.drop_first() =~= path::path_names(base) + rel);
            let at = lemma_files_under_hold_child(children, base, children.len(), j);
            at + below
        },
    }
}

/// Where the files of a child stand among those of the directory.
proof fn lemma_files_under_hold_child(children: Seq<(Seq<char>, Tree)>, base: Seq<char>, n: nat, j: int) -> (at: int)
    requires
        0 <= j < n <= children.len(),
    ensures
        0 <= at,
        ({
            let part = files_of(children[j].1, path::join_text(base, children[j].0));
            let all = files_under(children, base, n);
            &&& at + part.len() <= all.len()
            &&& forall|i: int| 0 <= i < part.len() ==> #[trigger] all[at + i] == part[i]
        }),
    decreases n,
{
    let before = files_under(children, base, (n - 1) as nat);
    if j == n - 1 {
        before.len() as int
    } else {
        let at = lemma_files_under_hold_child(children, base, (n - 1) as nat, j);
        let part = files_of(children[j].1, path::join_text(base, children[j].0));
        let all = files_under(children, base, n);
        assert forall|i: int| 0 <= i < part.len() implies #[trigger] all[at + i] == part[i] by {
            assert(all[at + i] == before[at + i]);
        }
        at
    }
}

/// Where the files of one difference stand among those of all.
proof fn lemma_brought_holds(changes: Seq<Change>, i: int) -> (at: int)
    requires
        0 <= i < changes.len(),
    ensures
        0 <= at,
        at + brought_by(changes[i], false).len() <= brought(changes, false).len(),
        forall|j: int|
            0 <= j < brought_by(changes[i], false).len() ==> #[trigger] brought(changes, false)[at + j]
                == brought_by(changes[i], false)[j],
    decreases changes.len(),
{
    let before = brought(changes.drop_last(), false);
    if i == changes.len() - 1 {
        before.len() as int
    } else {
        let at = lemma_brought_holds(changes.drop_last(), i);
        assert(changes.drop_last()[i] == changes[i]);
        let part = brought_by(changes[i], false);
        assert forall|j: int| 0 <= j < part.len() implies #[trigger] brought(changes, false)[at + j] == part[j] by {
            assert(brought(changes, false)[at + j] == before[at + j]);
        }
        at
    }
}

/// A reconciliation misses nothing: every file of the peer that the local tree does not have at its
/// path, with the same content, is planned.
pub proof fn lemma_plan_is_complete(local: Tree, remote: Tree, rel: Seq<Seq<char>>)
    requires
        merkle::ordered(local),
        merkle::ordered(remote),
        diff_laws::plain_names(local),
        diff_laws::plain_names(remote),
        diff_laws::no_collision(local, remote),
        merkle::find(remote, rel) matches Some(f) && f is File && merkle::find(local, rel) != Some(f),
    ensures
        exists|k: int|
            0 <= k < brought(merkle::tree_diff(local, remote, Seq::empty()), false).len() && path::path_names(
                (#[trigger] brought(merkle::tree_diff(local, remote, Seq::empty()), false)[k]).path,
            ) == rel,
{
    let root = Seq::<char>::empty();
    let d = merkle::tree_diff(local, remote, root);
    lemma_root_has_no_names();
    diff_laws::lemma_diff_misses_no_file(local, remote, root, rel);
    assert(path::path_names(root) + rel =~= rel);
    assert(diff_laws::brings(d, rel));
    let i = choose|i: int|
        0 <= i < d.len() && diff_laws::covers(#[trigger] d[i], rel) && !(d[i] is Removed);
    let c = d[i];
    diff_laws::lemma_diff_truthful(local, remote, root);
    assert(diff_laws::truthful(c, local, remote, path::path_names(root)));
    let at = path::path_names(diff_laws::change_path(c));
    assert(at.skip(0) =~= at);
    let t = match c {
        Change::Added(_, t) => t,
        Change::Modified(_, _, t) => t,
        Change::Removed(_, t) => t,
    };
    let below = rel.skip(at.len() as int);
    assert(at + below =~= rel) by {
        assert(rel.take(at.len() as int) == at);
    }
    lemma_find_in_steps(remote, at, below);
    lemma_found_is_well_formed(remote, at);
    let j = lemma_found_file_is_listed(t, diff_laws::change_path(c), below);
    let start = lemma_brought_holds(d, i);
    assert(brought(d, false)[start + j] == brought_by(c, false)[j]);
}

} // verus!
