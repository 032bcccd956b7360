//! What the sync engine keeps in mind, and what it tells the user interface.

use vstd::prelude::*;

use crate::config;
use crate::conflict::{PeerId, VectorClock};
use crate::merkle;
use crate::merkle::Node;
use crate::names;
use crate::names::NameMap;
use crate::path;
use crate::path::Component;
use crate::text;

verus! {

broadcast use {
    crate::names::lemma_value_smaller,
    vstd::string::group_string_axioms,
    vstd::seq::group_seq_axioms,
};

#[derive(Debug, Clone, Copy, PartialEq, Eq)]
pub enum TransferDirection {
    Upload,
    Download,
}

/// Events emitted by the sync engine for the UI layer. Peers go by the text of their identifier.
#[derive(Debug, PartialEq, Eq)]
pub enum SyncEvent {
    IndexReady { file_count: usize, total_size: u64 },
    PeerConnected(String),
    PeerDisconnected(String),
    Listening(String),
    TransferStarted { path: String, direction: TransferDirection, total_chunks: usize },
    ChunkTransferred { path: String, direction: TransferDirection, chunk_index: usize, total_chunks: usize },
    TransferComplete { path: String, direction: TransferDirection },
    Conflict { path: String, conflict_path: String },
    RemoteDelete { path: String },
    ReconciliationComplete { peer: String, files_synced: usize },
    Log(String),
}

/// What an event says.
pub ghost enum EventModel {
    IndexReady { file_count: usize, total_size: u64 },
    PeerConnected(Seq<char>),
    PeerDisconnected(Seq<char>),
    Listening(Seq<char>),
    TransferStarted { path: Seq<char>, direction: TransferDirection, total_chunks: usize },
    ChunkTransferred { path: Seq<char>, direction: TransferDirection, chunk_index: usize, total_chunks: usize },
    TransferComplete { path: Seq<char>, direction: TransferDirection },
    Conflict { path: Seq<char>, conflict_path: Seq<char> },
    RemoteDelete { path: Seq<char> },
    ReconciliationComplete { peer: Seq<char>, files_synced: usize },
    Log(Seq<char>),
}

impl View for SyncEvent {
    type V = EventModel;

    open spec fn view(&self) -> EventModel {
        match *self {
            SyncEvent::IndexReady { file_count, total_size } => EventModel::IndexReady { file_count, total_size },
            SyncEvent::PeerConnected(p) => EventModel::PeerConnected(p@),
            SyncEvent::PeerDisconnected(p) => EventModel::PeerDisconnected(p@),
            SyncEvent::Listening(a) => EventModel::Listening(a@),
            SyncEvent::TransferStarted { path, direction, total_chunks } => EventModel::TransferStarted {
                path: path@,
                direction,
                total_chunks,
            },
            SyncEvent::ChunkTransferred { path, direction, chunk_index, total_chunks } => {
                EventModel::ChunkTransferred { path: path@, direction, chunk_index, total_chunks }
            },
            SyncEvent::TransferComplete { path, direction } => EventModel::TransferComplete { path: path@, direction },
            SyncEvent::Conflict { path, conflict_path } => EventModel::Conflict {
                path: path@,
                conflict_path: conflict_path@,
            },
            SyncEvent::RemoteDelete { path } => EventModel::RemoteDelete { path: path@ },
            SyncEvent::ReconciliationComplete { peer, files_synced } => EventModel::ReconciliationComplete {
                peer: peer@,
                files_synced,
            },
            SyncEvent::Log(m) => EventModel::Log(m@),
        }
    }
}

/// What a list of events says.
pub open spec fn events_model(v: Seq<SyncEvent>) -> Seq<EventModel> {
    v.map_values(|e: SyncEvent| e@)
}

/// What is synced, with whom, and which way.
#[derive(Debug, PartialEq, Eq)]
pub struct SyncConfig {
    pub root_path: String,
    pub group_id: String,
    pub exclude_patterns: Vec<String>,
    /// Don't push local changes to peers (disable watcher notifications).
    pub no_push: bool,
    /// Don't accept incoming changes from peers (reject downloads during reconciliation).
    pub no_pull: bool,
}

/// Where a version of a file comes from.
#[derive(Debug, PartialEq, Eq)]
pub struct RemoteOrigin {
    pub clock: VectorClock,
    pub timestamp: u64,
    pub peer: PeerId,
}

/// What an origin says.
#[verifier::ext_equal]
pub ghost struct OriginModel {
    pub clock: Map<PeerId, u64>,
    pub timestamp: u64,
    pub peer: PeerId,
}

impl View for RemoteOrigin {
    type V = OriginModel;

    open spec fn view(&self) -> OriginModel {
        OriginModel { clock: self.clock@, timestamp: self.timestamp, peer: self.peer }
    }
}

/// Whether a path from a peer may be used below a root: it is relative and made of names alone.
pub open spec fn is_safe(rel: Seq<char>) -> bool {
    !path::absolute(rel) && path::only_names(path::parts(rel))
}

/// The place below the root that a path from a peer stands for, if the path may be used.
pub fn safe_path(root: &str, rel: &str) -> (r: Option<String>)
    ensures
        match r {
            Some(p) => is_safe(rel@) && p@ == path::join_text(root@, rel@),
            None => !is_safe(rel@),
        },
{
    if path::is_absolute(rel) {
        return None;
    }
    let cs = path::components(rel);
    let ghost ps = path::parts(rel@);
    let mut i: usize = 0;
    while i < cs.len()
        invariant
            0 <= i <= cs@.len(),
            path::views(cs@) == ps,
            ps == path::parts(rel@),
            forall|j: int| 0 <= j < i ==> #[trigger] ps[j] is Normal,
        decreases cs@.len() - i,
    {
        assert(ps[i as int] == cs@[i as int]@);
        match &cs[i] {
            Component::Normal(_) => {},
            _ => {
                return None;
            },
        }
        i = i + 1;
    }
    Some(path::join(root, rel))
}

/// A path that may be used never leaves the root: what it stands for begins with the root, and goes on
/// with the names of the path.
pub proof fn lemma_safe_path_stays_below(root: Seq<char>, rel: Seq<char>)
    requires
        is_safe(rel),
    ensures
        path::starts_with(path::parts(path::join_text(root, rel)), path::parts(root)),
        path::relative_parts(path::join_text(root, rel), root) == path::parts(rel),
{
    path::lemma_join_parts(root, rel);
    let all = path::parts(path::join_text(root, rel));
    let n = path::parts(root).len() as int;
    assert(all.take(n) =~= path::parts(root));
    assert(all.skip(n) =~= path::parts(rel));
}

/// Time-based guard to suppress duplicate events for the same path within a TTL window.
/// Used both for sync-write suppression (prevent watcher feedback) and event debouncing.
/// Times are in nanoseconds from any one moment.
pub struct EventGuard {
    marks: NameMap<u128>,
    ttl: u128,
}

/// The marks of a guard by path, and how long they last.
#[verifier::ext_equal]
pub ghost struct GuardModel {
    pub marks: Seq<(Seq<char>, u128)>,
    pub ttl: u128,
}

impl View for EventGuard {
    type V = GuardModel;

    closed spec fn view(&self) -> GuardModel {
        GuardModel { marks: self.marks@, ttl: self.ttl }
    }
}

/// How much time lies between two moments, none where the first is the later.
pub open spec fn elapsed(then: u128, now: u128) -> int {
    if now >= then {
        now - then
    } else {
        0
    }
}

/// Whether a mark of a path is still fresh.
pub open spec fn fresh(g: GuardModel, path: Seq<char>, now: u128) -> bool {
    names::lookup(g.marks, path::clean_text(path)) matches Some(then) && elapsed(then, now) < g.ttl
}

/// The guard once a path is marked.
pub open spec fn after_mark(g: GuardModel, path: Seq<char>, now: u128) -> GuardModel {
    GuardModel { marks: names::put(g.marks, path::clean_text(path), now), ..g }
}

/// The guard once a path was looked up: a mark that is no longer fresh is gone.
pub open spec fn after_lookup(g: GuardModel, path: Seq<char>, now: u128) -> GuardModel {
    if fresh(g, path, now) {
        g
    } else {
        GuardModel { marks: names::without(g.marks, path::clean_text(path)), ..g }
    }
}

impl EventGuard {
    /// The marks are in the order of the paths.
    pub open spec fn wf(self) -> bool {
        names::in_order(self@.marks)
    }

    /// A guard without marks.
    pub fn new(ttl: std::time::Duration) -> (g: Self)
        ensures
            g.wf(),
            g@.marks == Seq::<(Seq<char>, u128)>::empty(),
            g@.ttl == config::duration_nanos(ttl),
    {
        EventGuard { marks: NameMap::new(), ttl: ttl.as_nanos() }
    }

    /// Marks a path.
    pub fn mark(&mut self, path: &str, now: u128)
        requires
            old(self).wf(),
        ensures
            final(self).wf(),
            final(self)@ == after_mark(old(self)@, path@, now),
    {
        self.marks.insert(path::clean(path), now);
    }

    /// Whether a path was marked within the window. A mark that has outlived it is dropped.
    pub fn is_suppressed(&mut self, path: &str, now: u128) -> (r: bool)
        requires
            old(self).wf(),
        ensures
            final(self).wf(),
            r == fresh(old(self)@, path@, now),
            final(self)@ == after_lookup(old(self)@, path@, now),
    {
        let key = path::clean(path);
        match self.marks.get(key.as_str()) {
            Some(then) => {
                let spent: u128 = if now >= *then {
                    now - *then
                } else {
                    0
                };
                if spent < self.ttl {
                    return true;
                }
                self.marks.remove(key.as_str());
            },
            None => {
                proof {
                    assert(names::without(self.marks@, key@) == self.marks@);
                }
            },
        }
        false
    }
}

/// A marked path is suppressed until the window has passed, and after that no longer.
pub proof fn lemma_mark_lasts(g: GuardModel, path: Seq<char>, then: u128, now: u128)
    requires
        names::in_order(g.marks),
    ensures
        fresh(after_mark(g, path, then), path, now) <==> elapsed(then, now) < g.ttl,
{
    let key = path::clean_text(path);
    names::lemma_lookup_put(g.marks, key, then, key);
}

/// Marking a path and looking it up leave the other paths as they were.
pub proof fn lemma_guard_leaves_others(g: GuardModel, path: Seq<char>, other: Seq<char>, then: u128, now: u128)
    requires
        names::in_order(g.marks),
        path::parts(path) != path::parts(other),
    ensures
        fresh(after_mark(g, path, then), other, now) == fresh(g, other, now),
        fresh(after_lookup(g, path, then), other, now) == fresh(g, other, now),
{
    let key = path::clean_text(path);
    path::lemma_clean_same_parts(path, other);
    names::lemma_lookup_put(g.marks, key, then, path::clean_text(other));
    names::lemma_lookup_without(g.marks, key, path::clean_text(other));
}

/// Looking a path up does not change what a later look finds.
pub proof fn lemma_lookup_is_harmless(g: GuardModel, path: Seq<char>, first: u128, later: u128)
    requires
        names::in_order(g.marks),
        first <= later,
    ensures
        fresh(after_lookup(g, path, first), path, later) == fresh(g, path, later),
{
    let key = path::clean_text(path);
    names::lemma_lookup_without(g.marks, key, key);
}

/// The node of a tree that a path leads to.
pub fn find_node<'a>(tree: &'a Node, path: &str) -> (r: Option<&'a Node>)
    requires
        tree.wf(),
    ensures
        match r {
            Some(n) => n.wf() && merkle::find(tree.model(), path::path_names(path@)) == Some(n.model()),
            None => merkle::find(tree.model(), path::path_names(path@)) is None,
        },
{
    let components = path::names(path);
    let ghost ns = text::texts(components@);
    let mut current: &'a Node = tree;
    let mut i: usize = 0;
    assert(ns.skip(0) =~= ns);
    while i < components.len()
        invariant
            0 <= i <= components@.len(),
            ns == text::texts(components@),
            ns == path::path_names(path@),
            current.wf(),
            merkle::find(tree.model(), ns) == merkle::find(current.model(), ns.skip(i as int)),
        decreases components@.len() - i,
    {
        assert(ns.skip(i as int).drop_first() =~= ns.skip(i + 1));
        let name = components[i].as_str();
        assert(ns.skip(i as int)[0] == name@);
        match current {
            Node::File { .. } => {
                return None;
            },
            Node::Directory { children, hash } => {
                proof {
                    merkle::lemma_directory_model(*hash, *children);
                    merkle::lemma_directory_wf(*hash, *children);
                    names::lemma_with_values(children@, |n: Node| n.model(), name@, arbitrary());
                    names::lemma_has_at_rank(children@, name@);
                }
                match children.get(name) {
                    Some(child) => {
                        current = child;
                    },
                    None => {
                        return None;
                    },
                }
            },
        }
        i = i + 1;
    }
    assert(ns.skip(ns.len() as int) =~= Seq::<Seq<char>>::empty());
    Some(current)
}

} // verus!
