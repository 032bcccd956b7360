//! The dashboard: what it keeps of the events, and the texts that it shows.

use vstd::prelude::*;

use std::collections::VecDeque;

use crate::config::TuiConfig;
use crate::path;
use crate::sync_engine::{EventModel, SyncEvent, TransferDirection};
use crate::text;
use crate::util;
use crate::util::truncate_end;

verus! {

broadcast use {
    vstd::string::group_string_axioms,
    vstd::seq::group_seq_axioms,
    vstd::std_specs::vecdeque::group_vec_dequeue_axioms,
};

/// A peer on the dashboard. Times are in nanoseconds from any one moment.
#[derive(Debug, PartialEq, Eq)]
pub struct PeerInfo {
    pub id: String,
    pub last_sync: u128,
    pub connected: bool,
}

/// A peer on the dashboard, as a value of specifications.
pub ghost struct PeerModel {
    pub id: Seq<char>,
    pub last_sync: u128,
    pub connected: bool,
}

impl View for PeerInfo {
    type V = PeerModel;

    open spec fn view(&self) -> PeerModel {
        PeerModel { id: self.id@, last_sync: self.last_sync, connected: self.connected }
    }
}

/// A transfer on the dashboard.
#[derive(Debug, PartialEq, Eq)]
pub struct TransferInfo {
    pub path: String,
    pub direction: TransferDirection,
    pub current_chunk: usize,
    pub total_chunks: usize,
}

/// A transfer on the dashboard, as a value of specifications.
pub ghost struct TransferModel {
    pub path: Seq<char>,
    pub direction: TransferDirection,
    pub current_chunk: usize,
    pub total_chunks: usize,
}

impl View for TransferInfo {
    type V = TransferModel;

    open spec fn view(&self) -> TransferModel {
        TransferModel {
            path: self.path@,
            direction: self.direction,
            current_chunk: self.current_chunk,
            total_chunks: self.total_chunks,
        }
    }
}

/// What the dashboard keeps.
pub struct AppState {
    pub peer_id: String,
    pub group_id: String,
    pub root_path: String,
    pub file_count: usize,
    pub total_size: u64,
    pub listen_addrs: Vec<String>,
    pub peers: Vec<PeerInfo>,
    pub transfers: Vec<TransferInfo>,
    pub journal: VecDeque<String>,
    pub tui_config: TuiConfig,
}

/// What the dashboard keeps, as a value of specifications.
#[verifier::ext_equal]
pub ghost struct AppModel {
    pub peer_id: Seq<char>,
    pub group_id: Seq<char>,
    pub root_path: Seq<char>,
    pub file_count: usize,
    pub total_size: u64,
    pub listen_addrs: Seq<Seq<char>>,
    pub peers: Seq<PeerModel>,
    pub transfers: Seq<TransferModel>,
    pub journal: Seq<Seq<char>>,
    pub tui_config: TuiConfig,
}

/// What a list of peers says.
pub open spec fn peers_model(v: Seq<PeerInfo>) -> Seq<PeerModel> {
    v.map_values(|p: PeerInfo| p@)
}

/// What a list of transfers says.
pub open spec fn transfers_model(v: Seq<TransferInfo>) -> Seq<TransferModel> {
    v.map_values(|t: TransferInfo| t@)
}

impl View for AppState {
    type V = AppModel;

    open spec fn view(&self) -> AppModel {
        AppModel {
            peer_id: self.peer_id@,
            group_id: self.group_id@,
            root_path: self.root_path@,
            file_count: self.file_count,
            total_size: self.total_size,
            listen_addrs: text::texts(self.listen_addrs@),
            peers: peers_model(self.peers@),
            transfers: transfers_model(self.transfers@),
            journal: text::texts(self.journal@),
            tui_config: self.tui_config,
        }
    }
}

/// A moment: nanoseconds from any one moment for what elapses, seconds since UNIX epoch for the journal.
#[derive(Debug, Clone, Copy, PartialEq, Eq)]
pub struct Moment {
    pub nanos: u128,
    pub unix_secs: u64,
}

/// A number below a hundred with two digits.
pub open spec fn two_digits(n: int) -> Seq<char> {
    seq![text::digit_char(n / 10), text::digit_char(n % 10)]
}

/// The time of day in UTC, as hours, minutes and seconds.
pub open spec fn clock_text(unix_secs: u64) -> Seq<char> {
    two_digits((unix_secs as int / 3600) % 24) + seq![':'] + two_digits((unix_secs as int / 60) % 60) + seq![':']
        + two_digits(unix_secs as int % 60)
}

fn push_two_digits(s: &mut String, n: u64)
    requires
        n < 100,
    ensures
        final(s)@ == old(s)@ + two_digits(n as int),
{
    s.push(text::digit((n / 10) as u8));
    s.push(text::digit((n % 10) as u8));
    assert(s@ =~= old(s)@ + two_digits(n as int));
}

/// The time of day in UTC.
pub fn time_of_day(unix_secs: u64) -> (s: String)
    ensures
        s@ == clock_text(unix_secs),
{
    let mut s = String::new();
    push_two_digits(&mut s, (unix_secs / 3600) % 24);
    s.push(':');
    push_two_digits(&mut s, (unix_secs / 60) % 60);
    s.push(':');
    push_two_digits(&mut s, unix_secs % 60);
    assert(s@ =~= clock_text(unix_secs));
    s
}

/// The journal once a line is added: the oldest line goes where the journal is full, and a journal that
/// may hold no line stays as it is.
pub open spec fn journal_with(
    journal: Seq<Seq<char>>,
    max_log_lines: usize,
    msg: Seq<char>,
    unix_secs: u64,
) -> Seq<Seq<char>> {
    let kept = if journal.len() >= max_log_lines {
        journal.drop_first()
    } else {
        journal
    };
    if max_log_lines == 0 {
        journal
    } else {
        kept.push(clock_text(unix_secs) + seq![' '] + msg)
    }
}

/// The dashboard once a line is added to the journal.
pub open spec fn with_log(m: AppModel, msg: Seq<char>, at: Moment) -> AppModel {
    AppModel { journal: journal_with(m.journal, m.tui_config.max_log_lines, msg, at.unix_secs), ..m }
}

/// The peers once one is connected: a known peer is marked, an unknown one is added.
pub open spec fn with_connected(peers: Seq<PeerModel>, id: Seq<char>, nanos: u128) -> Seq<PeerModel> {
    if exists|i: int| 0 <= i < peers.len() && (#[trigger] peers[i]).id == id {
        peers.map_values(
            |p: PeerModel|
                if p.id == id {
                    PeerModel { id: p.id, last_sync: nanos, connected: true }
                } else {
                    p
                },
        )
    } else {
        peers.push(PeerModel { id, last_sync: nanos, connected: true })
    }
}

/// The peers once one is gone.
pub open spec fn with_disconnected(peers: Seq<PeerModel>, id: Seq<char>) -> Seq<PeerModel> {
    peers.map_values(
        |p: PeerModel|
            if p.id == id {
                PeerModel { id: p.id, last_sync: p.last_sync, connected: false }
            } else {
                p
            },
    )
}

/// The peers once data has come: all that are connected are in sync.
pub open spec fn with_data(peers: Seq<PeerModel>, nanos: u128) -> Seq<PeerModel> {
    peers.map_values(
        |p: PeerModel|
            if p.connected {
                PeerModel { id: p.id, last_sync: nanos, connected: p.connected }
            } else {
                p
            },
    )
}

/// The first transfer of a path, from the place `from` on.
pub open spec fn transfer_of(transfers: Seq<TransferModel>, path: Seq<char>, from: int) -> Option<int>
    decreases transfers.len() - from,
{
    if from < 0 || from >= transfers.len() {
        None
    } else if path::parts(transfers[from].path) == path::parts(path) {
        Some(from)
    } else {
        transfer_of(transfers, path, from + 1)
    }
}

/// The dashboard once a chunk has come.
pub open spec fn with_chunk(m: AppModel, path: Seq<char>, chunk_index: usize, at: Moment) -> AppModel {
    match transfer_of(m.transfers, path, 0) {
        None => m,
        Some(i) => AppModel {
            transfers: m.transfers.update(
                i,
                TransferModel { current_chunk: (chunk_index + 1) as usize, ..m.transfers[i] },
            ),
            peers: with_data(m.peers, at.nanos),
            ..m
        },
    }
}

/// The dashboard once an event came. The total size comes with its text.
pub open spec fn after_event(m: AppModel, event: EventModel, at: Moment, size_text: Seq<char>) -> AppModel {
    match event {
        EventModel::IndexReady { file_count, total_size } => with_log(
            AppModel { file_count, total_size, ..m },
            text::decimal_text(file_count as nat) + " files indexed ("@ + size_text + " total)"@,
            at,
        ),
        EventModel::PeerConnected(id) => AppModel { peers: with_connected(m.peers, id, at.nanos), ..m },
        EventModel::PeerDisconnected(id) => AppModel { peers: with_disconnected(m.peers, id), ..m },
        EventModel::Listening(addr) => AppModel { listen_addrs: m.listen_addrs.push(addr), ..m },
        EventModel::TransferStarted { path, direction, total_chunks } => AppModel {
            transfers: m.transfers.push(TransferModel { path, direction, current_chunk: 0, total_chunks }),
            ..m
        },
        EventModel::ChunkTransferred { path, chunk_index, .. } => with_chunk(m, path, chunk_index, at),
        EventModel::TransferComplete { path, .. } => AppModel {
            transfers: m.transfers.filter(|t: TransferModel| path::parts(t.path) != path::parts(path)),
            ..m
        },
        EventModel::Conflict { path, conflict_path } => with_log(
            m,
            "CONFLICT "@ + path + " -> "@ + conflict_path,
            at,
        ),
        EventModel::RemoteDelete { path } => with_log(m, "synced deletion "@ + path, at),
        EventModel::ReconciliationComplete { peer, files_synced } => with_log(
            m,
            "sync with "@ + util::cut_end(peer, 15) + "... complete ("@ + text::decimal_text(files_synced as nat)
                + " files)"@,
            at,
        ),
        EventModel::Log(msg) => with_log(m, msg, at),
    }
}

/// The share of the chunks that have come can be worked out.
pub open spec fn shown_ok(transfers: Seq<TransferModel>) -> bool {
    forall|i: int| 0 <= i < transfers.len() ==> (#[trigger] transfers[i]).current_chunk * 100 <= usize::MAX
}

impl AppState {
    /// The share of every transfer can be worked out.
    pub open spec fn wf(self) -> bool {
        shown_ok(self@.transfers)
    }

    /// A dashboard that has seen nothing yet.
    pub fn new(peer_id: String, group_id: String, root_path: String, tui_config: TuiConfig) -> (s: Self)
        ensures
            s.wf(),
            s@ == (AppModel {
                peer_id: peer_id@,
                group_id: group_id@,
                root_path: root_path@,
                file_count: 0,
                total_size: 0,
                listen_addrs: Seq::empty(),
                peers: Seq::empty(),
                transfers: Seq::empty(),
                journal: Seq::empty(),
                tui_config,
            }),
    {
        let s = AppState {
            peer_id,
            group_id,
            root_path,
            file_count: 0,
            total_size: 0,
            listen_addrs: Vec::new(),
            peers: Vec::new(),
            transfers: Vec::new(),
            journal: VecDeque::new(),
            tui_config,
        };
        assert(s@ =~= (AppModel {
            peer_id: peer_id@,
            group_id: group_id@,
            root_path: root_path@,
            file_count: 0,
            total_size: 0,
            listen_addrs: Seq::empty(),
            peers: Seq::empty(),
            transfers: Seq::empty(),
            journal: Seq::empty(),
            tui_config,
        }));
        s
    }

    /// Adds a line to the journal.
    fn add_log(&mut self, msg: &str, at: Moment)
        requires
            old(self).wf(),
        ensures
            final(self).wf(),
            final(self)@ == with_log(old(self)@, msg@, at),
    {
        if self.tui_config.max_log_lines == 0 {
            assert(self@ =~= with_log(old(self)@, msg@, at));
            return;
        }
        if self.journal.len() >= self.tui_config.max_log_lines {
            self.journal.pop_front();
        }
        let mut line = time_of_day(at.unix_secs);
        line.push(' ');
        line.append(msg);
        self.journal.push_back(line);
        assert(line@ =~= clock_text(at.unix_secs) + seq![' '] + msg@);
        assert(text::texts(self.journal@) =~= with_log(old(self)@, msg@, at).journal);
        assert(self@ =~= with_log(old(self)@, msg@, at));
    }

    /// Takes in that a peer is connected.
    fn peer_connected(&mut self, id: String, at: Moment)
        requires
            old(self).wf(),
        ensures
            final(self).wf(),
            final(self)@ == (AppModel { peers: with_connected(old(self)@.peers, id@, at.nanos), ..old(self)@ }),
    {
        let ghost before = self@.peers;
        let ghost known = exists|i: int| 0 <= i < before.len() && (#[trigger] before[i]).id == id@;
        let mut found = false;
        let mut i: usize = 0;
        let n: usize = self.peers.len();
        while i < n
            invariant
                0 <= i <= n,
                n == self.peers@.len(),
                before.len() == n,
                found == exists|j: int| 0 <= j < i && (#[trigger] before[j]).id == id@,
                forall|j: int|
                    0 <= j < i ==> (#[trigger] self.peers@[j])@ == if before[j].id == id@ {
                        (PeerModel { id: before[j].id, last_sync: at.nanos, connected: true })
                    } else {
                        before[j]
                    },
                forall|j: int| i <= j < n ==> (#[trigger] self.peers@[j])@ == before[j],
                *self == (AppState { peers: self.peers, ..*old(self) }),
            decreases n - i,
        {
            assert(self.peers@[i as int]@ == before[i as int]);
            if text::same_text(self.peers[i].id.as_str(), id.as_str()) {
                self.peers[i].connected = true;
                self.peers[i].last_sync = at.nanos;
                assert(before[i as int].id == id@);
                found = true;
            }
            i = i + 1;
        }
        if !found {
            assert(!known);
            let ghost same = self.peers@;
            self.peers.push(PeerInfo { id, last_sync: at.nanos, connected: true });
            assert(peers_model(same) =~= before);
            assert(peers_model(self.peers@) =~= with_connected(before, id@, at.nanos));
        } else {
            assert(peers_model(self.peers@) =~= with_connected(before, id@, at.nanos));
        }
    }

    /// Takes in that a peer is gone.
    fn peer_disconnected(&mut self, id: &str)
        requires
            old(self).wf(),
        ensures
            final(self).wf(),
            final(self)@ == (AppModel { peers: with_disconnected(old(self)@.peers, id@), ..old(self)@ }),
    {
        let ghost before = self@.peers;
        let mut i: usize = 0;
        let n: usize = self.peers.len();
        while i < n
            invariant
                0 <= i <= n,
                n == self.peers@.len(),
                before.len() == n,
                forall|j: int|
                    0 <= j < i ==> (#[trigger] self.peers@[j])@ == if before[j].id == id@ {
                        (PeerModel { id: before[j].id, last_sync: before[j].last_sync, connected: false })
                    } else {
                        before[j]
                    },
                forall|j: int| i <= j < n ==> (#[trigger] self.peers@[j])@ == before[j],
                *self == (AppState { peers: self.peers, ..*old(self) }),
            decreases n - i,
        {
            assert(self.peers@[i as int]@ == before[i as int]);
            if text::same_text(self.peers[i].id.as_str(), id) {
                self.peers[i].connected = false;
            }
            i = i + 1;
        }
        assert(peers_model(self.peers@) =~= with_disconnected(before, id@));
    }

    /// Takes in that data has come.
    fn data_came(&mut self, at: Moment)
        requires
            old(self).wf(),
        ensures
            final(self).wf(),
            final(self)@ == (AppModel { peers: with_data(old(self)@.peers, at.nanos), ..old(self)@ }),
    {
        let ghost before = self@.peers;
        let mut i: usize = 0;
        let n: usize = self.peers.len();
        while i < n
            invariant
                0 <= i <= n,
                n == self.peers@.len(),
                before.len() == n,
                forall|j: int|
                    0 <= j < i ==> (#[trigger] self.peers@[j])@ == if before[j].connected {
                        (PeerModel { id: before[j].id, last_sync: at.nanos, connected: before[j].connected })
                    } else {
                        before[j]
                    },
                forall|j: int| i <= j < n ==> (#[trigger] self.peers@[j])@ == before[j],
                *self == (AppState { peers: self.peers, ..*old(self) }),
            decreases n - i,
        {
            assert(self.peers@[i as int]@ == before[i as int]);
            if self.peers[i].connected {
                self.peers[i].last_sync = at.nanos;
            }
            i = i + 1;
        }
        assert(peers_model(self.peers@) =~= with_data(before, at.nanos));
    }

    /// Takes in that a chunk has come.
    fn chunk_came(&mut self, path: &str, chunk_index: usize, at: Moment)
        requires
            old(self).wf(),
            (chunk_index + 1) * 100 <= usize::MAX,
        ensures
            final(self).wf(),
            final(self)@ == with_chunk(old(self)@, path@, chunk_index, at),
    {
        let ghost before = self@;
        let mut i: usize = 0;
        while i < self.transfers.len()
            invariant
                0 <= i <= self.transfers@.len(),
                self@ == before,
                before == old(self)@,
                *self == *old(self),
                self.wf(),
                (chunk_index + 1) * 100 <= usize::MAX,
                transfer_of(before.transfers, path@, 0) == transfer_of(before.transfers, path@, i as int),
            decreases self.transfers@.len() - i,
        {
            assert(before.transfers[i as int] == self.transfers@[i as int]@);
            if path::same_path(self.transfers[i].path.as_str(), path) {
                self.transfers[i].current_chunk = chunk_index + 1;
                let ghost updated = before.transfers.update(
                    i as int,
                    TransferModel { current_chunk: (chunk_index + 1) as usize, ..before.transfers[i as int] },
                );
                assert(transfers_model(self.transfers@) =~= updated);
                assert(shown_ok(updated)) by {
                    assert forall|j: int| 0 <= j < updated.len() implies (#[trigger] updated[j]).current_chunk * 100
                        <= usize::MAX by {
                        if j != i {
                            assert(updated[j] == before.transfers[j]);
                        }
                    }
                }
                self.data_came(at);
                return;
            }
            i = i + 1;
        }
    }

    /// Takes in that a transfer is over.
    fn transfer_over(&mut self, path: &str)
        requires
            old(self).wf(),
        ensures
            final(self).wf(),
            final(self)@ == (AppModel {
                transfers: old(self)@.transfers.filter(
                    |t: TransferModel| path::parts(t.path) != path::parts(path@),
                ),
                ..old(self)@
            }),
    {
        let ghost all = self@.transfers;
        let ghost keep = |t: TransferModel| path::parts(t.path) != path::parts(path@);
        let mut kept: Vec<TransferInfo> = Vec::new();
        let mut i: usize = 0;
        assert(transfers_model(kept@) =~= all.take(0).filter(keep)) by {
            reveal(Seq::filter);
        }
        while i < self.transfers.len()
            invariant
                0 <= i <= self.transfers@.len(),
                *self == *old(self),
                self.wf(),
                all == self@.transfers,
                keep == (|t: TransferModel| path::parts(t.path) != path::parts(path@)),
                transfers_model(kept@) == all.take(i as int).filter(keep),
                shown_ok(transfers_model(kept@)),
            decreases self.transfers@.len() - i,
        {
            let t = &self.transfers[i];
            assert(all[i as int] == t@);
            proof {
                let upto = all.take(i + 1);
                assert(upto.drop_last() =~= all.take(i as int));
                assert(upto.last() == t@);
                reveal(Seq::filter);
            }
            if !path::same_path(t.path.as_str(), path) {
                let ghost before = transfers_model(kept@);
                kept.push(
                    TransferInfo {
                        path: t.path.clone(),
                        direction: t.direction,
                        current_chunk: t.current_chunk,
                        total_chunks: t.total_chunks,
                    },
                );
                assert(transfers_model(kept@) =~= before.push(t@));
            }
            i = i + 1;
        }
        assert(all.take(all.len() as int) =~= all);
        self.transfers = kept;
    }

    /// Takes in an event of the sync engine. `size_text` is the text of the total size, for an event that
    /// has one.
    pub fn handle_event(&mut self, event: SyncEvent, at: Moment, size_text: &str)
        requires
            old(self).wf(),
            event@ matches EventModel::ChunkTransferred { chunk_index, .. } ==> (chunk_index + 1) * 100 <= usize::MAX,
        ensures
            final(self).wf(),
            final(self)@ == after_event(old(self)@, event@, at, size_text@),
    {
        match event {
            SyncEvent::IndexReady { file_count, total_size } => {
                self.file_count = file_count;
                self.total_size = total_size;
                let mut msg = text::decimal(file_count as u64);
                msg.append(" files indexed (");
                msg.append(size_text);
                msg.append(" total)");
                self.add_log(msg.as_str(), at);
            },
            SyncEvent::PeerConnected(id) => {
                self.peer_connected(id, at);
            },
            SyncEvent::PeerDisconnected(id) => {
                self.peer_disconnected(id.as_str());
            },
            SyncEvent::Listening(addr) => {
                self.listen_addrs.push(addr);
                assert(text::texts(self.listen_addrs@) =~= old(self)@.listen_addrs.push(addr@));
            },
            SyncEvent::TransferStarted { path, direction, total_chunks } => {
                self.transfers.push(TransferInfo { path, direction, current_chunk: 0, total_chunks });
                assert(self@.transfers =~= old(self)@.transfers.push(
                    TransferModel { path: path@, direction, current_chunk: 0, total_chunks },
                ));
                assert(self.wf()) by {
                    assert forall|j: int| 0 <= j < self@.transfers.len() implies (#[trigger] self@.transfers[j]).current_chunk
                        * 100 <= usize::MAX by {
                        if j < old(self)@.transfers.len() {
                            assert(self@.transfers[j] == old(self)@.transfers[j]);
                        }
                    }
                }
            },
            SyncEvent::ChunkTransferred { path, chunk_index, .. } => {
                self.chunk_came(path.as_str(), chunk_index, at);
            },
            SyncEvent::TransferComplete { path, .. } => {
                self.transfer_over(path.as_str());
            },
            SyncEvent::Conflict { path, conflict_path } => {
                let mut msg = text::joined("CONFLICT ", path.as_str());
                msg.append(" -> ");
                msg.append(conflict_path.as_str());
                self.add_log(msg.as_str(), at);
            },
            SyncEvent::RemoteDelete { path } => {
                self.add_log(text::joined("synced deletion ", path.as_str()).as_str(), at);
            },
            SyncEvent::ReconciliationComplete { peer, files_synced } => {
                let mut msg = text::joined("sync with ", truncate_end(peer.as_str(), 15).as_str());
                msg.append("... complete (");
                msg.append(text::decimal(files_synced as u64).as_str());
                msg.append(" files)");
                self.add_log(msg.as_str(), at);
            },
            SyncEvent::Log(msg) => {
                self.add_log(msg.as_str(), at);
            },
        }
        assert(self@ =~= after_event(old(self)@, event@, at, size_text@));
    }
}

/// The journal never holds more lines than its limit.
pub proof fn lemma_journal_is_bounded(m: AppModel, event: EventModel, at: Moment, size_text: Seq<char>)
    requires
        m.journal.len() <= m.tui_config.max_log_lines,
    ensures
        ({
            let next = after_event(m, event, at, size_text);
            &&& next.tui_config == m.tui_config
            &&& next.journal.len() <= next.tui_config.max_log_lines
        }),
{
}

} // verus!
