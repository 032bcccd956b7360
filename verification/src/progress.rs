//! What is printed where there is no dashboard: one download, a sync that logs, a relay.

use vstd::prelude::*;

use crate::sync_engine::{EventModel, SyncEvent, TransferDirection};
use crate::text;

verus! {

broadcast use {vstd::string::group_string_axioms, vstd::seq::group_seq_axioms};

/// Something that is printed.
#[derive(Debug, PartialEq, Eq)]
pub enum Output {
    /// A line.
    Line(String),
    /// A text in place of the current line, which stays open.
    Rewrite(String),
}

/// Something that is printed, as a value of specifications.
pub ghost enum OutputModel {
    Line(Seq<char>),
    Rewrite(Seq<char>),
}

impl View for Output {
    type V = OutputModel;

    open spec fn view(&self) -> OutputModel {
        match *self {
            Output::Line(s) => OutputModel::Line(s@),
            Output::Rewrite(s) => OutputModel::Rewrite(s@),
        }
    }
}

/// What a list of outputs says.
pub open spec fn outputs_model(v: Seq<Output>) -> Seq<OutputModel> {
    v.map_values(|o: Output| o@)
}

/// How far a download is.
#[derive(Debug, Clone, Copy, PartialEq, Eq)]
pub struct FetchProgress {
    pub files_downloaded: usize,
    /// The reconciliation with the peer is complete.
    pub reconciliation_done: bool,
    /// The peer is connected.
    pub target_connected: bool,
    /// Nothing more is waited for.
    pub finished: bool,
}

/// Where a download is once an event came.
pub open spec fn progress_after(p: FetchProgress, event: EventModel, peer: Seq<char>) -> FetchProgress {
    match event {
        EventModel::PeerConnected(q) => if q == peer {
            FetchProgress { target_connected: true, ..p }
        } else {
            p
        },
        EventModel::TransferComplete { direction, .. } => if direction == TransferDirection::Download {
            FetchProgress { files_downloaded: (p.files_downloaded + 1) as usize, ..p }
        } else {
            p
        },
        EventModel::ReconciliationComplete { peer: q, .. } => if q == peer {
            FetchProgress { reconciliation_done: true, finished: true, ..p }
        } else {
            p
        },
        EventModel::Log(m) => if text::occurs("failed"@, m) && p.target_connected {
            FetchProgress { finished: true, ..p }
        } else {
            p
        },
        _ => p,
    }
}

/// What is printed of an event during a download.
pub open spec fn printed_of(p: FetchProgress, event: EventModel, peer: Seq<char>) -> Seq<OutputModel> {
    match event {
        EventModel::Listening(addr) => seq![OutputModel::Line("  listening on "@ + addr)],
        EventModel::PeerConnected(q) => if q == peer {
            seq![OutputModel::Line("  connected, syncing..."@)]
        } else {
            Seq::empty()
        },
        EventModel::TransferComplete { path, direction } => if direction == TransferDirection::Download {
            seq![
                OutputModel::Rewrite(
                    "  "@ + text::decimal_text((p.files_downloaded + 1) as nat) + " files  (latest: "@ + path + ")"@,
                ),
            ]
        } else {
            Seq::empty()
        },
        EventModel::ReconciliationComplete { peer: q, files_synced } => if q == peer {
            let done = OutputModel::Line("  done: "@ + text::decimal_text(files_synced as nat) + " files fetched"@);
            if p.files_downloaded > 0 {
                seq![OutputModel::Line(Seq::empty()), done]
            } else {
                seq![done]
            }
        } else {
            Seq::empty()
        },
        EventModel::Log(m) => if text::occurs("failed"@, m) && p.target_connected {
            seq![OutputModel::Line("  error: "@ + m)]
        } else {
            Seq::empty()
        },
        _ => Seq::empty(),
    }
}

/// Where a download is once the time for the connection is over.
pub open spec fn after_timeout(p: FetchProgress) -> FetchProgress {
    if p.target_connected {
        p
    } else {
        FetchProgress { finished: true, ..p }
    }
}

fn line(s: String) -> (v: Vec<Output>)
    ensures
        outputs_model(v@) == seq![OutputModel::Line(s@)],
{
    let v: Vec<Output> = vec![Output::Line(s)];
    assert(outputs_model(v@) =~= seq![OutputModel::Line(s@)]);
    v
}

fn silence() -> (v: Vec<Output>)
    ensures
        outputs_model(v@) == Seq::<OutputModel>::empty(),
{
    let v: Vec<Output> = Vec::new();
    assert(outputs_model(v@) =~= Seq::<OutputModel>::empty());
    v
}

impl FetchProgress {
    /// A download that has just begun.
    pub fn new() -> (p: Self)
        ensures
            p == (FetchProgress {
                files_downloaded: 0,
                reconciliation_done: false,
                target_connected: false,
                finished: false,
            }),
    {
        FetchProgress { files_downloaded: 0, reconciliation_done: false, target_connected: false, finished: false }
    }

    /// Takes in an event, and says what is printed.
    pub fn on_event(&mut self, event: &SyncEvent, peer: &str) -> (v: Vec<Output>)
        requires
            old(self).files_downloaded < usize::MAX,
        ensures
            *final(self) == progress_after(*old(self), event@, peer@),
            outputs_model(v@) == printed_of(*old(self), event@, peer@),
    {
        match event {
            SyncEvent::Listening(addr) => line(text::joined("  listening on ", addr.as_str())),
            SyncEvent::PeerConnected(q) => {
                if text::same_text(q.as_str(), peer) {
                    self.target_connected = true;
                    line("  connected, syncing...".to_owned())
                } else {
                    silence()
                }
            },
            SyncEvent::TransferComplete { path, direction } => {
                match direction {
                    TransferDirection::Download => {
                        self.files_downloaded = self.files_downloaded + 1;
                        let mut s = text::joined("  ", text::decimal(self.files_downloaded as u64).as_str());
                        s.append(" files  (latest: ");
                        s.append(path.as_str());
                        s.append(")");
                        let v: Vec<Output> = vec![Output::Rewrite(s)];
                        assert(outputs_model(v@) =~= printed_of(*old(self), event@, peer@));
                        v
                    },
                    TransferDirection::Upload => silence(),
                }
            },
            SyncEvent::ReconciliationComplete { peer: q, files_synced } => {
                if text::same_text(q.as_str(), peer) {
                    self.reconciliation_done = true;
                    self.finished = true;
                    let mut s = text::joined("  done: ", text::decimal(*files_synced as u64).as_str());
                    s.append(" files fetched");
                    let mut v: Vec<Output> = Vec::new();
                    if self.files_downloaded > 0 {
                        v.push(Output::Line(String::new()));
                    }
                    v.push(Output::Line(s));
                    assert(outputs_model(v@) =~= printed_of(*old(self), event@, peer@));
                    v
                } else {
                    silence()
                }
            },
            SyncEvent::Log(m) => {
                if self.target_connected && text::contains_text(m.as_str(), "failed") {
                    self.finished = true;
                    line(text::joined("  error: ", m.as_str()))
                } else {
                    silence()
                }
            },
            _ => silence(),
        }
    }

    /// The time for the connection is over: where the peer is connected, this changes nothing.
    pub fn on_timeout(&mut self) -> (v: Vec<Output>)
        ensures
            *final(self) == after_timeout(*old(self)),
            old(self).target_connected ==> *final(self) == *old(self) && outputs_model(v@) == Seq::<
                OutputModel,
            >::empty(),
            !old(self).target_connected ==> *final(self) == (FetchProgress { finished: true, ..*old(self) })
                && outputs_model(v@) == seq![
                OutputModel::Line(Seq::empty()),
                OutputModel::Line("  timeout: could not connect to peer within 60s"@),
            ],
    {
        if self.target_connected {
            return silence();
        }
        self.finished = true;
        let v: Vec<Output> = vec![
            Output::Line(String::new()),
            Output::Line("  timeout: could not connect to peer within 60s".to_owned()),
        ];
        assert(outputs_model(v@) =~= seq![
            OutputModel::Line(Seq::empty()),
            OutputModel::Line("  timeout: could not connect to peer within 60s"@),
        ]);
        v
    }

    /// The user has had enough.
    pub fn on_interrupt(&mut self) -> (v: Vec<Output>)
        ensures
            *final(self) == (FetchProgress { finished: true, ..*old(self) }),
            outputs_model(v@) == seq![OutputModel::Line(Seq::empty()), OutputModel::Line("  interrupted"@)],
    {
        self.finished = true;
        let v: Vec<Output> = vec![Output::Line(String::new()), Output::Line("  interrupted".to_owned())];
        assert(outputs_model(v@) =~= seq![OutputModel::Line(Seq::empty()), OutputModel::Line("  interrupted"@)]);
        v
    }

    /// Whether the download is complete; else what the user is told.
    pub fn outcome(&self) -> (r: Result<(), &'static str>)
        ensures
            match r {
                Ok(_) => self.reconciliation_done,
                Err(s) => !self.reconciliation_done && s@ == "fetch did not complete"@,
            },
    {
        if self.reconciliation_done {
            Ok(())
        } else {
            Err("fetch did not complete")
        }
    }
}

/// Where a download is once a list of events came.
pub open spec fn progress_through(p: FetchProgress, events: Seq<EventModel>, peer: Seq<char>) -> FetchProgress
    decreases events.len(),
{
    if events.len() == 0 {
        p
    } else {
        progress_after(progress_through(p, events.drop_last(), peer), events.last(), peer)
    }
}

/// A download succeeds exactly when the reconciliation with the peer it was asked for completes; events
/// of other peers do not end it.
pub proof fn lemma_success_is_the_peer_reconciled(p: FetchProgress, events: Seq<EventModel>, peer: Seq<char>)
    requires
        !p.reconciliation_done,
    ensures
        progress_through(p, events, peer).reconciliation_done <==> exists|i: int|
            0 <= i < events.len() && (#[trigger] events[i] matches EventModel::ReconciliationComplete { peer: q, .. }
                && q == peer),
    decreases events.len(),
{
    if events.len() > 0 {
        let rest = events.drop_last();
        lemma_success_is_the_peer_reconciled(p, rest, peer);
        if exists|i: int|
            0 <= i < rest.len() && (#[trigger] rest[i] matches EventModel::ReconciliationComplete { peer: q, .. } && q
                == peer) {
            let i = choose|i: int|
                0 <= i < rest.len() && (#[trigger] rest[i] matches EventModel::ReconciliationComplete { peer: q, .. }
                    && q == peer);
            assert(events[i] == rest[i]);
        }
        if exists|i: int|
            0 <= i < events.len() && (#[trigger] events[i] matches EventModel::ReconciliationComplete { peer: q, .. }
                && q == peer) {
            let i = choose|i: int|
                0 <= i < events.len() && (#[trigger] events[i] matches EventModel::ReconciliationComplete {
                    peer: q,
                    ..
                } && q == peer);
            if i < rest.len() {
                assert(rest[i] == events[i]);
            }
        }
        assert(events[events.len() - 1] == events.last());
    }
}

/// The line that is logged of an event, if any.
pub open spec fn logged_of(event: EventModel) -> Option<Seq<char>> {
    match event {
        EventModel::IndexReady { file_count, total_size } => Some(
            text::decimal_text(file_count as nat) + " files indexed ("@ + text::decimal_text(total_size as nat)
                + " bytes)"@,
        ),
        EventModel::PeerConnected(peer) => Some("peer connected: "@ + peer),
        EventModel::PeerDisconnected(peer) => Some("peer disconnected: "@ + peer),
        EventModel::Listening(addr) => Some("listening on "@ + addr),
        EventModel::TransferComplete { path, direction } => Some(
            match direction {
                TransferDirection::Upload => "Upload complete: "@ + path,
                TransferDirection::Download => "Download complete: "@ + path,
            },
        ),
        EventModel::Conflict { path, conflict_path } => Some("CONFLICT: "@ + path + " -> "@ + conflict_path),
        EventModel::RemoteDelete { path } => Some("synced deletion "@ + path),
        EventModel::ReconciliationComplete { peer, files_synced } => Some(
            "reconciliation with "@ + peer + " complete ("@ + text::decimal_text(files_synced as nat) + " files)"@,
        ),
        EventModel::Log(m) => Some(m),
        _ => None,
    }
}

/// The line that is logged of an event, if any.
pub fn headless_line(event: &SyncEvent) -> (r: Option<String>)
    ensures
        match r {
            Some(s) => logged_of(event@) == Some(s@),
            None => logged_of(event@) is None,
        },
{
    match event {
        SyncEvent::IndexReady { file_count, total_size } => {
            let mut s = text::decimal(*file_count as u64);
            s.append(" files indexed (");
            s.append(text::decimal(*total_size).as_str());
            s.append(" bytes)");
            Some(s)
        },
        SyncEvent::PeerConnected(peer) => Some(text::joined("peer connected: ", peer.as_str())),
        SyncEvent::PeerDisconnected(peer) => Some(text::joined("peer disconnected: ", peer.as_str())),
        SyncEvent::Listening(addr) => Some(text::joined("listening on ", addr.as_str())),
        SyncEvent::TransferComplete { path, direction } => {
            match direction {
                TransferDirection::Upload => Some(text::joined("Upload complete: ", path.as_str())),
                TransferDirection::Download => Some(text::joined("Download complete: ", path.as_str())),
            }
        },
        SyncEvent::Conflict { path, conflict_path } => {
            let mut s = text::joined("CONFLICT: ", path.as_str());
            s.append(" -> ");
            s.append(conflict_path.as_str());
            Some(s)
        },
        SyncEvent::RemoteDelete { path } => Some(text::joined("synced deletion ", path.as_str())),
        SyncEvent::ReconciliationComplete { peer, files_synced } => {
            let mut s = text::joined("reconciliation with ", peer.as_str());
            s.append(" complete (");
            s.append(text::decimal(*files_synced as u64).as_str());
            s.append(" files)");
            Some(s)
        },
        SyncEvent::Log(m) => Some(m.clone()),
        _ => None,
    }
}

/// The lines that a relay prints once it listens on an address: how to reach it, and what to write into
/// a config file.
pub open spec fn relay_lines(address: Seq<char>, peer: Seq<char>) -> Seq<Seq<char>> {
    let full = address + "/p2p/"@ + peer;
    seq![
        "Relay listening on: "@ + full,
        "  Add to .p2sync.toml:"@,
        "  [network]"@,
        "  relay = \""@ + full + "\""@,
    ]
}

/// The lines that a relay prints once it listens on an address.
pub fn relay_listening(address: &str, peer: &str) -> (v: Vec<String>)
    ensures
        text::texts(v@) == relay_lines(address@, peer@),
{
    let mut full = text::joined(address, "/p2p/");
    full.append(peer);
    let first = text::joined("Relay listening on: ", full.as_str());
    let mut last = text::joined("  relay = \"", full.as_str());
    last.append("\"");
    let v: Vec<String> = vec![first, "  Add to .p2sync.toml:".to_owned(), "  [network]".to_owned(), last];
    assert(text::texts(v@) =~= relay_lines(address@, peer@));
    v
}

} // verus!
