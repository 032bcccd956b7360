//! The texts of the dashboard's panels.

use vstd::prelude::*;

use crate::sync_engine;
use crate::sync_engine::TransferDirection;
use crate::text;
use crate::tui;
use crate::tui::{AppModel, AppState, PeerInfo, PeerModel, TransferInfo, TransferModel};
use crate::util;
use crate::util::{truncate_end, truncate_start};

verus! {

broadcast use {
    vstd::string::group_string_axioms,
    vstd::seq::group_seq_axioms,
    vstd::std_specs::vecdeque::group_vec_dequeue_axioms,
};

/// The header: the folder, this peer, and a line on the state.
pub struct Header {
    pub folder: String,
    pub peer: String,
    pub status: String,
}

/// The first address at which this peer can be reached.
pub open spec fn shown_address(m: AppModel) -> Seq<char> {
    if m.listen_addrs.len() > 0 {
        m.listen_addrs[0]
    } else {
        "waiting..."@
    }
}

/// The line on the state. The total size comes as its text.
pub open spec fn status_text(m: AppModel, size_text: Seq<char>) -> Seq<char> {
    " "@ + text::decimal_text(m.file_count as nat) + " files | "@ + size_text + " | group: "@ + m.group_id + " | "@
        + shown_address(m)
}

/// The header.
pub fn header(state: &AppState, size_text: &str) -> (h: Header)
    ensures
        h.folder@ == " "@ + state@.root_path + " "@,
        h.peer@ == util::cut_end(state@.peer_id, 19) + "..."@,
        h.status@ == status_text(state@, size_text@),
{
    let mut folder = text::joined(" ", state.root_path.as_str());
    folder.append(" ");
    let mut peer = truncate_end(state.peer_id.as_str(), 19);
    peer.append("...");
    let mut status = text::joined(" ", text::decimal(state.file_count as u64).as_str());
    status.append(" files | ");
    status.append(size_text);
    status.append(" | group: ");
    status.append(state.group_id.as_str());
    status.append(" | ");
    if state.listen_addrs.len() > 0 {
        assert(state@.listen_addrs[0] == state.listen_addrs@[0]@);
        status.append(state.listen_addrs[0].as_str());
    } else {
        status.append("waiting...");
    }
    Header { folder, peer, status }
}

/// How long ago something was: seconds within the first minute, then minutes.
pub open spec fn ago_text(secs: nat) -> Seq<char> {
    if secs < 60 {
        text::decimal_text(secs) + "s ago"@
    } else {
        text::decimal_text(secs / 60) + "m ago"@
    }
}

fn ago(secs: u64) -> (s: String)
    ensures
        s@ == ago_text(secs as nat),
{
    if secs < 60 {
        text::joined(text::decimal(secs).as_str(), "s ago")
    } else {
        text::joined(text::decimal(secs / 60).as_str(), "m ago")
    }
}

/// A line of the panel of peers.
#[derive(Debug, PartialEq, Eq)]
pub struct PeerLine {
    pub connected: bool,
    pub mark: String,
    pub text: String,
}

/// The whole seconds since a peer was last in sync.
pub open spec fn idle_secs(p: PeerModel, nanos: u128) -> nat {
    (sync_engine::elapsed(p.last_sync, nanos) / 1_000_000_000) as nat
}

/// Whether a line shows a peer.
pub open spec fn shows_peer(line: PeerLine, p: PeerModel, nanos: u128) -> bool {
    &&& line.connected == p.connected
    &&& line.mark@ == if p.connected {
        " + "@
    } else {
        " - "@
    }
    &&& line.text@ == util::cut_end(p.id, 15) + "...  last sync: "@ + ago_text(idle_secs(p, nanos))
}

/// The line of a peer.
pub fn peer_line(p: &PeerInfo, nanos: u128) -> (line: PeerLine)
    requires
        idle_secs(p@, nanos) <= u64::MAX,
    ensures
        shows_peer(line, p@, nanos),
{
    let spent: u128 = if nanos >= p.last_sync {
        nanos - p.last_sync
    } else {
        0
    };
    let mut s = truncate_end(p.id.as_str(), 15);
    s.append("...  last sync: ");
    s.append(ago((spent / 1_000_000_000) as u64).as_str());
    let mark = if p.connected {
        " + ".to_owned()
    } else {
        " - ".to_owned()
    };
    PeerLine { connected: p.connected, mark, text: s }
}

/// How many peers are connected.
pub open spec fn connected_count(peers: Seq<PeerModel>) -> nat
    decreases peers.len(),
{
    if peers.len() == 0 {
        0
    } else {
        connected_count(peers.drop_last()) + if peers.last().connected {
            1nat
        } else {
            0nat
        }
    }
}

proof fn lemma_connected_count(peers: Seq<PeerModel>)
    ensures
        connected_count(peers) <= peers.len(),
    decreases peers.len(),
{
    if peers.len() > 0 {
        lemma_connected_count(peers.drop_last());
    }
}

/// The panel of peers: its title, and a line for each.
pub fn peers_panel(state: &AppState, nanos: u128) -> (r: (String, Vec<PeerLine>))
    requires
        forall|i: int| 0 <= i < state@.peers.len() ==> idle_secs(#[trigger] state@.peers[i], nanos) <= u64::MAX,
    ensures
        r.0@ == " Peers ("@ + text::decimal_text(connected_count(state@.peers)) + ") "@,
        r.1@.len() == state@.peers.len(),
        forall|i: int| 0 <= i < r.1@.len() ==> shows_peer(#[trigger] r.1@[i], state@.peers[i], nanos),
{
    let ghost peers = state@.peers;
    let mut lines: Vec<PeerLine> = Vec::new();
    let mut connected: u64 = 0;
    let mut i: usize = 0;
    let n: usize = state.peers.len();
    assert(peers.take(0) =~= Seq::<PeerModel>::empty());
    while i < n
        invariant
            0 <= i <= n,
            n == state.peers@.len(),
            peers == state@.peers,
            forall|j: int| 0 <= j < peers.len() ==> idle_secs(#[trigger] peers[j], nanos) <= u64::MAX,
            lines@.len() == i,
            connected <= i,
            connected == connected_count(peers.take(i as int)),
            forall|j: int| 0 <= j < i ==> shows_peer(#[trigger] lines@[j], peers[j], nanos),
        decreases n - i,
    {
        assert(peers[i as int] == state.peers@[i as int]@);
        assert(peers.take(i + 1).drop_last() =~= peers.take(i as int));
        assert(peers.take(i + 1).last() == peers[i as int]);
        if state.peers[i].connected {
            connected = connected + 1;
        }
        lines.push(peer_line(&state.peers[i], nanos));
        i = i + 1;
    }
    assert(peers.take(peers.len() as int) =~= peers);
    let mut title = text::joined(" Peers (", text::decimal(connected).as_str());
    title.append(") ");
    (title, lines)
}

/// A line of the panel of transfers.
#[derive(Debug, PartialEq, Eq)]
pub struct TransferLine {
    pub arrow: String,
    pub text: String,
}

/// The share of the chunks that have come, in percent.
pub open spec fn percent(t: TransferModel) -> nat {
    if t.total_chunks > 0 {
        (t.current_chunk as nat * 100) / (t.total_chunks as nat)
    } else {
        0
    }
}

/// The share of a transfer is between nothing and all of it, and all of it once every chunk is there.
pub proof fn lemma_percent(t: TransferModel)
    ensures
        t.current_chunk <= t.total_chunks ==> percent(t) <= 100,
        0 < t.total_chunks <= t.current_chunk ==> percent(t) >= 100,
{
    let c = t.current_chunk as int;
    let n = t.total_chunks as int;
    if 0 < n {
        if c <= n {
            assert((c * 100) / n <= 100) by (nonlinear_arith)
                requires
                    0 <= c <= n,
                    0 < n,
            ;
        }
        if n <= c {
            assert((c * 100) / n >= 100) by (nonlinear_arith)
                requires
                    0 < n <= c,
            ;
        }
    }
}

/// Whether a line shows a transfer.
pub open spec fn shows_transfer(line: TransferLine, t: TransferModel) -> bool {
    &&& line.arrow@ == match t.direction {
        TransferDirection::Upload => " ^ "@,
        TransferDirection::Download => " v "@,
    }
    &&& line.text@ == util::cut_start(t.path, 30) + "  "@ + text::decimal_text(t.current_chunk as nat) + "/"@
        + text::decimal_text(t.total_chunks as nat) + " chunks  ["@ + text::decimal_text(percent(t)) + "%]"@
}

/// The line of a transfer.
pub fn transfer_line(t: &TransferInfo) -> (line: TransferLine)
    requires
        t.current_chunk * 100 <= usize::MAX,
    ensures
        shows_transfer(line, t@),
{
    let pct: usize = if t.total_chunks > 0 {
        (t.current_chunk * 100) / t.total_chunks
    } else {
        0
    };
    let arrow = match t.direction {
        TransferDirection::Upload => " ^ ".to_owned(),
        TransferDirection::Download => " v ".to_owned(),
    };
    let mut s = truncate_start(t.path.as_str(), 30);
    s.append("  ");
    s.append(text::decimal(t.current_chunk as u64).as_str());
    s.append("/");
    s.append(text::decimal(t.total_chunks as u64).as_str());
    s.append(" chunks  [");
    s.append(text::decimal(pct as u64).as_str());
    s.append("%]");
    TransferLine { arrow, text: s }
}

/// The panel of transfers: its title, and a line for each.
pub fn transfers_panel(state: &AppState) -> (r: (String, Vec<TransferLine>))
    requires
        state.wf(),
    ensures
        r.0@ == " Transfers ("@ + text::decimal_text(state@.transfers.len()) + ") "@,
        r.1@.len() == state@.transfers.len(),
        forall|i: int| 0 <= i < r.1@.len() ==> shows_transfer(#[trigger] r.1@[i], state@.transfers[i]),
{
    let ghost transfers = state@.transfers;
    let mut lines: Vec<TransferLine> = Vec::new();
    let mut i: usize = 0;
    let n: usize = state.transfers.len();
    while i < n
        invariant
            0 <= i <= n,
            n == state.transfers@.len(),
            transfers == state@.transfers,
            tui::shown_ok(transfers),
            lines@.len() == i,
            forall|j: int| 0 <= j < i ==> shows_transfer(#[trigger] lines@[j], transfers[j]),
        decreases n - i,
    {
        assert(transfers[i as int] == state.transfers@[i as int]@);
        lines.push(transfer_line(&state.transfers[i]));
        i = i + 1;
    }
    let mut title = text::joined(" Transfers (", text::decimal(n as u64).as_str());
    title.append(") ");
    (title, lines)
}

/// How a line of the journal stands out.
#[derive(Debug, Clone, Copy, PartialEq, Eq)]
pub enum Level {
    Conflict,
    Warning,
    Plain,
}

/// A line of the journal.
#[derive(Debug, PartialEq, Eq)]
pub struct JournalLine {
    pub level: Level,
    pub text: String,
}

/// How a message stands out.
pub open spec fn level_of(msg: Seq<char>) -> Level {
    if text::occurs("CONFLICT"@, msg) {
        Level::Conflict
    } else if text::occurs("error"@, msg) || text::occurs("failed"@, msg) {
        Level::Warning
    } else {
        Level::Plain
    }
}

/// Decides how a message stands out.
pub fn level(msg: &str) -> (l: Level)
    ensures
        l == level_of(msg@),
{
    if text::contains_text(msg, "CONFLICT") {
        Level::Conflict
    } else if text::contains_text(msg, "error") || text::contains_text(msg, "failed") {
        Level::Warning
    } else {
        Level::Plain
    }
}

/// The panel of the journal, which is `height` lines high with its border: as many lines as there is
/// room for, the newest first.
pub fn journal_panel(state: &AppState, height: usize) -> (lines: Vec<JournalLine>)
    requires
        height >= 2,
    ensures
        lines@.len() == if state@.journal.len() <= height - 2 {
            state@.journal.len() as int
        } else {
            height - 2
        },
        forall|i: int|
            0 <= i < lines@.len() ==> {
                let msg = state@.journal[state@.journal.len() - 1 - i];
                (#[trigger] lines@[i]).level == level_of(msg) && lines@[i].text@ == " "@ + msg
            },
{
    let ghost journal = state@.journal;
    let mut lines: Vec<JournalLine> = Vec::new();
    let n: usize = state.journal.len();
    assert(n == journal.len());
    let room: usize = height - 2;
    let count: usize = if n <= room {
        n
    } else {
        room
    };
    let mut i: usize = 0;
    while i < count
        invariant
            0 <= i <= count <= n,
            n == state.journal@.len(),
            journal == state@.journal,
            n == journal.len(),
            lines@.len() == i,
            forall|j: int|
                0 <= j < i ==> {
                    let msg = journal[journal.len() - 1 - j];
                    (#[trigger] lines@[j]).level == level_of(msg) && lines@[j].text@ == " "@ + msg
                },
        decreases count - i,
    {
        let msg = state.journal[n - 1 - i].as_str();
        assert(msg@ == journal[journal.len() - 1 - i]);
        lines.push(JournalLine { level: level(msg), text: text::joined(" ", msg) });
        i = i + 1;
    }
    lines
}

} // verus!
