//! What the user gets to see: a download that tells how far it is, and a dashboard that forgets nothing it
//! should show.

use vstd::prelude::*;

use crate::config::TuiConfig;
use crate::path;
use crate::progress;
use crate::progress::{FetchProgress, OutputModel};
use crate::render;
use crate::render::Level;
use crate::sync_engine::{EventModel, TransferDirection};
use crate::text;
use crate::transfer;
use crate::tui;
use crate::tui::{AppModel, AppState, Moment, PeerInfo, PeerModel, TransferInfo, TransferModel};
use crate::util;

verus! {

broadcast use vstd::seq::group_seq_axioms;

/// How a download goes on. It is connected once the peer that it waits for is; it counts every file that has
/// come; it is complete once the reconciliation with that peer is; and it is over then, or where something
/// failed once the peer was connected.
pub proof fn lemma_how_a_download_goes_on(p: FetchProgress, event: EventModel, peer: Seq<char>)
    requires
        p.files_downloaded < usize::MAX,
    ensures
        ({
            let q = progress::progress_after(p, event, peer);
            let done = event matches EventModel::ReconciliationComplete { peer: r, .. } && r == peer;
            let failed = event matches EventModel::Log(m) && text::occurs("failed"@, m) && p.target_connected;
            let came = event matches EventModel::TransferComplete { direction, .. } && direction
                == TransferDirection::Download;
            &&& q.target_connected <==> p.target_connected || event == EventModel::PeerConnected(peer)
            &&& q.reconciliation_done <==> p.reconciliation_done || done
            &&& q.finished <==> p.finished || done || failed
            &&& q.files_downloaded == p.files_downloaded + if came {
                1int
            } else {
                0int
            }
        }),
{
}

/// A reconciliation that fails ends a download that was connected, and the user is told why.
pub proof fn lemma_a_failed_reconciliation_ends_the_download(p: FetchProgress, error: Seq<char>, peer: Seq<char>)
    requires
        p.target_connected,
    ensures
        ({
            let event = EventModel::Log("reconciliation failed: "@ + error);
            &&& progress::progress_after(p, event, peer).finished
            &&& progress::progress_after(p, event, peer).reconciliation_done == p.reconciliation_done
            &&& progress::printed_of(p, event, peer) == seq![
                OutputModel::Line("  error: "@ + ("reconciliation failed: "@ + error)),
            ]
        }),
{
    let m = "reconciliation failed: "@ + error;
    reveal_strlit("reconciliation failed: ");
    reveal_strlit("failed");
    assert(m.subrange(15, 21) =~= "failed"@);
    assert(text::occurs("failed"@, m)) by {
        assert(m.subrange(15, 15int + "failed"@.len()) == "failed"@);
    }
}

/// What is printed during a download: where it listens, that the peer is connected, each file as it comes with
/// the number of files so far, how many were fetched in the end, and what failed.
pub proof fn lemma_what_a_download_prints(p: FetchProgress, peer: Seq<char>, t: Seq<char>, n: usize)
    requires
        p.files_downloaded < usize::MAX,
    ensures
        progress::printed_of(p, EventModel::Listening(t), peer) == seq![OutputModel::Line("  listening on "@ + t)],
        progress::printed_of(p, EventModel::PeerConnected(peer), peer) == seq![
            OutputModel::Line("  connected, syncing..."@),
        ],
        t != peer ==> progress::printed_of(p, EventModel::PeerConnected(t), peer).len() == 0,
        progress::printed_of(
            p,
            EventModel::TransferComplete { path: t, direction: TransferDirection::Download },
            peer,
        ) == seq![
            OutputModel::Rewrite(
                "  "@ + text::decimal_text((p.files_downloaded + 1) as nat) + " files  (latest: "@ + t + ")"@,
            ),
        ],
        progress::printed_of(p, EventModel::TransferComplete { path: t, direction: TransferDirection::Upload }, peer).len()
            == 0,
        progress::printed_of(p, EventModel::ReconciliationComplete { peer, files_synced: n }, peer).last()
            == OutputModel::Line("  done: "@ + text::decimal_text(n as nat) + " files fetched"@),
        progress::printed_of(p, EventModel::ReconciliationComplete { peer, files_synced: n }, peer).len() == if p.files_downloaded
            > 0 {
            2nat
        } else {
            1nat
        },
        p.files_downloaded > 0 ==> progress::printed_of(
            p,
            EventModel::ReconciliationComplete { peer, files_synced: n },
            peer,
        )[0] == OutputModel::Line(Seq::empty()),
        t != peer ==> progress::printed_of(p, EventModel::ReconciliationComplete { peer: t, files_synced: n }, peer).len()
            == 0,
        !p.target_connected ==> progress::printed_of(p, EventModel::Log(t), peer).len() == 0,
        !text::occurs("failed"@, t) ==> progress::printed_of(p, EventModel::Log(t), peer).len() == 0,
{
}

/// Without a dashboard every event is logged, but for the beginning of a transfer and its chunks; and what is
/// logged says what happened, and to whom.
pub proof fn lemma_what_is_logged(t: Seq<char>, u: Seq<char>, n: usize, size: u64, event: EventModel)
    ensures
        progress::logged_of(event) is None <==> event is TransferStarted || event is ChunkTransferred,
        progress::logged_of(EventModel::Log(t)) == Some(t),
        progress::logged_of(EventModel::PeerConnected(t)) == Some("peer connected: "@ + t),
        progress::logged_of(EventModel::PeerDisconnected(t)) == Some("peer disconnected: "@ + t),
        progress::logged_of(EventModel::Listening(t)) == Some("listening on "@ + t),
        progress::logged_of(EventModel::TransferComplete { path: t, direction: TransferDirection::Upload }) == Some(
            "Upload complete: "@ + t,
        ),
        progress::logged_of(EventModel::TransferComplete { path: t, direction: TransferDirection::Download }) == Some(
            "Download complete: "@ + t,
        ),
        progress::logged_of(EventModel::Conflict { path: t, conflict_path: u }) == Some("CONFLICT: "@ + t + " -> "@ + u),
        progress::logged_of(EventModel::RemoteDelete { path: t }) == Some("synced deletion "@ + t),
        progress::logged_of(EventModel::ReconciliationComplete { peer: t, files_synced: n }) == Some(
            "reconciliation with "@ + t + " complete ("@ + text::decimal_text(n as nat) + " files)"@,
        ),
        progress::logged_of(EventModel::IndexReady { file_count: n, total_size: size }) == Some(
            text::decimal_text(n as nat) + " files indexed ("@ + text::decimal_text(size as nat) + " bytes)"@,
        ),
{
}

/// A relay tells its whole address, and how it is written into a config file.
pub proof fn lemma_a_relay_tells_its_address(address: Seq<char>, peer: Seq<char>)
    ensures
        ({
            let lines = progress::relay_lines(address, peer);
            let full = address + "/p2p/"@ + peer;
            &&& lines.len() == 4
            &&& lines[0] == "Relay listening on: "@ + full
            &&& lines[1] == "  Add to .p2sync.toml:"@
            &&& lines[2] == "  [network]"@
            &&& lines[3] == "  relay = \""@ + full + "\""@
        }),
{
}

/// The journal keeps the newest lines, in their order: a new line goes to its end with the time before it, and
/// what does not fit goes from its beginning.
pub proof fn lemma_the_journal_keeps_the_newest_lines(
    journal: Seq<Seq<char>>,
    max_log_lines: usize,
    msg: Seq<char>,
    unix_secs: u64,
)
    requires
        journal.len() <= max_log_lines,
    ensures
        ({
            let all = journal.push(tui::clock_text(unix_secs) + seq![' '] + msg);
            tui::journal_with(journal, max_log_lines, msg, unix_secs) == if all.len() <= max_log_lines {
                all
            } else {
                all.skip(all.len() - max_log_lines)
            }
        }),
{
    let all = journal.push(tui::clock_text(unix_secs) + seq![' '] + msg);
    if all.len() > max_log_lines {
        assert(tui::journal_with(journal, max_log_lines, msg, unix_secs) =~= all.skip(all.len() - max_log_lines));
    }
}

/// Which events make a line in the journal, and what it says. An event that makes none leaves the journal as
/// it is.
pub proof fn lemma_what_the_journal_says(m: AppModel, event: EventModel, at: Moment, size_text: Seq<char>)
    ensures
        ({
            let next = tui::after_event(m, event, at, size_text);
            let line = |msg: Seq<char>| tui::journal_with(m.journal, m.tui_config.max_log_lines, msg, at.unix_secs);
            &&& event matches EventModel::Log(msg) ==> next.journal == line(msg)
            &&& event matches EventModel::Conflict { path, conflict_path } ==> next.journal == line(
                "CONFLICT "@ + path + " -> "@ + conflict_path,
            )
            &&& event matches EventModel::RemoteDelete { path } ==> next.journal == line("synced deletion "@ + path)
            &&& event matches EventModel::IndexReady { file_count, .. } ==> next.journal == line(
                text::decimal_text(file_count as nat) + " files indexed ("@ + size_text + " total)"@,
            )
            &&& event matches EventModel::ReconciliationComplete { peer, files_synced } ==> next.journal == line(
                "sync with "@ + util::cut_end(peer, 15) + "... complete ("@ + text::decimal_text(
                    files_synced as nat,
                ) + " files)"@,
            )
            &&& event is PeerConnected || event is PeerDisconnected || event is Listening || event is TransferStarted
                || event is ChunkTransferred || event is TransferComplete ==> next.journal == m.journal
        }),
{
}

/// A conflict stands out in the journal, whatever the paths are.
pub proof fn lemma_a_conflict_stands_out(m: AppModel, path: Seq<char>, copy: Seq<char>, at: Moment, size_text: Seq<char>)
    requires
        m.tui_config.max_log_lines > 0,
    ensures
        render::level_of(
            tui::after_event(m, EventModel::Conflict { path, conflict_path: copy }, at, size_text).journal.last(),
        ) == Level::Conflict,
{
    let msg = "CONFLICT "@ + path + " -> "@ + copy;
    let head = tui::clock_text(at.unix_secs) + seq![' '];
    let line = head + msg;
    reveal_strlit("CONFLICT");
    reveal_strlit("CONFLICT ");
    let i = head.len() as int;
    assert(line.subrange(i, i + "CONFLICT"@.len()) =~= "CONFLICT"@);
    assert(text::occurs("CONFLICT"@, line));
}

/// How a line stands out: as a conflict where it speaks of one, as a warning where it speaks of an error or a
/// failure, and else not.
pub proof fn lemma_how_a_line_stands_out(msg: Seq<char>)
    ensures
        render::level_of(msg) == Level::Conflict <==> text::occurs("CONFLICT"@, msg),
        render::level_of(msg) == Level::Warning <==> !text::occurs("CONFLICT"@, msg) && (text::occurs("error"@, msg)
            || text::occurs("failed"@, msg)),
{
}

/// What the dashboard shows of the folder and of itself changes with the event that tells of it, and with no
/// other.
pub proof fn lemma_the_dashboard_keeps_the_rest(m: AppModel, event: EventModel, at: Moment, size_text: Seq<char>)
    ensures
        ({
            let next = tui::after_event(m, event, at, size_text);
            &&& next.peer_id == m.peer_id
            &&& next.group_id == m.group_id
            &&& next.root_path == m.root_path
            &&& next.tui_config == m.tui_config
            &&& event matches EventModel::IndexReady { file_count, total_size } ==> next.file_count == file_count
                && next.total_size == total_size
            &&& !(event is IndexReady) ==> next.file_count == m.file_count && next.total_size == m.total_size
            &&& event matches EventModel::Listening(a) ==> next.listen_addrs == m.listen_addrs.push(a)
            &&& !(event is Listening) ==> next.listen_addrs == m.listen_addrs
            &&& !(event is PeerConnected || event is PeerDisconnected || event is ChunkTransferred) ==> next.peers
                == m.peers
            &&& !(event is TransferStarted || event is ChunkTransferred || event is TransferComplete) ==> next.transfers
                == m.transfers
        }),
{
}

/// A peer that connects is shown as connected, as of now, and no other peer changes. It is added where it was
/// not shown, and never twice.
pub proof fn lemma_a_peer_that_connects_is_shown(peers: Seq<PeerModel>, id: Seq<char>, nanos: u128, i: int)
    ensures
        ({
            let next = tui::with_connected(peers, id, nanos);
            let known = exists|k: int| 0 <= k < peers.len() && (#[trigger] peers[k]).id == id;
            &&& next.len() == peers.len() + if known {
                0int
            } else {
                1int
            }
            &&& 0 <= i < peers.len() && peers[i].id != id ==> next[i] == peers[i]
            &&& 0 <= i < peers.len() && peers[i].id == id ==> next[i].id == id && next[i].connected && next[i].last_sync
                == nanos
            &&& !known ==> next.last().id == id && next.last().connected && next.last().last_sync == nanos
        }),
{
    if 0 <= i < peers.len() && peers[i].id == id {
        assert(peers[i].id == id);
    }
}

/// A peer that leaves is shown as gone, with the time of its last sync, and no other peer changes.
pub proof fn lemma_a_peer_that_leaves_is_shown(peers: Seq<PeerModel>, id: Seq<char>, i: int)
    requires
        0 <= i < peers.len(),
    ensures
        ({
            let next = tui::with_disconnected(peers, id);
            &&& next.len() == peers.len()
            &&& next[i].id == peers[i].id
            &&& next[i].last_sync == peers[i].last_sync
            &&& next[i].connected <==> peers[i].connected && peers[i].id != id
        }),
{
}

/// Data that comes is a sign of life of every connected peer, and of no other.
pub proof fn lemma_data_is_a_sign_of_life(peers: Seq<PeerModel>, nanos: u128, i: int)
    requires
        0 <= i < peers.len(),
    ensures
        ({
            let next = tui::with_data(peers, nanos);
            &&& next.len() == peers.len()
            &&& next[i].id == peers[i].id
            &&& next[i].connected == peers[i].connected
            &&& next[i].last_sync == if peers[i].connected {
                nanos
            } else {
                peers[i].last_sync
            }
        }),
{
}

/// The peers that the dashboard shows are those that events tell of.
pub proof fn lemma_events_tell_of_peers(m: AppModel, id: Seq<char>, at: Moment, size_text: Seq<char>)
    ensures
        tui::after_event(m, EventModel::PeerConnected(id), at, size_text).peers == tui::with_connected(
            m.peers,
            id,
            at.nanos,
        ),
        tui::after_event(m, EventModel::PeerDisconnected(id), at, size_text).peers == tui::with_disconnected(m.peers, id),
{
}

proof fn lemma_transfer_of(transfers: Seq<TransferModel>, path: Seq<char>, from: int)
    requires
        0 <= from,
    ensures
        match tui::transfer_of(transfers, path, from) {
            Some(i) => from <= i < transfers.len() && path::parts(transfers[i].path) == path::parts(path) && forall|j: int|
                from <= j < i ==> path::parts((#[trigger] transfers[j]).path) != path::parts(path),
            None => forall|j: int|
                from <= j < transfers.len() ==> path::parts((#[trigger] transfers[j]).path) != path::parts(path),
        },
    decreases transfers.len() - from,
{
    if from < transfers.len() && path::parts(transfers[from].path) != path::parts(path) {
        lemma_transfer_of(transfers, path, from + 1);
    }
}

/// A transfer that starts is shown behind the others, with none of its chunks.
pub proof fn lemma_a_transfer_that_starts_is_shown(
    m: AppModel,
    path: Seq<char>,
    direction: TransferDirection,
    total_chunks: usize,
    at: Moment,
    size_text: Seq<char>,
)
    ensures
        ({
            let next = tui::after_event(
                m,
                EventModel::TransferStarted { path, direction, total_chunks },
                at,
                size_text,
            ).transfers;
            &&& next.len() == m.transfers.len() + 1
            &&& next.drop_last() == m.transfers
            &&& next.last() == (TransferModel { path, direction, current_chunk: 0, total_chunks })
        }),
{
    let next = tui::after_event(m, EventModel::TransferStarted { path, direction, total_chunks }, at, size_text).transfers;
    assert(next.drop_last() =~= m.transfers);
}

/// A chunk that comes is counted for the first transfer of its path, and for no other; the connected peers
/// have given a sign of life. A chunk of a file that is not being transferred changes nothing.
pub proof fn lemma_a_chunk_that_comes_is_counted(m: AppModel, path: Seq<char>, chunk_index: usize, at: Moment, k: int)
    requires
        chunk_index < usize::MAX,
        0 <= k < m.transfers.len(),
    ensures
        ({
            let next = tui::with_chunk(m, path, chunk_index, at);
            let first = path::parts(m.transfers[k].path) == path::parts(path) && forall|j: int|
                0 <= j < k ==> path::parts((#[trigger] m.transfers[j]).path) != path::parts(path);
            let known = exists|j: int|
                0 <= j < m.transfers.len() && path::parts((#[trigger] m.transfers[j]).path) == path::parts(path);
            &&& next.transfers.len() == m.transfers.len()
            &&& first ==> next.transfers[k] == (TransferModel {
                current_chunk: (chunk_index + 1) as usize,
                ..m.transfers[k]
            })
            &&& !first ==> next.transfers[k] == m.transfers[k]
            &&& known ==> next.peers == tui::with_data(m.peers, at.nanos)
            &&& !known ==> next == m
        }),
{
    lemma_transfer_of(m.transfers, path, 0);
    let first = path::parts(m.transfers[k].path) == path::parts(path) && forall|j: int|
        0 <= j < k ==> path::parts((#[trigger] m.transfers[j]).path) != path::parts(path);
    if let Some(i) = tui::transfer_of(m.transfers, path, 0) {
        assert(path::parts(m.transfers[i].path) == path::parts(path));
        if first && i != k {
            if i < k {
                assert(path::parts(m.transfers[i].path) != path::parts(path));
            } else {
                assert(path::parts(m.transfers[k].path) != path::parts(path));
            }
        }
    }
}

/// What the dashboard does about a chunk is what counts it.
pub proof fn lemma_events_tell_of_chunks(
    m: AppModel,
    path: Seq<char>,
    direction: TransferDirection,
    chunk_index: usize,
    total_chunks: usize,
    at: Moment,
    size_text: Seq<char>,
)
    ensures
        tui::after_event(
            m,
            EventModel::ChunkTransferred { path, direction, chunk_index, total_chunks },
            at,
            size_text,
        ) == tui::with_chunk(m, path, chunk_index, at),
{
}

/// A transfer that is complete is no longer shown, and every transfer of another path still is.
pub proof fn lemma_a_transfer_that_is_complete_is_gone(
    m: AppModel,
    path: Seq<char>,
    direction: TransferDirection,
    at: Moment,
    size_text: Seq<char>,
    t: TransferModel,
)
    ensures
        tui::after_event(m, EventModel::TransferComplete { path, direction }, at, size_text).transfers.contains(t)
            <==> m.transfers.contains(t) && path::parts(t.path) != path::parts(path),
{
    let keep = |t: TransferModel| path::parts(t.path) != path::parts(path);
    lemma_filter_holds(m.transfers, keep, t);
}

proof fn lemma_filter_holds(s: Seq<TransferModel>, keep: spec_fn(TransferModel) -> bool, t: TransferModel)
    ensures
        s.filter(keep).contains(t) <==> s.contains(t) && keep(t),
    decreases s.len(),
{
    reveal(Seq::filter);
    if s.len() > 0 {
        let rest = s.drop_last();
        let last = s.last();
        lemma_filter_holds(rest, keep, t);
        assert(s.contains(t) <==> rest.contains(t) || t == last) by {
            if rest.contains(t) {
                let i = choose|i: int| 0 <= i < rest.len() && rest[i] == t;
                assert(s[i] == t);
            }
            if t == last {
                assert(s[s.len() - 1] == t);
            }
            if s.contains(t) {
                let i = choose|i: int| 0 <= i < s.len() && s[i] == t;
                if i < rest.len() {
                    assert(rest[i] == t);
                }
            }
        }
        let before = rest.filter(keep);
        let after = s.filter(keep);
        if keep(last) {
            assert(after == before.push(last));
            assert(after.contains(t) <==> before.contains(t) || t == last) by {
                if before.contains(t) {
                    let i = choose|i: int| 0 <= i < before.len() && before[i] == t;
                    assert(after[i] == t);
                }
                if t == last {
                    assert(after[after.len() - 1] == t);
                }
                if after.contains(t) {
                    let i = choose|i: int| 0 <= i < after.len() && after[i] == t;
                    if i < before.len() {
                        assert(before[i] == t);
                    }
                }
            }
        }
    } else {
        assert(s.filter(keep) =~= Seq::<TransferModel>::empty());
    }
}

/// A peer more is counted exactly where it is connected.
pub proof fn lemma_connected_peers_are_counted(peers: Seq<PeerModel>, p: PeerModel)
    ensures
        render::connected_count(Seq::empty()) == 0,
        render::connected_count(peers.push(p)) == render::connected_count(peers) + if p.connected {
            1nat
        } else {
            0nat
        },
{
    assert(peers.push(p).drop_last() =~= peers);
}

/// The share of a transfer, in percent, is the greatest number that is not more than it is.
pub proof fn lemma_the_share_of_a_transfer(t: TransferModel)
    ensures
        t.total_chunks > 0 ==> {
            let p = render::percent(t);
            &&& p * t.total_chunks <= 100 * t.current_chunk
            &&& 100 * t.current_chunk < (p + 1) * t.total_chunks
        },
        t.total_chunks == 0 ==> render::percent(t) == 0,
{
    if t.total_chunks > 0 {
        let a = t.current_chunk as int * 100;
        let n = t.total_chunks as int;
        let p = render::percent(t) as int;
        assert(p == a / n);
        vstd::arithmetic::div_mod::lemma_fundamental_div_mod(a, n);
        assert(p * n <= a < (p + 1) * n) by (nonlinear_arith)
            requires
                a == n * p + a % n,
                0 <= a % n < n,
        ;
    }
}

/// The time since something is told in seconds within the first minute, and in whole minutes after it.
pub proof fn lemma_how_long_ago(minutes: nat, secs: nat)
    requires
        secs < 60,
    ensures
        minutes == 0 ==> render::ago_text(minutes * 60 + secs) == text::decimal_text(secs) + "s ago"@,
        minutes > 0 ==> render::ago_text(minutes * 60 + secs) == text::decimal_text(minutes) + "m ago"@,
{
    assert((minutes * 60 + secs) / 60 == minutes);
}

/// The seconds since the last sync of a peer are whole seconds, and none where the clock went back.
pub proof fn lemma_how_long_a_peer_is_idle(p: PeerModel, secs: nat, rest: nat, nanos: u128)
    requires
        rest < 1_000_000_000,
        nanos == p.last_sync + secs * 1_000_000_000 + rest,
    ensures
        render::idle_secs(p, nanos) == secs,
{
    let spent = secs * 1_000_000_000 + rest;
    assert(spent / 1_000_000_000 == secs);
}

/// The address that is shown is the first at which this peer can be reached.
pub proof fn lemma_the_first_address_is_shown(m: AppModel)
    ensures
        m.listen_addrs.len() > 0 ==> render::shown_address(m) == m.listen_addrs[0],
        m.listen_addrs.len() == 0 ==> render::shown_address(m) == "waiting..."@,
{
}

/// The time for the connection ends a download exactly where the peer is not connected; it changes nothing else.
pub proof fn lemma_a_connected_download_does_not_time_out(p: FetchProgress)
    ensures
        progress::after_timeout(p).finished <==> p.finished || !p.target_connected,
        progress::after_timeout(p).target_connected == p.target_connected,
        progress::after_timeout(p).reconciliation_done == p.reconciliation_done,
        progress::after_timeout(p).files_downloaded == p.files_downloaded,
{
}

/// A download begins with nothing, and is a success exactly once the reconciliation is complete.
pub proof fn lemma_a_download_begins_with_nothing(p: FetchProgress, q: FetchProgress, r: Result<(), &'static str>)
    requires
        call_ensures(FetchProgress::new, (), p),
        call_ensures(FetchProgress::outcome, (&q,), r),
    ensures
        p.files_downloaded == 0 && !p.target_connected && !p.reconciliation_done && !p.finished,
        r is Ok <==> q.reconciliation_done,
        r matches Err(s) ==> s@ == "fetch did not complete"@,
{
}

/// Every file that is fetched is counted by the download, and no longer shown as a transfer.
pub proof fn lemma_a_fetched_file_is_counted(
    p: FetchProgress,
    rel: Seq<char>,
    peer: Seq<char>,
    m: AppModel,
    at: Moment,
    size_text: Seq<char>,
    t: TransferModel,
)
    requires
        p.files_downloaded < usize::MAX,
    ensures
        transfer::told_of_fetch(rel).len() == 2,
        progress::progress_after(p, transfer::told_of_fetch(rel)[0], peer).files_downloaded == p.files_downloaded + 1,
        tui::after_event(m, transfer::told_of_fetch(rel)[0], at, size_text).transfers.contains(t) ==> path::parts(t.path)
            != path::parts(rel),
        transfer::told_of_fetch(rel)[1] == EventModel::Log("synced "@ + rel),
{
    lemma_a_transfer_that_is_complete_is_gone(m, rel, TransferDirection::Download, at, size_text, t);
}

/// A new dashboard shows the peer, the group and the folder that it is for, and nothing else.
pub proof fn lemma_a_new_dashboard_is_empty(
    peer_id: String,
    group_id: String,
    root_path: String,
    tui_config: TuiConfig,
    s: AppState,
)
    requires
        call_ensures(AppState::new, (peer_id, group_id, root_path, tui_config), s),
    ensures
        s@.peer_id == peer_id@,
        s@.group_id == group_id@,
        s@.root_path == root_path@,
        s@.tui_config == tui_config,
        s@.file_count == 0 && s@.total_size == 0,
        s@.listen_addrs.len() == 0 && s@.peers.len() == 0 && s@.transfers.len() == 0 && s@.journal.len() == 0,
{
}

/// The header shows the folder, the beginning of this peer's identifier, the number and size of the files, the
/// group, and where the peer can be reached.
pub proof fn lemma_what_the_header_shows(state: &AppState, size_text: &str, h: render::Header)
    requires
        call_ensures(render::header, (state, size_text), h),
    ensures
        h.folder@ == " "@ + state@.root_path + " "@,
        h.peer@ == util::cut_end(state@.peer_id, 19) + "..."@,
        h.status@ == " "@ + text::decimal_text(state@.file_count as nat) + " files | "@ + size_text@ + " | group: "@
            + state@.group_id + " | "@ + render::shown_address(state@),
{
}

/// The line of a peer shows whether it is connected, the beginning of its identifier, and when it was last in
/// sync.
pub proof fn lemma_what_the_line_of_a_peer_shows(p: &PeerInfo, nanos: u128, line: render::PeerLine)
    requires
        render::idle_secs(p@, nanos) <= u64::MAX,
        call_ensures(render::peer_line, (p, nanos), line),
    ensures
        line.connected == p.connected,
        p.connected ==> line.mark@ == " + "@,
        !p.connected ==> line.mark@ == " - "@,
        line.text@ == util::cut_end(p.id@, 15) + "...  last sync: "@ + render::ago_text(render::idle_secs(p@, nanos)),
{
}

/// The line of a transfer shows which way it goes, the end of its path, and how far it is.
pub proof fn lemma_what_the_line_of_a_transfer_shows(t: &TransferInfo, line: render::TransferLine)
    requires
        t.current_chunk * 100 <= usize::MAX,
        call_ensures(render::transfer_line, (t,), line),
    ensures
        t.direction == TransferDirection::Upload ==> line.arrow@ == " ^ "@,
        t.direction == TransferDirection::Download ==> line.arrow@ == " v "@,
        line.text@ == util::cut_start(t.path@, 30) + "  "@ + text::decimal_text(t.current_chunk as nat) + "/"@
            + text::decimal_text(t.total_chunks as nat) + " chunks  ["@ + text::decimal_text(render::percent(t@)) + "%]"@,
{
}

/// The panels show every peer and every transfer, in their order, and count them in their titles.
pub proof fn lemma_the_panels_show_everything(
    state: &AppState,
    nanos: u128,
    peers: (String, Vec<render::PeerLine>),
    transfers: (String, Vec<render::TransferLine>),
    i: int,
)
    requires
        state.wf(),
        forall|i: int| 0 <= i < state@.peers.len() ==> render::idle_secs(#[trigger] state@.peers[i], nanos) <= u64::MAX,
        call_ensures(render::peers_panel, (state, nanos), peers),
        call_ensures(render::transfers_panel, (state,), transfers),
    ensures
        peers.0@ == " Peers ("@ + text::decimal_text(render::connected_count(state@.peers)) + ") "@,
        peers.1@.len() == state@.peers.len(),
        0 <= i < state@.peers.len() ==> peers.1@[i].connected == state@.peers[i].connected,
        transfers.0@ == " Transfers ("@ + text::decimal_text(state@.transfers.len()) + ") "@,
        transfers.1@.len() == state@.transfers.len(),
{
    if 0 <= i < state@.peers.len() {
        assert(render::shows_peer(peers.1@[i], state@.peers[i], nanos));
    }
}

/// The journal panel shows the newest line first, and as many lines as there is room for.
pub proof fn lemma_the_journal_panel_shows_the_newest_first(
    state: &AppState,
    height: usize,
    lines: Vec<render::JournalLine>,
    i: int,
)
    requires
        height >= 2,
        call_ensures(render::journal_panel, (state, height), lines),
        0 <= i < state@.journal.len(),
        i < height - 2,
    ensures
        i < lines@.len(),
        lines@.len() <= height - 2,
        lines@.len() <= state@.journal.len(),
        lines@[i].text@ == " "@ + state@.journal[state@.journal.len() - 1 - i],
        lines@[i].level == render::level_of(state@.journal[state@.journal.len() - 1 - i]),
{
    assert(lines@[i].text@ == lines@[i].text@);
}

/// Nothing else is printed during a download; and whatever failed is printed once the peer is connected.
pub proof fn lemma_what_a_download_does_not_print(p: FetchProgress, event: EventModel, peer: Seq<char>)
    ensures
        event is IndexReady || event is PeerDisconnected || event is TransferStarted || event is ChunkTransferred
            || event is Conflict || event is RemoteDelete ==> progress::printed_of(p, event, peer).len() == 0,
        event matches EventModel::Log(m) ==> (text::occurs("failed"@, m) && p.target_connected ==> progress::printed_of(
            p,
            event,
            peer,
        ) == seq![OutputModel::Line("  error: "@ + m)]),
{
}

/// The transfers that stay when one is complete stay in their order.
pub proof fn lemma_other_transfers_stay_in_order(
    m: AppModel,
    path: Seq<char>,
    direction: TransferDirection,
    at: Moment,
    size_text: Seq<char>,
)
    ensures
        tui::after_event(m, EventModel::TransferComplete { path, direction }, at, size_text).transfers
            == m.transfers.filter(|t: TransferModel| path::parts(t.path) != path::parts(path)),
{
}

} // verus!
