use p2sync::cli::{
    Cli, Commands, MISSING_PEER, PEER_ENV_VAR, PeerSource, RunMode, build_config, checked_peer, group_of,
    listen_address, log_filter, peer_source, resolve_peer_id,
};
use p2sync::config::{P2SyncConfig, TuiConfig};
use p2sync::progress::{FetchProgress, Output, headless_line, relay_listening};
use p2sync::render::{Level, header, journal_panel, level, peers_panel, transfers_panel};
use p2sync::sync_engine::{SyncEvent, TransferDirection};
use p2sync::text::{contains_text, trim};
use p2sync::tui::{AppState, Moment, time_of_day};
use p2sync::util::{now_secs, peer_id_hex, truncate_end, truncate_start};

const PEER: &str = "12D3KooWD3eckifWpRn9wQpMG9R9hX3sD158z7EqHWmweQAJU5SA";

fn at(secs: u64) -> Moment {
    Moment { nanos: secs as u128 * 1_000_000_000, unix_secs: secs }
}

fn state(max_log_lines: usize) -> AppState {
    AppState::new(
        PEER.to_string(),
        "group".to_string(),
        "/folder".to_string(),
        TuiConfig { max_log_lines, refresh_interval_ms: 50 },
    )
}

fn log(s: &str) -> SyncEvent {
    SyncEvent::Log(s.to_string())
}

#[test]
fn texts_are_cut() {
    assert_eq!(truncate_end("abcdef", 6), "abcdef");
    assert_eq!(truncate_end("abcdefg", 6), "abc...");
    assert_eq!(truncate_end("abcd", 3), "...");
    assert_eq!(truncate_end("abcd", 2), "ab");
    assert_eq!(truncate_end("abcd", 0), "");
    assert_eq!(truncate_start("abcd", 2), "cd");
    assert_eq!(truncate_start("abcd", 0), "");
    assert_eq!(truncate_start("abcdefg", 6), "...efg");
    assert_eq!(truncate_start("äöü", 3), "äöü");
    assert_eq!(truncate_start("xäöüß", 4), "...ß");
    assert_eq!(peer_id_hex(&[0, 1, 0xab, 0xff, 16, 15, 9, 10]), "0001abff100f090a");
    assert!(now_secs() > 1_600_000_000);
}

#[test]
fn white_space_is_trimmed() {
    assert_eq!(trim(" \t\nab c\u{3000}\u{a0} "), "ab c");
    assert_eq!(trim("\u{2003}\u{85}"), "");
    assert_eq!(trim("\u{200b}x"), "\u{200b}x");
    assert_eq!(trim(" a\u{2028} "), "a");
    assert!(contains_text("abcab", "cab"));
    assert!(contains_text("abc", ""));
    assert!(!contains_text("abc", "abcd"));
    assert!(!contains_text("aab", "ba"));
}

#[test]
fn commands_and_what_they_run() {
    let share = |readonly| Commands::Share { path: ".".to_string(), exclude: vec![], readonly, port: 0 };
    assert_eq!(share(true).mode(), RunMode::Sync { no_push: false, no_pull: true, joins: false });
    assert_eq!(share(false).mode(), RunMode::Sync { no_push: false, no_pull: false, joins: false });
    let sync = Commands::Sync { path: ".".to_string(), peer: None, exclude: vec![], readonly: true, port: 0 };
    assert_eq!(sync.mode(), RunMode::Sync { no_push: true, no_pull: false, joins: true });
    let fetch = Commands::Fetch { path: ".".to_string(), peer: None, exclude: vec![], port: 0 };
    assert_eq!(fetch.mode(), RunMode::Fetch);
    assert_eq!(Commands::Relay { port: 4001 }.mode(), RunMode::Relay);
    let cli = Cli { command: fetch, no_tui: false };
    assert!(cli.use_tui(true));
    assert!(!cli.use_tui(false));
    assert!(!Cli { command: share(true), no_tui: true }.use_tui(true));
    assert_eq!(log_filter(true), "warn,libp2p_kad=error");
    assert_eq!(log_filter(false), "info,libp2p_kad=error");
    assert_eq!(listen_address(4001), "/ip4/0.0.0.0/tcp/4001");
    assert_eq!(group_of(Some("P"), "L"), "P");
    assert_eq!(group_of(None, "L"), "L");
}

#[test]
fn where_the_peer_comes_from() {
    assert_eq!(PEER_ENV_VAR, "P2SYNC_PEER_ID");
    assert_eq!(peer_source(Some("x".to_string()), false), PeerSource::Given("x".to_string()));
    assert_eq!(peer_source(None, true), PeerSource::Prompt);
    assert_eq!(peer_source(None, false), PeerSource::Missing);
    assert!(MISSING_PEER.starts_with("no peer ID provided.\nRun 'p2sync share <path>'"));
    assert_eq!(resolve_peer_id(&format!("  {PEER}\n")), Ok(PEER.to_string()));
    assert_eq!(
        resolve_peer_id(" this is certainly not a peer "),
        Err("invalid peer ID format.\nA PeerId looks like: 12D3KooWRk... (base58-encoded, starts with '12D3Koo')\nGot: 'this is certainly no...'".to_string())
    );
    assert_eq!(checked_peer(" x ", Some(vec![1])), Ok("x".to_string()));
    assert!(checked_peer(" x ", None).is_err());
}

#[test]
fn default_excludes_are_added_once() {
    let config = build_config(
        "/folder",
        vec!["target".to_string(), ".git".to_string()],
        true,
        false,
        "g".to_string(),
        &P2SyncConfig::default(),
    );
    assert_eq!(config.exclude_patterns, vec!["target", ".git", ".DS_Store", ".p2sync.toml"]);
    assert_eq!(config.root_path, "/folder");
    assert_eq!(config.group_id, "g");
    assert!(config.no_push);
    assert!(!config.no_pull);
}

#[test]
fn a_download_from_beginning_to_end() {
    let mut p = FetchProgress::new();
    let line = |s: &str| vec![Output::Line(s.to_string())];
    assert_eq!(p.on_event(&SyncEvent::Listening("/a".to_string()), "P"), line("  listening on /a"));
    assert_eq!(p.on_event(&log("x failed"), "P"), vec![]);
    assert_eq!(p.on_event(&SyncEvent::PeerConnected("Q".to_string()), "P"), vec![]);
    assert!(!p.target_connected);
    assert_eq!(p.on_event(&SyncEvent::PeerConnected("P".to_string()), "P"), line("  connected, syncing..."));
    let done = |direction| SyncEvent::TransferComplete { path: "f".to_string(), direction };
    assert_eq!(p.on_event(&done(TransferDirection::Upload), "P"), vec![]);
    assert_eq!(
        p.on_event(&done(TransferDirection::Download), "P"),
        vec![Output::Rewrite("  1 files  (latest: f)".to_string())]
    );
    let complete = |peer: &str| SyncEvent::ReconciliationComplete { peer: peer.to_string(), files_synced: 1 };
    assert_eq!(p.on_event(&complete("Q"), "P"), vec![]);
    assert_eq!(p.outcome(), Err("fetch did not complete"));
    assert!(!p.finished);
    assert_eq!(
        p.on_event(&complete("P"), "P"),
        vec![Output::Line(String::new()), Output::Line("  done: 1 files fetched".to_string())]
    );
    assert!(p.finished);
    assert_eq!(p.outcome(), Ok(()));
}

#[test]
fn a_download_that_fails() {
    let mut p = FetchProgress::new();
    p.on_event(&SyncEvent::PeerConnected("P".to_string()), "P");
    assert_eq!(
        p.on_event(&log("reconciliation failed: x"), "P"),
        vec![Output::Line("  error: reconciliation failed: x".to_string())]
    );
    assert!(p.finished);
    assert!(p.outcome().is_err());
    let mut q = FetchProgress::new();
    assert_eq!(
        q.on_timeout(),
        vec![
            Output::Line(String::new()),
            Output::Line("  timeout: could not connect to peer within 60s".to_string()),
        ]
    );
    assert!(q.finished);
    assert_eq!(q.outcome(), Err("fetch did not complete"));
    // The limit is on connecting only
    let mut c = FetchProgress::new();
    c.on_event(&SyncEvent::PeerConnected("P".to_string()), "P");
    let running = FetchProgress { ..c };
    assert_eq!(c.on_timeout(), Vec::<Output>::new());
    assert_eq!(c, running);
    c.on_event(&SyncEvent::ReconciliationComplete { peer: "P".to_string(), files_synced: 0 }, "P");
    assert_eq!(c.outcome(), Ok(()));
    let mut r = FetchProgress::new();
    assert_eq!(r.on_interrupt(), vec![Output::Line(String::new()), Output::Line("  interrupted".to_string())]);
    assert!(r.finished);
    let mut s = FetchProgress::new();
    let complete = SyncEvent::ReconciliationComplete { peer: "P".to_string(), files_synced: 0 };
    assert_eq!(s.on_event(&complete, "P"), vec![Output::Line("  done: 0 files fetched".to_string())]);
}

#[test]
fn lines_without_a_dashboard() {
    let s = |x: &str| x.to_string();
    let f = || "f".to_string();
    assert_eq!(headless_line(&SyncEvent::IndexReady { file_count: 3, total_size: 10 }), Some(s("3 files indexed (10 bytes)")));
    assert_eq!(headless_line(&SyncEvent::PeerConnected(s("P"))), Some(s("peer connected: P")));
    assert_eq!(headless_line(&SyncEvent::PeerDisconnected(s("P"))), Some(s("peer disconnected: P")));
    assert_eq!(headless_line(&SyncEvent::Listening(s("/a"))), Some(s("listening on /a")));
    assert_eq!(
        headless_line(&SyncEvent::TransferComplete { path: f(), direction: TransferDirection::Upload }),
        Some(s("Upload complete: f"))
    );
    assert_eq!(
        headless_line(&SyncEvent::TransferComplete { path: f(), direction: TransferDirection::Download }),
        Some(s("Download complete: f"))
    );
    assert_eq!(
        headless_line(&SyncEvent::Conflict { path: f(), conflict_path: s("g") }),
        Some(s("CONFLICT: f -> g"))
    );
    assert_eq!(headless_line(&SyncEvent::RemoteDelete { path: f() }), Some(s("synced deletion f")));
    assert_eq!(
        headless_line(&SyncEvent::ReconciliationComplete { peer: s("P"), files_synced: 2 }),
        Some(s("reconciliation with P complete (2 files)"))
    );
    assert_eq!(headless_line(&log("hello")), Some(s("hello")));
    assert_eq!(
        headless_line(&SyncEvent::TransferStarted { path: f(), direction: TransferDirection::Upload, total_chunks: 1 }),
        None
    );
    assert_eq!(
        relay_listening("/ip4/1.2.3.4/tcp/4001", "P"),
        vec![
            "Relay listening on: /ip4/1.2.3.4/tcp/4001/p2p/P",
            "  Add to .p2sync.toml:",
            "  [network]",
            "  relay = \"/ip4/1.2.3.4/tcp/4001/p2p/P\"",
        ]
    );
}

#[test]
fn the_journal_is_bounded() {
    assert_eq!(time_of_day(86_400 + 3 * 3600 + 4 * 60 + 5), "03:04:05");
    assert_eq!(time_of_day(86_399), "23:59:59");
    let mut s = state(2);
    for i in 0..4u64 {
        s.handle_event(log(&format!("m{i}")), at(i), "");
    }
    assert_eq!(s.journal.iter().cloned().collect::<Vec<String>>(), vec!["00:00:02 m2", "00:00:03 m3"]);
    let mut none = state(0);
    none.handle_event(log("a"), at(0), "");
    none.handle_event(log("b"), at(0), "");
    assert!(none.journal.is_empty());
    let mut one = state(1);
    one.handle_event(log("a"), at(0), "");
    one.handle_event(log("b"), at(0), "");
    assert_eq!(one.journal.iter().cloned().collect::<Vec<String>>(), vec!["00:00:00 b"]);
}

#[test]
fn the_dashboard_follows_the_events() {
    let mut s = state(100);
    s.handle_event(SyncEvent::IndexReady { file_count: 2, total_size: 2048 }, at(0), "2.0 KB");
    assert_eq!(s.file_count, 2);
    assert_eq!(s.total_size, 2048);
    assert_eq!(s.journal[0], "00:00:00 2 files indexed (2.0 KB total)");
    s.handle_event(SyncEvent::Listening("/a".to_string()), at(0), "");
    s.handle_event(SyncEvent::Listening("/b".to_string()), at(0), "");
    s.handle_event(SyncEvent::PeerConnected(PEER.to_string()), at(10), "");
    s.handle_event(SyncEvent::PeerConnected("short".to_string()), at(20), "");
    s.handle_event(SyncEvent::PeerDisconnected("short".to_string()), at(30), "");
    let (title, lines) = peers_panel(&s, at(100).nanos);
    assert_eq!(title, " Peers (1) ");
    assert_eq!(lines[0].mark, " + ");
    assert_eq!(lines[0].text, "12D3KooWD3ec......  last sync: 1m ago");
    assert!(!lines[1].connected);
    assert_eq!(lines[1].mark, " - ");
    assert_eq!(lines[1].text, "short...  last sync: 1m ago");
    s.handle_event(SyncEvent::PeerConnected("short".to_string()), at(95), "");
    assert_eq!(s.peers.len(), 2);
    let (_, lines) = peers_panel(&s, at(100).nanos);
    assert_eq!(lines[1].text, "short...  last sync: 5s ago");

    let path = "a/very/long/path/that/does/not/fit.txt";
    s.handle_event(
        SyncEvent::TransferStarted { path: path.to_string(), direction: TransferDirection::Download, total_chunks: 3 },
        at(100),
        "",
    );
    s.handle_event(
        SyncEvent::TransferStarted { path: "e".to_string(), direction: TransferDirection::Upload, total_chunks: 0 },
        at(100),
        "",
    );
    let chunk = |p: &str| SyncEvent::ChunkTransferred {
        path: p.to_string(),
        direction: TransferDirection::Download,
        chunk_index: 1,
        total_chunks: 3,
    };
    s.handle_event(chunk(path), at(110), "");
    assert_eq!(s.peers[0].last_sync, at(110).nanos);
    s.handle_event(chunk("unknown"), at(120), "");
    assert_eq!(s.peers[0].last_sync, at(110).nanos);
    let (title, lines) = transfers_panel(&s);
    assert_eq!(title, " Transfers (2) ");
    assert_eq!(lines[0].arrow, " v ");
    assert_eq!(lines[0].text, ".../path/that/does/not/fit.txt  2/3 chunks  [66%]");
    assert_eq!(lines[1].arrow, " ^ ");
    assert_eq!(lines[1].text, "e  0/0 chunks  [0%]");
    s.handle_event(
        SyncEvent::TransferComplete { path: path.to_string(), direction: TransferDirection::Download },
        at(111),
        "",
    );
    assert_eq!(s.transfers.len(), 1);

    s.handle_event(SyncEvent::Conflict { path: "f".to_string(), conflict_path: "g".to_string() }, at(0), "");
    s.handle_event(SyncEvent::RemoteDelete { path: "f".to_string() }, at(0), "");
    s.handle_event(SyncEvent::ReconciliationComplete { peer: PEER.to_string(), files_synced: 7 }, at(0), "");
    let lines = journal_panel(&s, 5);
    assert_eq!(lines.len(), 3);
    assert_eq!(lines[0].text, " 00:00:00 sync with 12D3KooWD3ec...... complete (7 files)");
    assert_eq!(lines[1].text, " 00:00:00 synced deletion f");
    assert_eq!(lines[2].text, " 00:00:00 CONFLICT f -> g");
    assert_eq!(lines[2].level, Level::Conflict);
    assert_eq!(journal_panel(&s, 2).len(), 0);
    assert_eq!(journal_panel(&s, 50).len(), 4);

    let h = header(&s, "2.0 KB");
    assert_eq!(h.folder, " /folder ");
    assert_eq!(h.peer, "12D3KooWD3eckifW......");
    assert_eq!(h.status, " 2 files | 2.0 KB | group: group | /a");
    assert_eq!(header(&state(1), "0 B").status, " 0 files | 0 B | group: group | waiting...");
}

#[test]
fn levels_of_messages() {
    assert_eq!(level("x CONFLICT error"), Level::Conflict);
    assert_eq!(level("an error"), Level::Warning);
    assert_eq!(level("it failed"), Level::Warning);
    assert_eq!(level("fine"), Level::Plain);
}
