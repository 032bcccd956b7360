use std::time::Duration;

use p2sync::chunk::{ChunkMeta, file_hash, metadata};
use p2sync::config::StorageConfig;
use p2sync::conflict::{PeerId, Tombstone, VectorClock, conflict_filename};
use p2sync::inbound::{Answer, NotificationPlan, answer_request, commit_delete, plan_notification, read_failed};
use p2sync::index::SyncIndex;
use p2sync::local::{FsStep, on_fs_event, record_change, record_deletion};
use p2sync::merkle::{Node, file_node_with_chunk_size};
use p2sync::protocol::{SyncNotification, SyncRequest, SyncResponse, sync_topic};
use p2sync::reconcile::{
    HashStep, after_root_hash, finish_reconcile, plan_reconcile, reconcile_failed, reconcile_origin, start_reconcile,
};
use p2sync::scan::{DiskEntry, Listed};
use p2sync::sync_engine::{EventGuard, RemoteOrigin, SyncEvent, TransferDirection, find_node, safe_path};
use p2sync::transfer::{
    Admission, FetchReply, FileReply, admit_fetch, apply_chunks, ask_for_file, commit_fetch, read_file, read_reply,
    serve_chunks, start_fetch, wanted_chunks,
};
use p2sync::watcher::{FsEvent, RawKind, fs_event};

const ROOT: &str = "/root/folder";

fn peer(id: u8) -> PeerId {
    let mut p = [0u8; 8];
    p[0] = id;
    p
}

fn storage(chunk_size: usize) -> StorageConfig {
    StorageConfig { chunk_size, max_chunk_index: 100, max_file_size: 1000, tombstone_ttl_secs: 3600 }
}

fn folder(files: Vec<(&str, &[u8])>) -> DiskEntry {
    DiskEntry::Directory(
        files
            .into_iter()
            .map(|(n, d)| Listed { name: n.to_string(), is_utf8: true, entry: DiskEntry::File(d.to_vec()) })
            .collect(),
    )
}

fn index(id: u8, files: Vec<(&str, &[u8])>) -> SyncIndex {
    SyncIndex::build(&folder(files), ROOT, peer(id), vec![".git".to_string()], &storage(4)).unwrap()
}

fn clock(ticks: &[u8]) -> VectorClock {
    let mut c = VectorClock::new();
    for t in ticks {
        c.tick(peer(*t));
    }
    c
}

fn changed(path: &str, data: &[u8], c: VectorClock, timestamp: u64, by: u8) -> SyncNotification {
    let chunks_changed = metadata(data, 4);
    SyncNotification::FileChanged {
        path: path.to_string(),
        hash: file_hash(&chunks_changed),
        chunks_changed,
        clock: c,
        timestamp,
        peer: peer(by),
    }
}

#[test]
fn sync_topic_format() {
    let topic = sync_topic("12D3KooW...");
    assert_eq!(topic, "p2sync/12D3KooW...");
}

#[test]
fn paths_of_peers_stay_in_the_folder() {
    assert_eq!(safe_path(ROOT, "a/b"), Some("/root/folder/a/b".to_string()));
    assert_eq!(safe_path("/root/folder/", "a//b"), Some("/root/folder/a//b".to_string()));
    assert_eq!(safe_path(ROOT, ""), Some("/root/folder/".to_string()));
    assert_eq!(safe_path(ROOT, "/etc/passwd"), None);
    assert_eq!(safe_path(ROOT, "../x"), None);
    assert_eq!(safe_path(ROOT, "a/../../x"), None);
    assert_eq!(safe_path(ROOT, "./a"), None);
    assert!(safe_path(ROOT, "a/./b").is_some());
    assert!(safe_path(ROOT, &conflict_filename("dir.d/x", &peer(1))).is_some());
}

#[test]
fn guard_suppresses_within_its_window() {
    let mut g = EventGuard::new(Duration::from_millis(1));
    assert!(!g.is_suppressed("a", 0));
    g.mark("a", 5);
    assert!(g.is_suppressed("a/", 5));
    assert!(g.is_suppressed("a", 1_000_004));
    assert!(g.is_suppressed("a", 1));
    assert!(!g.is_suppressed("b", 6));
    assert!(!g.is_suppressed("a", 1_000_005));
    assert!(!g.is_suppressed("a", 6));
    g.mark("x//y", 10);
    assert!(g.is_suppressed("x/y", 11));
}

#[test]
fn nodes_are_found_by_path() {
    let ix = index(1, vec![("f", b"1")]);
    assert_eq!(find_node(&ix.tree, ""), Some(&ix.tree));
    assert_eq!(find_node(&ix.tree, "./f"), Some(&file_node_with_chunk_size(b"1", 4)));
    assert_eq!(find_node(&ix.tree, "f/g"), None);
    assert_eq!(find_node(&ix.tree, "g"), None);
}

#[test]
fn requests_are_answered_from_the_index() {
    let mut ix = index(1, vec![("f", b"12345")]);
    ix.local_file_changed_at("f", b"12345", 9);
    assert!(matches!(
        answer_request(SyncRequest::GetRootHash, &ix, ROOT),
        Answer::Reply(SyncResponse::RootHash { hash }) if hash == *ix.tree.hash()
    ));
    assert!(matches!(
        answer_request(SyncRequest::GetTree, &ix, ROOT),
        Answer::Reply(SyncResponse::Tree { tree }) if tree == ix.tree
    ));
    assert!(matches!(
        answer_request(SyncRequest::GetSubtree { path: "f".to_string() }, &ix, ROOT),
        Answer::Reply(SyncResponse::Subtree { path, node: Some(n) }) if path == "f" && n.is_file()
    ));
    assert!(matches!(
        answer_request(SyncRequest::GetSubtree { path: "g".to_string() }, &ix, ROOT),
        Answer::Reply(SyncResponse::Subtree { node: None, .. })
    ));
    assert!(matches!(
        answer_request(SyncRequest::GetFileMeta { path: "f".to_string() }, &ix, ROOT),
        Answer::Reply(SyncResponse::FileMeta { clock: Some(c), last_modified: 9, .. }) if c == clock(&[1])
    ));
    assert!(matches!(
        answer_request(SyncRequest::GetFileMeta { path: "g".to_string() }, &ix, ROOT),
        Answer::Reply(SyncResponse::FileMeta { clock: None, last_modified: 0, .. })
    ));
    assert!(matches!(
        answer_request(SyncRequest::GetChunks { path: "f".to_string(), chunk_indices: vec![1] }, &ix, ROOT),
        Answer::ReadFile { abs_path, path, chunk_indices }
            if abs_path == "/root/folder/f" && path == "f" && chunk_indices == vec![1]
    ));
    assert!(matches!(
        answer_request(SyncRequest::GetChunks { path: "../f".to_string(), chunk_indices: vec![1] }, &ix, ROOT),
        Answer::Reply(SyncResponse::Error { message }) if message == "invalid path"
    ));
    assert!(matches!(
        answer_request(SyncRequest::GetChunks { path: ".git/config".to_string(), chunk_indices: vec![0] }, &ix, ROOT),
        Answer::Reply(SyncResponse::Error { message }) if message == "excluded path"
    ));
    assert_eq!(read_failed("gone"), SyncResponse::Error { message: "read error: gone".to_string() });
}

#[test]
fn chunks_are_served_within_the_limits() {
    let mut s = storage(4);
    s.max_chunk_index = 2;
    assert_eq!(
        serve_chunks("f".to_string(), b"aaaabbbbcc", &vec![1, 2, 0, 9, 1], &s),
        SyncResponse::Chunks {
            path: "f".to_string(),
            chunks: vec![(1, b"bbbb".to_vec()), (0, b"aaaa".to_vec()), (1, b"bbbb".to_vec())],
        }
    );
}

#[test]
fn only_missing_chunks_are_asked_for() {
    let remote = metadata(b"aaaabbbbcc", 4);
    assert_eq!(wanted_chunks(&remote, b"", 4), vec![0, 1, 2]);
    assert_eq!(wanted_chunks(&remote, b"aaaaXbbbcc", 4), vec![1]);
    assert_eq!(wanted_chunks(&remote, b"aaaabbbbc", 4), vec![2]);
    assert_eq!(wanted_chunks(&remote, b"aaaabbbbcc", 4), Vec::<usize>::new());
    let (request, event) = start_fetch("g", "f", vec![1]);
    assert_eq!(request, SyncRequest::GetChunks { path: "g".to_string(), chunk_indices: vec![1] });
    assert_eq!(
        event,
        SyncEvent::TransferStarted { path: "f".to_string(), direction: TransferDirection::Download, total_chunks: 1 }
    );
}

#[test]
fn fetching_gives_the_file_of_the_peer() {
    let s = storage(4);
    let remote: &[u8] = b"aaaabbbbcccd";
    for local in [&b""[..], &b"aaaaXXXXcc"[..], &b"aaaabbbbcccd"[..], &b"zz"[..], &b"aaaabbbbcccdeeee"[..], &b"aaaabbbbcccdee"[..]] {
        let wanted = wanted_chunks(&metadata(remote, 4), local, 4);
        let chunks = match read_reply(serve_chunks("f".to_string(), remote, &wanted, &s)) {
            FetchReply::Chunks(c) => c,
            _ => panic!("expected chunks"),
        };
        let total = wanted.len();
        let applied = apply_chunks("f", local.to_vec(), &chunks, remote.len() as u64, &s, total);
        assert_eq!(applied.data, Some(remote.to_vec()));
        assert_eq!(applied.events.len(), total);
    }
}

#[test]
fn a_longer_local_file_is_shortened() {
    let s = storage(262_144);
    let applied = apply_chunks("f", b"hello world".to_vec(), &vec![(0, b"hi".to_vec())], 2, &s, 1);
    assert_eq!(applied.data, Some(b"hi".to_vec()));
    // Nothing is missing, and yet the file is not the same
    let s = storage(4);
    assert!(wanted_chunks(&metadata(b"aaaa", 4), b"aaaabbbb", 4).is_empty());
    let applied = apply_chunks("f", b"aaaabbbb".to_vec(), &vec![], 4, &s, 0);
    assert_eq!(applied.data, Some(b"aaaa".to_vec()));
    let applied = apply_chunks("f", b"aaaabbbb".to_vec(), &vec![], 0, &s, 0);
    assert_eq!(applied.data, Some(vec![]));
}

#[test]
fn a_peer_is_asked_what_file_it_has() {
    let remote = index(2, vec![("f", b"123456")]);
    assert_eq!(ask_for_file("f"), SyncRequest::GetSubtree { path: "f".to_string() });
    let reply = |path: &str| match answer_request(ask_for_file(path), &remote, ROOT) {
        Answer::Reply(r) => read_file(r),
        _ => panic!("expected a reply"),
    };
    match reply("f") {
        FileReply::File(f) => {
            assert_eq!(f.size, 6);
            assert_eq!(f.chunks, metadata(b"123456", 4));
        }
        _ => panic!("expected a file"),
    }
    assert!(matches!(reply("g"), FileReply::NoFile));
    assert!(matches!(reply(""), FileReply::NoFile));
    assert!(matches!(
        read_file(SyncResponse::Error { message: "no".to_string() }),
        FileReply::PeerError(m) if m == "no"
    ));
    assert!(matches!(read_file(SyncResponse::RootHash { hash: [0; 32] }), FileReply::Unexpected));
}

#[test]
fn chunks_out_of_bounds_are_left_aside_or_end_the_transfer() {
    let mut s = storage(4);
    s.max_chunk_index = 3;
    let applied = apply_chunks("f", vec![], &vec![(3, b"x".to_vec()), (2, b"yz".to_vec())], 10, &s, 2);
    assert_eq!(applied.data, Some(b"\0\0\0\0\0\0\0\0yz".to_vec()));
    assert_eq!(
        applied.events,
        vec![SyncEvent::ChunkTransferred {
            path: "f".to_string(),
            direction: TransferDirection::Download,
            chunk_index: 1,
            total_chunks: 2,
        }]
    );
    s.max_file_size = 8;
    let applied = apply_chunks("f", vec![], &vec![(1, b"abcd".to_vec()), (2, b"e".to_vec()), (0, b"f".to_vec())], 9, &s, 3);
    assert_eq!(applied.data, None);
    assert_eq!(applied.events.len(), 1);
    // Places that cannot be addressed
    let huge = StorageConfig { chunk_size: usize::MAX, max_chunk_index: 10, max_file_size: u64::MAX, tombstone_ttl_secs: 0 };
    let applied = apply_chunks("f", b"a".to_vec(), &vec![(2, b"b".to_vec()), (1, b"c".to_vec())], 9, &huge, 2);
    assert_eq!(applied.data, Some(b"a".to_vec()));
    assert!(applied.events.is_empty());
}

#[test]
fn replies_are_sorted() {
    assert!(matches!(
        read_reply(SyncResponse::Error { message: "no".to_string() }),
        FetchReply::PeerError(m) if m == "no"
    ));
    assert!(matches!(read_reply(SyncResponse::RootHash { hash: [0; 32] }), FetchReply::Unexpected));
}

#[test]
fn what_may_be_fetched() {
    let ix = index(1, vec![]);
    assert_eq!(admit_fetch(&ix, ROOT, "a/b"), Admission::Admitted { abs_path: "/root/folder/a/b".to_string() });
    assert_eq!(admit_fetch(&ix, ROOT, "a/.git/b"), Admission::Excluded);
    assert_eq!(admit_fetch(&ix, ROOT, "../a"), Admission::Refused);
}

#[test]
fn a_fetched_file_is_taken_into_the_index() {
    let mut ix = index(1, vec![("f", b"1")]);
    ix.local_file_changed_at("f", b"1", 5);
    let origin = RemoteOrigin { clock: clock(&[2, 2]), timestamp: 50, peer: peer(2) };
    let events = commit_fetch(&mut ix, "f", b"22", &origin);
    assert_eq!(
        events,
        vec![
            SyncEvent::TransferComplete { path: "f".to_string(), direction: TransferDirection::Download },
            SyncEvent::Log("synced f".to_string()),
        ]
    );
    let meta = ix.meta("f").unwrap();
    assert_eq!(meta.clock, clock(&[1, 2, 2]));
    assert_eq!(meta.last_modified, 50);
    assert_eq!(meta.last_modified_by, peer(2));
    assert_eq!(find_node(&ix.tree, "f"), Some(&file_node_with_chunk_size(b"22", 4)));
    // The same version does not come again
    assert!(matches!(
        plan_notification(changed("f", b"22", clock(&[2, 2]), 50, 2), &ix, ROOT, peer(1)),
        NotificationPlan::Rejected
    ));
}

#[test]
fn newer_versions_are_fetched() {
    let ix = index(1, vec![("f", b"1")]);
    match plan_notification(changed("f", b"22222", clock(&[2]), 50, 2), &ix, ROOT, peer(1)) {
        NotificationPlan::Fetch { backup, mark_first, source, target, chunks, origin, conflict } => {
            assert_eq!(backup, None);
            assert!(mark_first);
            assert_eq!(source, "f");
            assert_eq!(target, "f");
            assert_eq!(chunks, metadata(b"22222", 4));
            assert_eq!(origin, RemoteOrigin { clock: clock(&[2]), timestamp: 50, peer: peer(2) });
            assert_eq!(conflict, None);
        }
        _ => panic!("expected fetch"),
    }
}

#[test]
fn own_and_unsafe_notifications() {
    let ix = index(1, vec![]);
    assert!(matches!(
        plan_notification(changed("f", b"2", clock(&[1]), 5, 1), &ix, ROOT, peer(1)),
        NotificationPlan::Nothing
    ));
    assert!(matches!(
        plan_notification(changed("../f", b"2", clock(&[2]), 5, 2), &ix, ROOT, peer(1)),
        NotificationPlan::Refused
    ));
    let grave = |path: &str, by: u8| SyncNotification::FileDeleted {
        tombstone: Tombstone::new(path.to_string(), peer(by), VectorClock::new()),
    };
    assert!(matches!(plan_notification(grave("f", 1), &ix, ROOT, peer(1)), NotificationPlan::Nothing));
    assert!(matches!(plan_notification(grave("/f", 2), &ix, ROOT, peer(1)), NotificationPlan::Refused));
    assert!(matches!(
        plan_notification(SyncNotification::PeerJoined { peer: peer(2) }, &ix, ROOT, peer(1)),
        NotificationPlan::Nothing
    ));
}

#[test]
fn one_side_of_a_conflict_keeps_a_copy() {
    let mut a = index(1, vec![]);
    let mut b = index(2, vec![]);
    a.local_file_changed_at("f.txt", b"aa", 100);
    b.local_file_changed_at("f.txt", b"bb", 200);
    let copy = "f.conflict.01000000.txt".to_string();
    match plan_notification(changed("f.txt", b"bb", clock(&[2]), 200, 2), &a, ROOT, peer(1)) {
        NotificationPlan::Fetch { backup, mark_first, source, target, conflict, .. } => {
            assert_eq!(source, "f.txt");
            assert_eq!(
                backup,
                Some(("/root/folder/f.txt".to_string(), "/root/folder/f.conflict.01000000.txt".to_string()))
            );
            assert!(!mark_first);
            assert_eq!(target, "f.txt");
            assert_eq!(conflict, Some(("f.txt".to_string(), copy.clone())));
        }
        _ => panic!("expected fetch"),
    }
    match plan_notification(changed("f.txt", b"aa", clock(&[1]), 100, 1), &b, ROOT, peer(2)) {
        NotificationPlan::Fetch { backup, source, target, conflict, .. } => {
            assert_eq!(backup, None);
            // The peer has its version under the path of the file
            assert_eq!(source, "f.txt");
            assert_eq!(target, copy);
            assert_eq!(conflict, Some(("f.txt".to_string(), copy)));
        }
        _ => panic!("expected fetch"),
    }
}

#[test]
fn deletions_of_peers_are_taken_in() {
    let mut ix = index(1, vec![("f", b"1"), ("g", b"2")]);
    let t = Tombstone::new("f".to_string(), peer(2), clock(&[2]));
    match plan_notification(SyncNotification::FileDeleted { tombstone: t.clone() }, &ix, ROOT, peer(1)) {
        NotificationPlan::Delete { abs_path, tombstone } => {
            assert_eq!(abs_path, "/root/folder/f");
            assert_eq!(commit_delete(&mut ix, tombstone), SyncEvent::RemoteDelete { path: "f".to_string() });
        }
        _ => panic!("expected delete"),
    }
    assert!(ix.meta("f").is_none());
    assert!(find_node(&ix.tree, "f").is_none());
    assert!(find_node(&ix.tree, "g").is_some());
    assert_eq!(ix.tombstones, vec![t]);
}

#[test]
fn local_events_are_filtered() {
    let mut writes = EventGuard::new(Duration::from_secs(3));
    let mut seen = EventGuard::new(Duration::from_millis(500));
    let at = |ms: u128| ms * 1_000_000;
    let modified = |p: &str| FsEvent::Modified(p.to_string());
    writes.mark("synced", at(0));
    assert_eq!(on_fs_event(&modified("synced"), ROOT, false, &mut writes, &mut seen, at(1)), FsStep::Ignore);
    assert_eq!(
        on_fs_event(&FsEvent::Created("synced".to_string()), ROOT, false, &mut writes, &mut seen, at(3000)),
        FsStep::Check { abs_path: "/root/folder/synced".to_string() }
    );
    assert_eq!(on_fs_event(&modified("synced"), ROOT, false, &mut writes, &mut seen, at(3499)), FsStep::Ignore);
    assert_eq!(
        on_fs_event(&modified("synced"), ROOT, false, &mut writes, &mut seen, at(3500)),
        FsStep::Check { abs_path: "/root/folder/synced".to_string() }
    );
    assert_eq!(on_fs_event(&modified("a.conflict.b"), ROOT, false, &mut writes, &mut seen, at(0)), FsStep::Ignore);
    assert_eq!(
        on_fs_event(&FsEvent::Removed("x".to_string()), ROOT, false, &mut writes, &mut seen, at(0)),
        FsStep::Delete
    );
    assert_eq!(
        on_fs_event(&FsEvent::Removed("x".to_string()), ROOT, true, &mut writes, &mut seen, at(0)),
        FsStep::Ignore
    );
    assert_eq!(on_fs_event(&modified("y"), ROOT, true, &mut writes, &mut seen, at(0)), FsStep::Ignore);
}

#[test]
fn changes_and_deletions_are_told() {
    let mut ix = index(1, vec![("f", b"aaaabbbbcc"), ("g", b"1")]);
    // Only the chunks that changed are told, with the hash of the whole file
    match record_change(&mut ix, "f", b"aaaaXbbbccd", 59).0 {
        SyncNotification::FileChanged { hash, chunks_changed, clock: c, .. } => {
            let all = metadata(b"aaaaXbbbccd", 4);
            assert_eq!(hash, file_hash(&all));
            assert_eq!(chunks_changed, vec![all[1], all[2]]);
            assert_eq!(c, clock(&[1]));
        }
        _ => panic!("expected a change"),
    }
    match record_change(&mut ix, "f", b"aaaa", 59).0 {
        SyncNotification::FileChanged { chunks_changed, .. } => assert!(chunks_changed.is_empty()),
        _ => panic!("expected a change"),
    }
    let mut ix = index(1, vec![("f", b"1")]);
    let (told, event) = record_change(&mut ix, "f", b"12345", 60);
    assert_eq!(told, changed("f", b"12345", clock(&[1]), 60, 1));
    assert_eq!(event, SyncEvent::Log("modified f".to_string()));
    // A peer that has nothing newer takes it
    let other = index(2, vec![]);
    assert!(matches!(plan_notification(told, &other, ROOT, peer(2)), NotificationPlan::Fetch { conflict: None, .. }));
    let (told, event) = record_deletion(&mut ix, "f", 61);
    assert_eq!(event, SyncEvent::Log("deleted f".to_string()));
    match told {
        SyncNotification::FileDeleted { tombstone } => {
            assert_eq!(tombstone, ix.tombstones[0]);
            assert_eq!(tombstone.clock, clock(&[1]));
            assert_eq!(tombstone.timestamp, 61);
        }
        _ => panic!("expected deletion"),
    }
}

#[test]
fn raw_events_become_events_of_the_folder() {
    let exclude = vec![".git".to_string()];
    assert_eq!(
        fs_event("/root/folder/a/b", ROOT, &exclude, RawKind::Create),
        Some(FsEvent::Created("a/b".to_string()))
    );
    assert_eq!(
        fs_event("/root/folder/a", ROOT, &exclude, RawKind::Modify),
        Some(FsEvent::Modified("a".to_string()))
    );
    let gone = fs_event("/root/folder/a", ROOT, &exclude, RawKind::Remove).unwrap();
    assert_eq!(gone, FsEvent::Removed("a".to_string()));
    assert_eq!(gone.path(), "a");
    assert_eq!(fs_event("/root/folder/a", ROOT, &exclude, RawKind::Other), None);
    assert_eq!(fs_event("/root/folder/.git/config", ROOT, &exclude, RawKind::Create), None);
    assert_eq!(fs_event("/root/folder/a/.gitignore", ROOT, &exclude, RawKind::Create), None);
    assert_eq!(fs_event("/root/folder2/a", ROOT, &exclude, RawKind::Create), None);
}

#[test]
fn reconciliation_from_hash_to_files() {
    let local = index(1, vec![("same", b"1"), ("mine", b"2"), ("both", b"3")]);
    let remote = index(2, vec![("same", b"1"), ("theirs", b"4"), ("both", b"33")]);
    assert_eq!(start_reconcile("P"), SyncEvent::Log("reconciling with P".to_string()));
    let same = SyncResponse::RootHash { hash: *local.tree.hash() };
    match after_root_hash(&same, local.tree.hash(), "P") {
        HashStep::InSync(events) => assert_eq!(
            events,
            vec![
                SyncEvent::Log("already in sync".to_string()),
                SyncEvent::ReconciliationComplete { peer: "P".to_string(), files_synced: 0 },
            ]
        ),
        _ => panic!("expected to be in sync"),
    }
    let other = SyncResponse::RootHash { hash: *remote.tree.hash() };
    assert!(matches!(after_root_hash(&other, local.tree.hash(), "P"), HashStep::AskTree));
    let wrong = SyncResponse::Error { message: String::new() };
    assert!(matches!(after_root_hash(&wrong, local.tree.hash(), "P"), HashStep::Unexpected));
    assert!(plan_reconcile(wrong, &local.tree, false).is_none());

    let plan = plan_reconcile(SyncResponse::Tree { tree: remote.tree.clone() }, &local.tree, false).unwrap();
    assert_eq!(plan.log, SyncEvent::Log("found 3 differences".to_string()));
    assert_eq!(plan.files_synced, 2);
    let paths: Vec<&str> = plan.items.iter().map(|i| i.path.as_str()).collect();
    assert_eq!(paths, vec!["both", "theirs"]);
    assert_eq!(plan.items[0].chunks, metadata(b"33", 4));
    assert_eq!(plan.items[0].size, 2);
    let plan = plan_reconcile(SyncResponse::Tree { tree: remote.tree.clone() }, &local.tree, true).unwrap();
    assert_eq!(plan.files_synced, 0);
    assert!(plan.items.is_empty());

    assert_eq!(
        finish_reconcile("P", 12),
        vec![
            SyncEvent::Log("reconciliation with P complete (12 files)".to_string()),
            SyncEvent::ReconciliationComplete { peer: "P".to_string(), files_synced: 12 },
        ]
    );
    assert_eq!(reconcile_failed("x"), SyncEvent::Log("reconciliation failed: x".to_string()));
    let origin = reconcile_origin(peer(2));
    assert_eq!(origin.clock, VectorClock::new());
    assert_eq!(origin.peer, peer(2));
}

#[test]
fn reconciliation_brings_every_file() {
    let mut local = index(1, vec![("a", b"1")]);
    let mut remote = index(2, vec![("b", b"2")]);
    remote.local_file_changed_at("d/e/f", b"333333", 1);
    remote.local_file_changed_at("d/g", b"4", 1);
    let contents: Vec<(&str, &[u8])> = vec![("b", b"2"), ("d/e/f", b"333333"), ("d/g", b"4")];
    let plan = plan_reconcile(SyncResponse::Tree { tree: remote.tree.clone() }, &local.tree, false).unwrap();
    assert_eq!(plan.files_synced, 3);
    for item in &plan.items {
        let data = contents.iter().find(|c| c.0 == item.path).unwrap().1;
        let wanted: Vec<ChunkMeta> = metadata(data, 4);
        assert_eq!(item.chunks, wanted);
        commit_fetch(&mut local, &item.path, data, &reconcile_origin(peer(2)));
    }
    for (path, _) in contents {
        assert_eq!(find_node(&local.tree, path), find_node(&remote.tree, path));
    }
    assert!(find_node(&local.tree, "a").is_some_and(Node::is_file));
}
