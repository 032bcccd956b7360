use p2sync::config::StorageConfig;
use p2sync::conflict::{PeerId, Tombstone, VectorClock};
use p2sync::index::{SyncIndex, should_exclude};
use p2sync::merkle::{Node, file_node, file_node_with_chunk_size};
use p2sync::scan::{
    DiskEntry, Listed, ScanError, Visit, from_path, from_path_configured, from_path_filtered, visit,
};

fn test_peer() -> PeerId {
    [0x01, 0x02, 0x03, 0x04, 0x05, 0x06, 0x07, 0x08]
}

fn test_storage() -> StorageConfig {
    StorageConfig::default()
}

fn listed(name: &str, entry: DiskEntry) -> Listed {
    Listed { name: name.to_string(), is_utf8: true, entry }
}

fn file(data: &[u8]) -> DiskEntry {
    DiskEntry::File(data.to_vec())
}

fn dir(entries: Vec<Listed>) -> DiskEntry {
    DiskEntry::Directory(entries)
}

fn build(found: &DiskEntry, patterns: Vec<String>) -> SyncIndex {
    SyncIndex::build(found, "/root/folder", test_peer(), patterns, &test_storage()).unwrap()
}

#[test]
fn build_index_from_directory() {
    let found = dir(vec![listed("a.txt", file(b"hello")), listed("b.txt", file(b"world"))]);

    let index = build(&found, vec![]);

    assert_eq!(index.file_count(), 2);
    assert_eq!(index.total_size(), 10);
    assert!(index.file_meta.contains_key("a.txt"));
    assert!(index.file_meta.contains_key("b.txt"));
}

#[test]
fn build_with_exclusions() {
    let found = dir(vec![
        listed("keep.txt", file(b"yes")),
        listed("node_modules", dir(vec![listed("pkg.json", file(b"no"))])),
    ]);

    let index = build(&found, vec!["node_modules".into()]);

    assert_eq!(index.file_count(), 1);
    assert!(index.file_meta.contains_key("keep.txt"));
}

#[test]
fn local_file_changed_updates_tree_and_clock() {
    let mut index = build(&dir(vec![listed("f.txt", file(b"v1"))]), vec![]);
    let old_hash = *index.tree.hash();

    index.local_file_changed("f.txt", b"v2");

    assert_ne!(*index.tree.hash(), old_hash);
    assert_eq!(index.file_meta.get("f.txt").unwrap().clock.counters.get(&test_peer()), Some(1));
}

#[test]
fn local_file_deleted_creates_tombstone() {
    let mut index = build(&dir(vec![listed("f.txt", file(b"data"))]), vec![]);
    index.local_file_deleted("f.txt");

    assert_eq!(index.file_count(), 0);
    assert_eq!(index.tombstones.len(), 1);
    assert_eq!(index.tombstones[0].path, "f.txt");
}

#[test]
fn gc_removes_expired_tombstones() {
    let mut index = build(&dir(vec![]), vec![]);

    let mut old = Tombstone::new("old.txt".into(), test_peer(), VectorClock::new());
    old.timestamp = 0;
    let fresh = Tombstone::new("new.txt".into(), test_peer(), VectorClock::new());

    index.tombstones.push(old);
    index.tombstones.push(fresh);

    index.gc_tombstones();

    assert_eq!(index.tombstones.len(), 1);
    assert_eq!(index.tombstones[0].path, "new.txt");
}

#[test]
fn exclude_pattern_matching() {
    let root = "/project";
    assert!(should_exclude("/project/node_modules/foo", root, &vec!["node_modules".into()]));
    assert!(should_exclude("/project/.git", root, &vec![".git".into()]));
    assert!(!should_exclude("/project/src/main.rs", root, &vec!["node_modules".into()]));
}

#[test]
fn exclusion_looks_into_the_components_below_the_root() {
    let git = vec![".git".to_string()];
    assert!(should_exclude("/project/.gitignore", "/project", &git));
    assert!(should_exclude("/project/node_modules/foo", "/project", &vec!["node".to_string()]));
    assert!(!should_exclude("/project/ab/cd", "/project", &vec!["b/c".to_string()]));
    assert!(!should_exclude("/.git/project/a", "/.git/project", &git));
    assert!(should_exclude("/elsewhere/.git/a", "/project", &git));
    assert!(!should_exclude("/project/a", "/project", &vec![]));
    let index = build(&dir(vec![]), git);
    assert!(index.is_excluded("/root/folder/x/.git/y"));
    assert!(!index.is_excluded("/root/folder/x"));
}

#[test]
fn from_path_reads_real_directory() {
    let found = dir(vec![
        listed("sub", dir(vec![listed("b.txt", file(b"beta"))])),
        listed("a.txt", file(b"alpha")),
    ]);

    let tree = from_path(&found, "/t").unwrap();

    if let Node::Directory { children, .. } = &tree {
        assert!(children.contains_key("a.txt"));
        assert!(children.contains_key("sub"));
        if let Node::Directory { children: sub, .. } = children.get("sub").unwrap() {
            assert!(sub.contains_key("b.txt"));
        }
    } else {
        panic!("expected directory node");
    }
}

#[test]
fn from_path_filtered_excludes() {
    let found = dir(vec![listed("keep.txt", file(b"yes")), listed("skip.tmp", file(b"no"))]);

    let tree = from_path_filtered(&found, "/t", &|p: &str| p.ends_with(".tmp")).unwrap();

    if let Node::Directory { children, .. } = &tree {
        assert!(children.contains_key("keep.txt"));
        assert!(!children.contains_key("skip.tmp"));
    }
}

#[test]
fn links_are_left_out_and_a_linked_root_is_empty() {
    let found = dir(vec![listed("link", DiskEntry::Symlink), listed("a", file(b"1"))]);
    let same = dir(vec![listed("a", file(b"1"))]);
    assert_eq!(from_path(&found, "/t").unwrap(), from_path(&same, "/t").unwrap());
    assert_eq!(from_path(&DiskEntry::Symlink, "/t").unwrap(), from_path(&dir(vec![]), "/t").unwrap());
    assert_eq!(from_path(&file(b"x"), "/t").unwrap(), file_node(b"x"));
}

#[test]
fn names_have_to_be_utf8_unless_skipped() {
    let broken = || Listed { name: "b\u{fffd}d".to_string(), is_utf8: false, entry: file(b"1") };
    assert_eq!(from_path(&dir(vec![broken()]), "/t").unwrap_err(), ScanError::NonUtf8Filename);
    assert_eq!(from_path(&dir(vec![listed("in", dir(vec![broken()]))]), "/t").unwrap_err(), ScanError::NonUtf8Filename);
    assert_eq!(ScanError::NonUtf8Filename.message(), "non-UTF8 filename");
    assert!(from_path_filtered(&dir(vec![broken()]), "/t", &|p: &str| p.contains('\u{fffd}')).is_ok());
    let link = Listed { name: "b\u{fffd}d".to_string(), is_utf8: false, entry: DiskEntry::Symlink };
    assert!(from_path(&dir(vec![link]), "/t").is_ok());
}

#[test]
fn a_folder_can_be_scanned_in_steps() {
    let inner = || dir(vec![listed("x", file(b"12345"))]);
    let whole = from_path_configured(&dir(vec![listed("in", inner())]), "/t", &|_: &str| false, 2).unwrap();
    let first = from_path_configured(&inner(), "/t/in", &|_: &str| false, 2).unwrap();
    let second =
        from_path_configured(&dir(vec![listed("in", DiskEntry::Scanned(first))]), "/t", &|_: &str| false, 2).unwrap();
    assert_eq!(whole, second);
    if let Node::Directory { children, .. } = &whole {
        if let Node::Directory { children: inside, .. } = children.get("in").unwrap() {
            assert_eq!(*inside.get("x").unwrap(), file_node_with_chunk_size(b"12345", 2));
        }
    }
}

#[test]
fn a_new_index_knows_every_file() {
    let found = dir(vec![
        listed("a", dir(vec![listed("b", dir(vec![listed("c", file(b"1"))])), listed("d", file(b"22"))])),
        listed("e", file(b"333")),
        listed("empty", dir(vec![])),
    ]);
    let index = build(&found, vec![]);
    assert_eq!(index.file_count(), 3);
    assert_eq!(index.total_size(), 6);
    for key in ["a/b/c", "a/d", "e"] {
        let meta = index.meta(key).unwrap();
        assert_eq!(meta.last_modified_by, test_peer());
        assert_eq!(meta.clock, VectorClock::new());
        assert_eq!(meta.clone(), *meta);
    }
    assert!(index.meta("a/b").is_none());
    assert_eq!(index.chunk_size, 262_144);
    assert_eq!(index.tombstone_ttl_secs, 3600);
    assert_eq!(index.root_path, "/root/folder");
}

#[test]
fn an_index_reports_the_scan_error() {
    let found = dir(vec![Listed { name: "?".to_string(), is_utf8: false, entry: file(b"1") }]);
    assert_eq!(
        SyncIndex::build(&found, "/r", test_peer(), vec![], &test_storage()).unwrap_err(),
        ScanError::NonUtf8Filename
    );
}

#[test]
fn a_change_at_a_time() {
    let mut index = build(&dir(vec![listed("f", file(b"1"))]), vec![]);
    index.local_file_changed_at("f", b"2", 77);
    index.local_file_changed_at("f/", b"3", 78);
    assert_eq!(index.file_count(), 1);
    let meta = index.meta("f").unwrap();
    assert_eq!(meta.last_modified, 78);
    assert_eq!(meta.clock.count(&test_peer()), 2);
    if let Node::Directory { children, .. } = &index.tree {
        assert_eq!(*children.get("f").unwrap(), file_node(b"3"));
    }
    index.local_file_deleted_at("f", 80);
    assert_eq!(index.tombstones[0].timestamp, 80);
    assert_eq!(index.tombstones[0].deleted_by, test_peer());
    assert_eq!(index.tombstones[0].clock.count(&test_peer()), 2);
    assert!(index.meta("f").is_none());
    // An unknown file leaves a tombstone too
    index.local_file_deleted_at("g", 81);
    assert_eq!(index.tombstones[1].clock, VectorClock::new());
    // Purging goes by age and keeps the order
    index.tombstone_ttl_secs = 10;
    index.gc_tombstones_at(91);
    assert_eq!(index.tombstones.len(), 1);
    assert_eq!(index.tombstones[0].path, "g");
    index.gc_tombstones_at(92);
    assert!(index.tombstones.is_empty());
}

#[test]
fn a_deleted_directory_takes_its_files_along() {
    let found = dir(vec![
        listed("sub", dir(vec![listed("a.txt", file(b"1")), listed("b", dir(vec![listed("c", file(b"22"))]))])),
        listed("subway", file(b"333")),
    ]);
    let mut index = build(&found, vec![]);
    assert_eq!(index.file_count(), 3);
    index.local_file_deleted("sub");
    assert_eq!(index.file_count(), 1);
    assert_eq!(index.file_meta.len(), 1);
    assert!(index.meta("sub/a.txt").is_none());
    assert!(index.meta("sub/b/c").is_none());
    assert!(index.meta("subway").is_some());
}

#[test]
fn a_file_in_place_of_a_directory_takes_its_files_along() {
    let found = dir(vec![listed("sub", dir(vec![listed("a", file(b"1")), listed("b", file(b"2"))]))]);
    let mut index = build(&found, vec![]);
    index.local_file_changed_at("sub", b"now a file", 5);
    assert_eq!(index.file_count(), 1);
    assert_eq!(index.file_meta.len(), 1);
    assert!(index.file_meta.contains_key("sub"));
}

#[test]
fn sizes_are_counted_as_far_as_they_can_be() {
    let huge = || DiskEntry::Scanned(Node::File { hash: [0; 32], size: u64::MAX, chunks: vec![] });
    assert_eq!(build(&dir(vec![listed("a", huge())]), vec![]).checked_total_size(), Some(u64::MAX));
    assert_eq!(build(&dir(vec![listed("a", huge()), listed("b", file(b"1"))]), vec![]).checked_total_size(), None);
}

#[test]
fn what_a_scan_looks_into() {
    assert_eq!(visit(false, false, true), Visit::Enter);
    assert_eq!(visit(false, false, false), Visit::Refuse);
    assert_eq!(visit(true, false, false), Visit::Leave);
    assert_eq!(visit(false, true, false), Visit::Leave);
}
