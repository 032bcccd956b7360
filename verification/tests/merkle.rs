use p2sync::merkle::{
    DiffEntry, EMPTY_DIRECTORY_MARK, Node, diff, dir_node, file_node, file_node_with_chunk_size, remove_path, update_file,
    update_file_with_chunk_size,
};
use p2sync::names::NameMap;

fn tree(entries: Vec<(&str, Node)>) -> Node {
    dir_node(NameMap::from_entries(entries.into_iter().map(|(n, c)| (n.to_string(), c)).collect()))
}

fn child<'a>(node: &'a Node, name: &str) -> &'a Node {
    match node {
        Node::Directory { children, .. } => children.get(name).unwrap(),
        Node::File { .. } => panic!("expected directory node"),
    }
}

#[test]
fn file_node_from_data() {
    let node = file_node(b"hello");
    assert!(node.is_file());
    if let Node::File { size, chunks, .. } = &node {
        assert_eq!(*size, 5);
        assert_eq!(chunks.len(), 1);
    }
}

#[test]
fn empty_dir_node() {
    let node = dir_node(NameMap::new());
    assert!(node.is_dir());
}

#[test]
fn dir_hash_depends_on_children() {
    let a = tree(vec![("a.txt", file_node(b"aaa"))]);
    let b = tree(vec![("a.txt", file_node(b"bbb"))]);
    assert_ne!(a.hash(), b.hash());
}

#[test]
fn dir_hash_depends_on_names() {
    let a = tree(vec![("file1.txt", file_node(b"data"))]);
    let b = tree(vec![("file2.txt", file_node(b"data"))]);
    assert_ne!(a.hash(), b.hash());
}

#[test]
fn identical_trees_have_same_hash() {
    let make_tree = || tree(vec![("a.txt", file_node(b"hello")), ("b.txt", file_node(b"world"))]);
    assert_eq!(make_tree().hash(), make_tree().hash());
}

#[test]
fn diff_identical_trees_is_empty() {
    let t = tree(vec![("f.txt", file_node(b"data"))]);
    assert!(diff(&t, &t).is_empty());
}

#[test]
fn diff_detects_added_file() {
    let old = tree(vec![]);
    let new = tree(vec![("new.txt", file_node(b"new"))]);
    let d = diff(&old, &new);
    assert_eq!(d.len(), 1);
    assert!(matches!(&d[0], DiffEntry::Added(p, _) if p == "new.txt"));
}

#[test]
fn diff_detects_removed_file() {
    let old = tree(vec![("old.txt", file_node(b"old"))]);
    let new = tree(vec![]);
    let d = diff(&old, &new);
    assert_eq!(d.len(), 1);
    assert!(matches!(&d[0], DiffEntry::Removed(p, _) if p == "old.txt"));
}

#[test]
fn diff_detects_modified_file() {
    let old = tree(vec![("f.txt", file_node(b"v1"))]);
    let new = tree(vec![("f.txt", file_node(b"v2"))]);
    let d = diff(&old, &new);
    assert_eq!(d.len(), 1);
    assert!(matches!(&d[0], DiffEntry::Modified(p, _, _) if p == "f.txt"));
}

#[test]
fn diff_recurses_into_subdirectories() {
    let old = tree(vec![("sub", tree(vec![("a.txt", file_node(b"old"))]))]);
    let new = tree(vec![("sub", tree(vec![("a.txt", file_node(b"new"))]))]);
    let d = diff(&old, &new);
    assert_eq!(d.len(), 1);
    assert!(matches!(&d[0], DiffEntry::Modified(p, _, _) if p == "sub/a.txt"));
}

#[test]
fn update_file_in_tree() {
    let mut t = tree(vec![("f.txt", file_node(b"v1"))]);
    let old_hash = *t.hash();

    update_file(&mut t, "f.txt", b"v2");

    assert_ne!(*t.hash(), old_hash);
    if let Node::File { size, .. } = child(&t, "f.txt") {
        assert_eq!(*size, 2);
    } else {
        panic!("expected file node");
    }
}

#[test]
fn update_creates_intermediate_dirs() {
    let mut t = tree(vec![]);
    update_file(&mut t, "a/b/c.txt", b"deep");

    if let Node::Directory { children, .. } = &t {
        assert!(children.contains_key("a"));
        if let Node::Directory { children: a_children, .. } = child(&t, "a") {
            assert!(a_children.contains_key("b"));
        }
    }
}

#[test]
fn remove_file_from_tree() {
    let mut t = tree(vec![("a.txt", file_node(b"data")), ("b.txt", file_node(b"keep"))]);

    assert!(remove_path(&mut t, "a.txt"));

    if let Node::Directory { children, .. } = &t {
        assert_eq!(children.len(), 1);
        assert!(children.contains_key("b.txt"));
    }
}

#[test]
fn remove_nested_file() {
    let mut t = tree(vec![(
        "sub",
        tree(vec![("f.txt", file_node(b"data")), ("g.txt", file_node(b"keep"))]),
    )]);

    assert!(remove_path(&mut t, "sub/f.txt"));

    if let Node::Directory { children: sub, .. } = child(&t, "sub") {
        assert_eq!(sub.len(), 1);
        assert!(sub.contains_key("g.txt"));
    }
}

#[test]
fn remove_nonexistent_returns_false() {
    let mut t = tree(vec![]);
    assert!(!remove_path(&mut t, "nope.txt"));
}

#[test]
fn directory_hash_is_taken_of_names_and_hashes() {
    let file = file_node(b"x");
    let mut hasher = blake3::Hasher::new();
    hasher.update("a".as_bytes());
    hasher.update(file.hash());
    hasher.update("é".as_bytes());
    hasher.update(file.hash());
    let t = tree(vec![("é", file_node(b"x")), ("a", file_node(b"x"))]);
    assert_eq!(*t.hash(), *hasher.finalize().as_bytes());
    assert_eq!(*tree(vec![]).hash(), *blake3::hash(&[EMPTY_DIRECTORY_MARK]).as_bytes());
}

#[test]
fn an_empty_file_is_no_empty_directory() {
    let old = tree(vec![("x", file_node(b""))]);
    let new = tree(vec![("x", tree(vec![]))]);
    assert_ne!(file_node(b"").hash(), tree(vec![]).hash());
    assert_ne!(old.hash(), new.hash());
    assert_eq!(diff(&old, &new), vec![DiffEntry::Modified("x".to_string(), file_node(b""), tree(vec![]))]);
}

#[test]
fn replaying_the_differences_gives_the_new_tree() {
    let old = tree(vec![
        ("a", tree(vec![("x", file_node(b"1")), ("y", file_node(b"2"))])),
        ("b", file_node(b"3")),
        ("c", file_node(b"4")),
    ]);
    let new = tree(vec![
        ("a", tree(vec![("x", file_node(b"11")), ("z", file_node(b"5"))])),
        ("b", file_node(b"3")),
        ("d", file_node(b"6")),
    ]);
    let content = |path: &str| -> &[u8] {
        match path {
            "a/x" => b"11",
            "a/z" => b"5",
            _ => b"6",
        }
    };
    let differences = diff(&old, &new);
    let replay = |order: Vec<&DiffEntry>| {
        let mut t = old.clone();
        for d in order {
            match d {
                DiffEntry::Added(p, _) => update_file(&mut t, p, content(p)),
                DiffEntry::Modified(p, _, _) => update_file(&mut t, p, content(p)),
                DiffEntry::Removed(p, _) => assert!(remove_path(&mut t, p)),
            }
        }
        t
    };
    assert_eq!(differences.len(), 5);
    assert_eq!(replay(differences.iter().collect()), new);
    assert_eq!(replay(differences.iter().rev().collect()), new);
    assert!(diff(&new, &replay(differences.iter().collect())).is_empty());
}

#[test]
fn swapping_the_trees_swaps_the_differences() {
    let old = tree(vec![("a", file_node(b"1")), ("b", file_node(b"2"))]);
    let new = tree(vec![("b", file_node(b"22")), ("c", file_node(b"3"))]);
    let there = diff(&old, &new);
    let back = diff(&new, &old);
    assert_eq!(there.len(), back.len());
    for d in &there {
        let other = match d {
            DiffEntry::Added(p, n) => DiffEntry::Removed(p.clone(), n.clone()),
            DiffEntry::Removed(p, n) => DiffEntry::Added(p.clone(), n.clone()),
            DiffEntry::Modified(p, o, n) => DiffEntry::Modified(p.clone(), n.clone(), o.clone()),
        };
        assert!(back.contains(&other));
    }
}

#[test]
fn removal_undoes_insertion() {
    let mut t = tree(vec![("a", tree(vec![("x", file_node(b"1"))]))]);
    let before = t.clone();
    update_file(&mut t, "a/y", b"2");
    assert_ne!(t, before);
    assert!(remove_path(&mut t, "a/y"));
    assert_eq!(t, before);
}

#[test]
fn a_file_on_the_way_blocks_an_insertion() {
    let mut t = tree(vec![("a", file_node(b"1"))]);
    let before = t.clone();
    update_file(&mut t, "a/b", b"2");
    assert_eq!(t, before);
    let mut leaf = file_node(b"1");
    update_file(&mut leaf, "b", b"2");
    assert_eq!(leaf, file_node(b"1"));
}

#[test]
fn the_empty_path_changes_nothing() {
    let mut t = tree(vec![("a", file_node(b"1"))]);
    let before = t.clone();
    update_file(&mut t, "", b"2");
    assert!(!remove_path(&mut t, "."));
    assert_eq!(t, before);
}

#[test]
fn odd_paths_lead_to_the_same_place() {
    let mut t = tree(vec![]);
    update_file(&mut t, "./a//b/./c", b"1");
    let mut u = tree(vec![]);
    update_file(&mut u, "/a/b/c/", b"1");
    assert_eq!(t, u);
}

#[test]
fn chunk_size_of_an_update() {
    let mut t = tree(vec![]);
    update_file_with_chunk_size(&mut t, "f", b"12345", 2);
    assert_eq!(*child(&t, "f"), file_node_with_chunk_size(b"12345", 2));
    if let Node::File { chunks, size, .. } = child(&t, "f") {
        assert_eq!(chunks.len(), 3);
        assert_eq!(*size, 5);
    }
}

#[test]
fn differences_come_in_order() {
    let old = tree(vec![("b", file_node(b"1")), ("c", file_node(b"1")), ("z", file_node(b"1"))]);
    let new = tree(vec![("a", file_node(b"1")), ("b", file_node(b"2")), ("c", file_node(b"1"))]);
    let d = diff(&old, &new);
    assert_eq!(
        d,
        vec![
            DiffEntry::Added("a".to_string(), file_node(b"1")),
            DiffEntry::Modified("b".to_string(), file_node(b"1"), file_node(b"2")),
            DiffEntry::Removed("z".to_string(), file_node(b"1")),
        ]
    );
}

#[test]
fn a_directory_in_place_of_a_file_is_a_modification() {
    let old = tree(vec![("a", file_node(b"1"))]);
    let new = tree(vec![("a", tree(vec![("x", file_node(b"1"))]))]);
    let d = diff(&old, &new);
    assert_eq!(d.len(), 1);
    assert!(matches!(&d[0], DiffEntry::Modified(p, o, n) if p == "a" && o.is_file() && n.is_dir()));
}

#[test]
fn names_are_kept_in_order() {
    let mut m: NameMap<u8> = NameMap::new();
    assert_eq!(m.insert("b".to_string(), 1), None);
    assert_eq!(m.insert("a".to_string(), 2), None);
    assert_eq!(m.insert("b".to_string(), 3), Some(1));
    m.append("c".to_string(), 4);
    assert_eq!(m.name_at(0), "a");
    assert_eq!(*m.value_at(1), 3);
    assert_eq!(m.len(), 3);
    assert_eq!(m.remove("x"), None);
    assert_eq!(m.remove("a"), Some(2));
    *m.get_mut("b").unwrap() = 9;
    assert_eq!(m.get("b"), Some(&9));
    assert!(m.get_mut("a").is_none());
}
