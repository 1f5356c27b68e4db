use syncr::metadata::{FileMetadata, Timestamp};
use syncr::scan::{DirEntry, EntryKind, Walk};
use syncr::sync::{collect_metadata, collect_metadata_recursive, sync_directories, ScanError};
use syncr::tree::TreeView;

fn file(path: &str, nanos: i128, size: u64) -> DirEntry {
    DirEntry {
        path: path.to_string(),
        kind: EntryKind::File { modified_time: Timestamp { nanos }, size },
    }
}

fn directory(path: &str) -> DirEntry {
    DirEntry { path: path.to_string(), kind: EntryKind::Directory }
}

fn other(path: &str) -> DirEntry {
    DirEntry { path: path.to_string(), kind: EntryKind::Other }
}

fn paths(tree: &TreeView) -> Vec<String> {
    let mut paths = Vec::new();
    for metadata in tree.entries() {
        paths.push(metadata.path.clone());
    }
    paths
}

#[test]
fn new_metadata_holds_what_it_was_given() {
    let metadata = FileMetadata::new("a/b.txt".to_string(), Timestamp { nanos: -5 }, 42);
    assert_eq!(metadata.path, "a/b.txt");
    assert_eq!(metadata.modified_time, Timestamp { nanos: -5 });
    assert_eq!(metadata.size, 42);
}

#[test]
fn from_directory_gives_the_files_under_relative_paths() {
    let listing = vec![
        directory("/d/sub"),
        file("/d/one.txt", 1, 10),
        other("/d/link"),
        file("/d/two.txt", 2, 20),
    ];
    let list = FileMetadata::from_directory("/d", &listing, '/').unwrap();
    assert_eq!(list.len(), 2);
    assert_eq!(list[0].path, "one.txt");
    assert_eq!(list[0].size, 10);
    assert_eq!(list[0].modified_time, Timestamp { nanos: 1 });
    assert_eq!(list[1].path, "two.txt");
    assert_eq!(list[1].size, 20);
    assert!(FileMetadata::from_directory("/d", &Vec::new(), '/').unwrap().is_empty());
}

#[test]
fn from_directory_of_a_single_file_names_it_without_the_directory() {
    let list = FileMetadata::from_directory("/tmp/d", &vec![file("/tmp/d/a.txt", 5, 3)], '/');
    let list = list.unwrap();
    assert_eq!(list.len(), 1);
    assert_eq!(list[0].path, "a.txt");
}

#[test]
fn from_directory_fails_on_the_first_file_outside_the_directory() {
    let listing = vec![
        file("/d/one.txt", 1, 10),
        directory("/elsewhere"),
        file("/e/two.txt", 2, 20),
        file("/f/three.txt", 3, 30),
    ];
    assert_eq!(
        FileMetadata::from_directory("/d", &listing, '/').err(),
        Some(ScanError::InvalidInput { path: "/e/two.txt".to_string() })
    );
}

#[test]
fn new_tree_is_empty() {
    let tree = TreeView::new();
    assert!(tree.is_empty());
    assert_eq!(tree.len(), 0);
    assert!(tree.entries().is_empty());
    assert!(tree.get("a").is_none());
    assert!(!tree.contains_key("a"));
}

#[test]
fn insert_adds_new_paths_at_the_end() {
    let mut tree = TreeView::new();
    tree.insert(FileMetadata::new("b".to_string(), Timestamp { nanos: 1 }, 1));
    tree.insert(FileMetadata::new("a".to_string(), Timestamp { nanos: 2 }, 2));
    tree.insert(FileMetadata::new("c".to_string(), Timestamp { nanos: 3 }, 3));
    assert_eq!(tree.len(), 3);
    assert!(!tree.is_empty());
    assert_eq!(paths(&tree), vec!["b", "a", "c"]);
    assert_eq!(tree.get("a").unwrap().size, 2);
    assert_eq!(tree.get("c").unwrap().modified_time, Timestamp { nanos: 3 });
    assert!(tree.contains_key("b"));
    assert!(!tree.contains_key("d"));
}

#[test]
fn insert_replaces_a_record_in_its_place() {
    let mut tree = TreeView::new();
    tree.insert(FileMetadata::new("b".to_string(), Timestamp { nanos: 1 }, 1));
    tree.insert(FileMetadata::new("a".to_string(), Timestamp { nanos: 2 }, 2));
    tree.insert(FileMetadata::new("b".to_string(), Timestamp { nanos: 9 }, 99));
    assert_eq!(tree.len(), 2);
    assert_eq!(paths(&tree), vec!["b", "a"]);
    assert_eq!(tree.get("b").unwrap().size, 99);
    assert_eq!(tree.get("b").unwrap().modified_time, Timestamp { nanos: 9 });
    assert_eq!(tree.get("a").unwrap().size, 2);
}

#[test]
fn walk_starts_with_the_root() {
    let mut walk = Walk::new("/root");
    assert_eq!(walk.next_directory(), Some("/root".to_string()));
    assert_eq!(walk.next_directory(), None);
    assert!(walk.into_entries().is_empty());
}

#[test]
fn walk_goes_depth_first_and_keeps_what_it_saw() {
    let mut walk = Walk::new("/r");
    assert_eq!(walk.next_directory(), Some("/r".to_string()));
    walk.visit(vec![directory("/r/a"), file("/r/f", 1, 1), directory("/r/b"), other("/r/l")]);
    assert_eq!(walk.next_directory(), Some("/r/b".to_string()));
    walk.visit(vec![directory("/r/b/c")]);
    assert_eq!(walk.next_directory(), Some("/r/b/c".to_string()));
    walk.visit(Vec::new());
    assert_eq!(walk.next_directory(), Some("/r/a".to_string()));
    walk.visit(vec![file("/r/a/g", 2, 2)]);
    assert_eq!(walk.next_directory(), None);

    let found = walk.into_entries();
    let seen: Vec<&str> = found.iter().map(|entry| entry.path.as_str()).collect();
    assert_eq!(seen, vec!["/r/a", "/r/f", "/r/b", "/r/l", "/r/b/c", "/r/a/g"]);
}

#[test]
fn collect_metadata_keys_files_by_relative_path() {
    let entries = vec![
        directory("/r/sub"),
        file("/r/root.txt", 5, 12),
        other("/r/socket"),
        file("/r/sub/nested.txt", 6, 14),
    ];
    let tree = collect_metadata("/r", &entries, '/').unwrap();
    assert_eq!(paths(&tree), vec!["root.txt", "sub/nested.txt"]);
    assert_eq!(tree.get("root.txt").unwrap().size, 12);
    assert_eq!(tree.get("sub/nested.txt").unwrap().modified_time, Timestamp { nanos: 6 });
}

#[test]
fn collect_metadata_fails_on_the_first_file_outside_the_root() {
    let entries = vec![
        file("/r/ok.txt", 1, 1),
        directory("/elsewhere"),
        file("/elsewhere/a.txt", 1, 1),
        file("/other/b.txt", 1, 1),
    ];
    assert_eq!(
        collect_metadata("/r", &entries, '/').err(),
        Some(ScanError::InvalidInput { path: "/elsewhere/a.txt".to_string() })
    );
}

#[test]
fn collect_metadata_recursive_leaves_the_map_as_it_was_on_failure() {
    let entries =
        vec![file("/r/ok.txt", 1, 1), file("/rx/bad.txt", 1, 1), file("/r/late.txt", 1, 1)];
    let mut tree = TreeView::new();
    tree.insert(FileMetadata::new("earlier.txt".to_string(), Timestamp { nanos: 0 }, 0));
    let result = collect_metadata_recursive("/r", &entries, &mut tree, '/');
    assert_eq!(result, Err(ScanError::InvalidInput { path: "/rx/bad.txt".to_string() }));
    assert_eq!(paths(&tree), vec!["earlier.txt"]);
    assert_eq!(tree.len(), 1);
    assert!(!tree.contains_key("ok.txt"));
}

#[test]
fn collect_metadata_refuses_a_file_that_climbs_out_of_the_root() {
    let entries = vec![file("/a/x", 1, 1), file("/a/../x", 1, 1)];
    assert_eq!(
        collect_metadata("/a", &entries, '/').err(),
        Some(ScanError::InvalidInput { path: "/a/../x".to_string() })
    );
    let entries = vec![file("/a/./x", 1, 1)];
    assert_eq!(
        collect_metadata("/a", &entries, '/').err(),
        Some(ScanError::InvalidInput { path: "/a/./x".to_string() })
    );
    let entries = vec![file("/a/..x/.y./...", 1, 1)];
    let tree = collect_metadata("/a", &entries, '/').unwrap();
    assert!(tree.contains_key("..x/.y./..."));
}

#[test]
fn collect_metadata_recursive_adds_to_what_the_map_holds() {
    let mut tree = TreeView::new();
    assert_eq!(collect_metadata_recursive("/r", &vec![file("/r/a", 1, 1)], &mut tree, '/'), Ok(()));
    let more = vec![file("/r/d/b", 2, 2), file("/r/a", 3, 3)];
    assert_eq!(collect_metadata_recursive("/r", &more, &mut tree, '/'), Ok(()));
    assert_eq!(paths(&tree), vec!["a", "d/b"]);
    assert_eq!(tree.get("a").unwrap().size, 3);
}

#[test]
fn sync_directories_reports_the_stray_file_of_either_side() {
    let good = vec![file("/a/x", 1, 1)];
    let bad = vec![file("/c/y", 1, 1)];
    assert_eq!(
        sync_directories("/a", &bad, "/b", &bad, '/'),
        Err(ScanError::InvalidInput { path: "/c/y".to_string() })
    );
    assert_eq!(
        sync_directories("/a", &good, "/b", &bad, '/'),
        Err(ScanError::InvalidInput { path: "/c/y".to_string() })
    );
    assert!(sync_directories("/a", &good, "/c", &bad, '/').is_ok());
}
