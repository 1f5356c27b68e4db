use std::collections::{BTreeMap, BTreeSet};

use syncr::metadata::Timestamp;
use syncr::path::join;
use syncr::plan::{Operation, Side};
use syncr::scan::{DirEntry, EntryKind, Walk};
use syncr::sync::{collect_metadata, collect_metadata_recursive, sync_directories, ScanError};
use syncr::tree::TreeView;

struct MemFile {
    content: Vec<u8>,
    modified: i128,
}

/// A filesystem held in memory, with the calls a run needs.
struct MemFs {
    directories: BTreeSet<String>,
    files: BTreeMap<String, MemFile>,
    links: BTreeSet<String>,
    clock: i128,
}

fn parent_of(path: &str) -> &str {
    match path.rfind('/') {
        Some(0) | None => "/",
        Some(at) => &path[..at],
    }
}

impl MemFs {
    fn new() -> MemFs {
        let mut directories = BTreeSet::new();
        directories.insert("/".to_string());
        directories.insert("/tmp".to_string());
        MemFs { directories, files: BTreeMap::new(), links: BTreeSet::new(), clock: 1_000 }
    }

    fn temp_dir(&mut self, name: &str) -> String {
        let path = join("/tmp", name, '/');
        self.directories.insert(path.clone());
        path
    }

    fn create_dir(&mut self, path: &str) -> Result<(), String> {
        if !self.directories.contains(parent_of(path)) {
            return Err(format!("no such directory: {}", parent_of(path)));
        }
        if self.files.contains_key(path) {
            return Err(format!("file exists: {}", path));
        }
        self.directories.insert(path.to_string());
        Ok(())
    }

    fn create_dir_all(&mut self, path: &str) -> Result<(), String> {
        if self.directories.contains(path) {
            return Ok(());
        }
        self.create_dir_all(parent_of(path))?;
        self.create_dir(path)
    }

    fn write_at(&mut self, path: &str, content: &[u8], modified: i128) -> Result<(), String> {
        if !self.directories.contains(parent_of(path)) {
            return Err(format!("no such directory: {}", parent_of(path)));
        }
        self.files.insert(path.to_string(), MemFile { content: content.to_vec(), modified });
        Ok(())
    }

    fn write(&mut self, path: &str, content: &[u8]) {
        self.clock += 1_000_000_000;
        let now = self.clock;
        self.write_at(path, content, now).unwrap();
    }

    fn link(&mut self, path: &str) {
        self.links.insert(path.to_string());
    }

    fn has(&self, path: &str) -> bool {
        self.directories.contains(path) || self.files.contains_key(path)
    }

    fn read_to_string(&self, path: &str) -> String {
        String::from_utf8(self.files[path].content.clone()).unwrap()
    }

    fn modified(&self, path: &str) -> i128 {
        self.files[path].modified
    }

    fn read_dir(&self, dir: &str) -> Result<Vec<DirEntry>, String> {
        if !self.directories.contains(dir) {
            return Err(format!("no such directory: {}", dir));
        }
        let mut listing = Vec::new();
        for (path, file) in &self.files {
            if parent_of(path) == dir {
                listing.push(DirEntry {
                    path: path.clone(),
                    kind: EntryKind::File {
                        modified_time: Timestamp { nanos: file.modified },
                        size: file.content.len() as u64,
                    },
                });
            }
        }
        for path in &self.directories {
            if path != "/" && parent_of(path) == dir {
                listing.push(DirEntry { path: path.clone(), kind: EntryKind::Directory });
            }
        }
        for path in &self.links {
            if parent_of(path) == dir {
                listing.push(DirEntry { path: path.clone(), kind: EntryKind::Other });
            }
        }
        Ok(listing)
    }

    fn scan(&self, root: &str) -> Result<Vec<DirEntry>, String> {
        let mut walk = Walk::new(root);
        while let Some(directory) = walk.next_directory() {
            let listing = self.read_dir(&directory)?;
            walk.visit(listing);
        }
        Ok(walk.into_entries())
    }

    fn copy(&mut self, from: &str, to: &str) -> Result<(), String> {
        let (content, modified) = match self.files.get(from) {
            Some(file) => (file.content.clone(), file.modified),
            None => return Err(format!("no such file: {}", from)),
        };
        self.write_at(to, &content, modified)
    }

    fn carry_out(&mut self, dir1: &str, dir2: &str, plan: &[Operation]) -> Result<usize, String> {
        let mut copies = 0;
        for operation in plan {
            match operation {
                Operation::CreateDirectories { side, path } => {
                    let root = if *side == Side::First { dir1 } else { dir2 };
                    self.create_dir_all(&join(root, path, '/'))?;
                }
                Operation::CopyFile { from, path } => {
                    let (source, target) =
                        if *from == Side::First { (dir1, dir2) } else { (dir2, dir1) };
                    self.copy(&join(source, path, '/'), &join(target, path, '/'))?;
                    copies += 1;
                }
            }
        }
        Ok(copies)
    }

    fn sync(&mut self, dir1: &str, dir2: &str) -> Result<usize, String> {
        let entries1 = self.scan(dir1)?;
        let entries2 = self.scan(dir2)?;
        let plan = match sync_directories(dir1, &entries1, dir2, &entries2, '/') {
            Ok(plan) => plan,
            Err(ScanError::InvalidInput { path }) => return Err(format!("invalid input: {}", path)),
        };
        self.carry_out(dir1, dir2, &plan)
    }
}

#[test]
fn test_sync_with_empty_directories() {
    let mut fs = MemFs::new();
    let source_dir = fs.temp_dir("source");
    let dest_dir = fs.temp_dir("dest");

    assert!(fs.sync(&source_dir, &dest_dir).is_ok());
    assert!(fs.files.is_empty());
    assert_eq!(
        sync_directories(&source_dir, &Vec::new(), &dest_dir, &Vec::new(), '/'),
        Ok(Vec::new())
    );
}

#[test]
fn test_sync_with_files() {
    let mut fs = MemFs::new();
    let source_dir = fs.temp_dir("source");
    let dest_dir = fs.temp_dir("dest");

    fs.write(&join(&source_dir, "test.txt", '/'), b"test content");

    assert!(fs.sync(&source_dir, &dest_dir).is_ok());

    assert!(fs.has(&join(&dest_dir, "test.txt", '/')));
    assert_eq!(fs.read_to_string("/tmp/dest/test.txt"), "test content");
    assert_eq!(fs.read_to_string("/tmp/source/test.txt"), "test content");
}

#[test]
fn test_sync_with_subdirectories() {
    let mut fs = MemFs::new();
    let source_dir = fs.temp_dir("source");
    let dest_dir = fs.temp_dir("dest");

    fs.create_dir(&join(&source_dir, "subdir", '/')).unwrap();
    fs.write(&join(&source_dir, "subdir/test.txt", '/'), b"test content");

    assert!(fs.sync(&source_dir, &dest_dir).is_ok());

    assert!(fs.has(&join(&dest_dir, "subdir", '/')));
    assert!(fs.has(&join(&dest_dir, "subdir/test.txt", '/')));
    assert_eq!(fs.read_to_string("/tmp/dest/subdir/test.txt"), "test content");
}

#[test]
fn test_sync_updates_existing_files() {
    let mut fs = MemFs::new();
    let source_dir = fs.temp_dir("source");
    let dest_dir = fs.temp_dir("dest");

    fs.write_at(&join(&source_dir, "test.txt", '/'), b"updated content", 2_000).unwrap();
    fs.write_at(&join(&dest_dir, "test.txt", '/'), b"old content", 1_000).unwrap();

    assert!(fs.sync(&source_dir, &dest_dir).is_ok());

    let content = fs.read_to_string(&join(&dest_dir, "test.txt", '/'));
    assert_eq!(content, "updated content");
    assert_eq!(fs.read_to_string("/tmp/source/test.txt"), "updated content");
}

#[test]
fn test_collect_metadata_empty_directory() {
    let mut fs = MemFs::new();
    let dir = fs.temp_dir("dir");
    let mut metadata_map = TreeView::new();

    let entries = fs.scan(&dir).unwrap();
    let result = collect_metadata_recursive(&dir, &entries, &mut metadata_map, '/');

    assert!(result.is_ok());
    assert!(metadata_map.is_empty());
}

#[test]
fn test_collect_metadata_with_files() {
    let mut fs = MemFs::new();
    let dir = fs.temp_dir("dir");
    let mut metadata_map = TreeView::new();

    fs.write(&join(&dir, "test.txt", '/'), b"test content");

    let entries = fs.scan(&dir).unwrap();
    let result = collect_metadata_recursive(&dir, &entries, &mut metadata_map, '/');

    assert!(result.is_ok());
    assert_eq!(metadata_map.len(), 1);
    assert!(metadata_map.contains_key("test.txt"));

    let metadata = metadata_map.get("test.txt").unwrap();
    assert_eq!(metadata.path, "test.txt");
    assert_eq!(metadata.size, 12);
}

#[test]
fn test_collect_metadata_with_nested_directories() {
    let mut fs = MemFs::new();
    let dir = fs.temp_dir("dir");
    let mut metadata_map = TreeView::new();

    let subdir_path = join(&dir, "subdir", '/');
    fs.create_dir(&subdir_path).unwrap();

    fs.write(&join(&dir, "root.txt", '/'), b"root content");
    fs.write(&join(&subdir_path, "nested.txt", '/'), b"nested content");

    let entries = fs.scan(&dir).unwrap();
    let result = collect_metadata_recursive(&dir, &entries, &mut metadata_map, '/');

    assert!(result.is_ok());
    assert_eq!(metadata_map.len(), 2);
    assert!(metadata_map.contains_key("root.txt"));
    assert!(metadata_map.contains_key("subdir/nested.txt"));

    let root_metadata = metadata_map.get("root.txt").unwrap();
    assert_eq!(root_metadata.path, "root.txt");
    assert_eq!(root_metadata.size, 12);

    let nested_metadata = metadata_map.get("subdir/nested.txt").unwrap();
    assert_eq!(nested_metadata.path, "subdir/nested.txt");
    assert_eq!(nested_metadata.size, 14);
}

#[test]
fn test_collect_metadata_with_deeply_nested_structure() {
    let mut fs = MemFs::new();
    let dir = fs.temp_dir("dir");
    let mut metadata_map = TreeView::new();

    let subdir1 = join(&dir, "level1", '/');
    fs.create_dir(&subdir1).unwrap();
    let subdir2 = join(&subdir1, "level2", '/');
    fs.create_dir(&subdir2).unwrap();
    let subdir3 = join(&subdir2, "level3", '/');
    fs.create_dir(&subdir3).unwrap();

    fs.write(&join(&subdir3, "deep.txt", '/'), b"deep content");

    let entries = fs.scan(&dir).unwrap();
    let result = collect_metadata_recursive(&dir, &entries, &mut metadata_map, '/');

    assert!(result.is_ok());
    assert_eq!(metadata_map.len(), 1);
    assert!(metadata_map.contains_key("level1/level2/level3/deep.txt"));

    let metadata = metadata_map.get("level1/level2/level3/deep.txt").unwrap();
    assert_eq!(metadata.path, "level1/level2/level3/deep.txt");
    assert_eq!(metadata.size, 12);
}

#[test]
fn test_collect_metadata_invalid_base_dir() {
    let mut fs = MemFs::new();
    let dir = fs.temp_dir("dir");
    fs.write(&join(&dir, "test.txt", '/'), b"test content");
    let invalid_dir = join(&dir, "nonexistent", '/');
    let mut metadata_map = TreeView::new();

    assert!(fs.scan(&invalid_dir).is_err());

    let entries = fs.scan(&dir).unwrap();
    let result = collect_metadata_recursive(&invalid_dir, &entries, &mut metadata_map, '/');

    assert!(result.is_err());
    assert_eq!(result, Err(ScanError::InvalidInput { path: "/tmp/dir/test.txt".to_string() }));
    assert!(metadata_map.is_empty());
}

#[test]
fn sync_of_deeply_nested_file_creates_every_directory() {
    let mut fs = MemFs::new();
    let a = fs.temp_dir("a");
    let b = fs.temp_dir("b");
    fs.create_dir_all("/tmp/a/level1/level2/level3").unwrap();
    fs.write("/tmp/a/level1/level2/level3/deep.txt", b"deep content");

    assert_eq!(fs.sync(&a, &b), Ok(1));

    assert!(fs.has("/tmp/b/level1"));
    assert!(fs.has("/tmp/b/level1/level2"));
    assert!(fs.has("/tmp/b/level1/level2/level3"));
    assert_eq!(fs.read_to_string("/tmp/b/level1/level2/level3/deep.txt"), "deep content");
}

#[test]
fn sync_of_disjoint_trees_gives_both_files_to_both() {
    let mut fs = MemFs::new();
    let a = fs.temp_dir("a");
    let b = fs.temp_dir("b");
    fs.write("/tmp/a/a.txt", b"A");
    fs.write("/tmp/b/b.txt", b"B");

    assert_eq!(fs.sync(&a, &b), Ok(2));

    assert_eq!(fs.read_to_string("/tmp/a/a.txt"), "A");
    assert_eq!(fs.read_to_string("/tmp/a/b.txt"), "B");
    assert_eq!(fs.read_to_string("/tmp/b/a.txt"), "A");
    assert_eq!(fs.read_to_string("/tmp/b/b.txt"), "B");
}

#[test]
fn sync_with_missing_root_fails_and_changes_nothing() {
    let mut fs = MemFs::new();
    let a = fs.temp_dir("a");
    fs.write("/tmp/a/a.txt", b"A");

    assert!(fs.sync(&a, "/tmp/missing").is_err());
    assert!(fs.sync("/tmp/missing", &a).is_err());

    assert_eq!(fs.files.len(), 1);
    assert!(!fs.has("/tmp/missing"));
}

#[test]
fn sync_stops_at_a_file_that_disappeared_and_keeps_earlier_copies() {
    let mut fs = MemFs::new();
    let a = fs.temp_dir("a");
    let b = fs.temp_dir("b");
    fs.write("/tmp/a/one.txt", b"1");
    fs.write("/tmp/a/two.txt", b"2");

    let entries1 = fs.scan(&a).unwrap();
    let entries2 = fs.scan(&b).unwrap();
    let plan = sync_directories(&a, &entries1, &b, &entries2, '/').unwrap();
    assert_eq!(
        plan,
        vec![
            Operation::CopyFile { from: Side::First, path: "one.txt".to_string() },
            Operation::CopyFile { from: Side::First, path: "two.txt".to_string() },
        ]
    );
    fs.files.remove("/tmp/a/two.txt");

    assert!(fs.carry_out(&a, &b, &plan).is_err());

    assert_eq!(fs.read_to_string("/tmp/b/one.txt"), "1");
    assert!(!fs.has("/tmp/b/two.txt"));
}

#[test]
fn second_sync_copies_nothing() {
    let mut fs = MemFs::new();
    let a = fs.temp_dir("a");
    let b = fs.temp_dir("b");
    fs.create_dir("/tmp/a/docs").unwrap();
    fs.write("/tmp/a/docs/old.txt", b"first");
    fs.write("/tmp/b/only.txt", b"here");
    fs.create_dir("/tmp/b/docs").unwrap();
    fs.write("/tmp/b/docs/old.txt", b"second, and later");

    assert_eq!(fs.sync(&a, &b), Ok(2));
    assert_eq!(fs.sync(&a, &b), Ok(0));

    assert_eq!(fs.read_to_string("/tmp/a/docs/old.txt"), "second, and later");
    assert_eq!(fs.read_to_string("/tmp/a/only.txt"), "here");
}

#[test]
fn sync_leaves_equal_files_untouched() {
    let mut fs = MemFs::new();
    let a = fs.temp_dir("a");
    let b = fs.temp_dir("b");
    fs.write_at("/tmp/a/same.txt", b"abc", 5_000).unwrap();
    fs.write_at("/tmp/b/same.txt", b"xyz", 5_000).unwrap();

    assert_eq!(fs.sync(&a, &b), Ok(0));

    assert_eq!(fs.read_to_string("/tmp/a/same.txt"), "abc");
    assert_eq!(fs.read_to_string("/tmp/b/same.txt"), "xyz");
    assert_eq!(fs.modified("/tmp/a/same.txt"), 5_000);
    assert_eq!(fs.modified("/tmp/b/same.txt"), 5_000);
}

#[test]
fn sync_gives_the_same_trees_in_either_direction() {
    let mut one = MemFs::new();
    let mut two = MemFs::new();
    for fs in [&mut one, &mut two] {
        fs.temp_dir("a");
        fs.temp_dir("b");
        fs.create_dir("/tmp/a/x").unwrap();
        fs.write_at("/tmp/a/x/shared.txt", b"from a", 7_000).unwrap();
        fs.create_dir("/tmp/b/x").unwrap();
        fs.write_at("/tmp/b/x/shared.txt", b"from b, newer", 9_000).unwrap();
        fs.write_at("/tmp/a/tie.txt", b"longer content", 3_000).unwrap();
        fs.write_at("/tmp/b/tie.txt", b"short", 3_000).unwrap();
        fs.write_at("/tmp/a/only_a.txt", b"a", 1_000).unwrap();
    }

    assert!(one.sync("/tmp/a", "/tmp/b").is_ok());
    assert!(two.sync("/tmp/b", "/tmp/a").is_ok());

    assert_eq!(one.directories, two.directories);
    assert_eq!(one.files.len(), 6);
    for (path, file) in &one.files {
        assert_eq!(file.content, two.files[path].content);
        assert_eq!(file.modified, two.files[path].modified);
    }
    assert_eq!(one.read_to_string("/tmp/a/x/shared.txt"), "from b, newer");
    assert_eq!(one.read_to_string("/tmp/b/tie.txt"), "longer content");
    assert_eq!(one.read_to_string("/tmp/b/only_a.txt"), "a");
}

#[test]
fn scan_skips_links_and_empty_directories_and_keeps_hidden_files() {
    let mut fs = MemFs::new();
    let dir = fs.temp_dir("dir");
    fs.create_dir("/tmp/dir/empty").unwrap();
    fs.write("/tmp/dir/.hidden", b"secret");
    fs.link("/tmp/dir/link");

    let entries = fs.scan(&dir).unwrap();
    let tree = collect_metadata(&dir, &entries, '/').unwrap();

    assert_eq!(entries.len(), 3);
    assert_eq!(tree.len(), 1);
    assert_eq!(tree.get(".hidden").unwrap().size, 6);
    assert!(!tree.contains_key("link"));
    assert!(!tree.contains_key("empty"));

    let other = fs.temp_dir("other");
    assert_eq!(fs.sync(&dir, &other), Ok(1));
    assert!(!fs.has("/tmp/other/empty"));
    assert!(!fs.has("/tmp/other/link"));
}
