//! Two directory trees as mathematical values, and what the operations of a
//! plan do to them.
//!
//! The model is of trees that nobody else writes to while the plan is carried
//! out, and of copies that keep the modification time.

use crate::metadata::{FileRecord, Timestamp};
use crate::path::{is_ancestor, parent_of};
use crate::plan::{lookup, winner, Side, Step};
use crate::tree::{distinct_paths, map_of};
use vstd::prelude::*;

verus! {

/// A regular file: its bytes and when it was last written.
pub struct FileState {
    pub content: Seq<u8>,
    pub modified_time: Timestamp,
}

/// One directory tree: its regular files and its directories, each under the
/// path relative to the root. The root itself is not listed.
#[verifier::ext_equal]
pub struct Tree {
    pub files: Map<Seq<char>, FileState>,
    pub directories: Set<Seq<char>>,
}

/// The two trees of a run.
#[verifier::ext_equal]
pub struct Trees {
    pub first: Tree,
    pub second: Tree,
}

impl Trees {
    /// The tree on `side`.
    pub open spec fn side(self, side: Side) -> Tree {
        match side {
            Side::First => self.first,
            Side::Second => self.second,
        }
    }

    /// These trees with `tree` on `side`.
    pub open spec fn with_side(self, side: Side, tree: Tree) -> Trees {
        match side {
            Side::First => Trees { first: tree, second: self.second },
            Side::Second => Trees { first: self.first, second: tree },
        }
    }

    /// The same two trees, each in the other's place.
    pub open spec fn swapped(self) -> Trees {
        Trees { first: self.second, second: self.first }
    }
}

/// The record that a scan makes of the file at `path`.
pub open spec fn record_at(tree: Tree, path: Seq<char>) -> FileRecord {
    FileRecord {
        path,
        modified_time: tree.files[path].modified_time,
        size: tree.files[path].content.len() as u64,
    }
}

/// What a scan of `tree` sees: every file, and nothing of the directories.
pub open spec fn scan_of(tree: Tree) -> Map<Seq<char>, FileRecord> {
    Map::new(
        |path: Seq<char>| tree.files.contains_key(path),
        |path: Seq<char>| record_at(tree, path),
    )
}

/// `records` is a scan of `tree`, in some order.
pub open spec fn scans(records: Seq<FileRecord>, tree: Tree) -> bool {
    distinct_paths(records) && map_of(records) == scan_of(tree)
}

/// The directories of a tree after `path` was created with all that is
/// missing above it.
pub open spec fn with_directories(
    directories: Set<Seq<char>>,
    path: Seq<char>,
    separator: char,
) -> Set<Seq<char>> {
    Set::new(
        |d: Seq<char>| directories.contains(d) || d == path || is_ancestor(d, path, separator),
    )
}

/// Whether a filesystem can hold `tree`: no path is a file and a directory
/// at once, and what lies above a file or a directory is a directory.
pub open spec fn sound(tree: Tree, separator: char) -> bool {
    &&& forall|path: Seq<char>|
        !(#[trigger] tree.files.contains_key(path) && tree.directories.contains(path))
    &&& forall|d: Seq<char>, path: Seq<char>|
        #[trigger] is_ancestor(d, path, separator) && (tree.files.contains_key(path)
            || tree.directories.contains(path)) ==> tree.directories.contains(d)
}

/// No path is a file in one tree and a directory in the other.
pub open spec fn agree(trees: Trees) -> bool {
    forall|side: Side, path: Seq<char>|
        !(#[trigger] trees.side(side).files.contains_key(path) && trees.side(
            side.other(),
        ).directories.contains(path))
}

/// Whether `step` can be carried out on `trees`. Directories cannot be made
/// where a file is in the way. A copy needs its source file and the
/// directory that will hold the copy, and cannot replace a directory.
pub open spec fn can_apply(trees: Trees, step: Step, separator: char) -> bool {
    match step {
        Step::CreateDirectories { side, path } => {
            &&& !trees.side(side).files.contains_key(path)
            &&& forall|d: Seq<char>| #[trigger]
                is_ancestor(d, path, separator) ==> !trees.side(side).files.contains_key(d)
        },
        Step::CopyFile { from, path } => {
            &&& trees.side(from).files.contains_key(path)
            &&& !trees.side(from.other()).directories.contains(path)
            &&& match parent_of(path, separator) {
                Some(directory) => trees.side(from.other()).directories.contains(directory),
                None => true,
            }
        },
    }
}

/// The trees after `step`. A copy hands over content and modification time.
pub open spec fn apply(trees: Trees, step: Step, separator: char) -> Trees {
    match step {
        Step::CreateDirectories { side, path } => trees.with_side(
            side,
            Tree {
                files: trees.side(side).files,
                directories: with_directories(trees.side(side).directories, path, separator),
            },
        ),
        Step::CopyFile { from, path } => trees.with_side(
            from.other(),
            Tree {
                files: trees.side(from.other()).files.insert(path, trees.side(from).files[path]),
                directories: trees.side(from.other()).directories,
            },
        ),
    }
}

/// The trees after `steps`, carried out in order.
pub open spec fn run(trees: Trees, steps: Seq<Step>, separator: char) -> Trees
    decreases steps.len(),
{
    if steps.len() == 0 {
        trees
    } else {
        apply(run(trees, steps.drop_last(), separator), steps.last(), separator)
    }
}

/// Every step of `steps` can be carried out when its turn comes.
pub open spec fn ready(trees: Trees, steps: Seq<Step>, separator: char) -> bool
    decreases steps.len(),
{
    steps.len() == 0 || {
        &&& ready(trees, steps.drop_last(), separator)
        &&& can_apply(run(trees, steps.drop_last(), separator), steps.last(), separator)
    }
}

/// The reconciliation rule applied to what the two trees hold under `path`.
pub open spec fn verdict(trees: Trees, path: Seq<char>) -> Option<Side> {
    winner(lookup(scan_of(trees.first), path), lookup(scan_of(trees.second), path))
}

/// Whether the tree on `side` receives a file at or below `directory`.
pub open spec fn receives_below(
    trees: Trees,
    side: Side,
    directory: Seq<char>,
    separator: char,
) -> bool {
    exists|path: Seq<char>| #[trigger]
        verdict(trees, path) == Some(side.other()) && is_ancestor(directory, path, separator)
}

/// The tree on `side` as the reconciliation rule wants it: every file of
/// either tree, in the version that wins, and the directories above what
/// was received.
pub open spec fn reconciled_side(trees: Trees, side: Side, separator: char) -> Tree {
    let own = trees.side(side);
    let other = trees.side(side.other());
    Tree {
        files: Map::new(
            |path: Seq<char>| own.files.contains_key(path) || other.files.contains_key(path),
            |path: Seq<char>|
                if verdict(trees, path) == Some(side.other()) {
                    other.files[path]
                } else {
                    own.files[path]
                },
        ),
        directories: Set::new(
            |d: Seq<char>| own.directories.contains(d) || receives_below(trees, side, d, separator),
        ),
    }
}

/// Both trees as the reconciliation rule wants them.
pub open spec fn reconciled(trees: Trees, separator: char) -> Trees {
    Trees {
        first: reconciled_side(trees, Side::First, separator),
        second: reconciled_side(trees, Side::Second, separator),
    }
}

} // verus!
