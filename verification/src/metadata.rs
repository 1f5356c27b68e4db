//! The record that describes one regular file.

use crate::path::{relative_to, strip_prefix};
use crate::scan::{DirEntry, EntryKind};
use crate::sync::{all_below, is_first_stray, is_stray, ScanError};
use vstd::prelude::*;

verus! {

/// A wall-clock instant: nanoseconds since the Unix epoch, negative before it.
#[derive(Clone, Copy, Debug, PartialEq, Eq, Structural)]
pub struct Timestamp {
    pub nanos: i128,
}

impl Timestamp {
    /// The instant that lies `seconds` and `nanos` nanoseconds after the
    /// epoch.
    pub fn after_epoch(seconds: u64, nanos: u32) -> (instant: Timestamp)
        ensures
            instant.nanos == seconds * 1_000_000_000 + nanos,
    {
        let whole: i128 = seconds as i128 * 1_000_000_000;
        Timestamp { nanos: whole + nanos as i128 }
    }

    /// The instant that lies `seconds` and `nanos` nanoseconds before the
    /// epoch.
    pub fn before_epoch(seconds: u64, nanos: u32) -> (instant: Timestamp)
        ensures
            instant.nanos == -(seconds * 1_000_000_000 + nanos),
    {
        let whole: i128 = seconds as i128 * 1_000_000_000;
        Timestamp { nanos: -(whole + nanos as i128) }
    }

    /// Whether this instant is strictly later than `other`.
    pub fn is_after(self, other: Timestamp) -> (later: bool)
        ensures
            later == (self.nanos > other.nanos),
    {
        self.nanos > other.nanos
    }
}

/// What is known of one regular file: where it is, when it was last written
/// and how many bytes it holds.
#[derive(Debug)]
pub struct FileMetadata {
    pub path: String,
    pub modified_time: Timestamp,
    pub size: u64,
}

/// A file's metadata as a mathematical value.
pub struct FileRecord {
    pub path: Seq<char>,
    pub modified_time: Timestamp,
    pub size: u64,
}

impl View for FileMetadata {
    type V = FileRecord;

    open spec fn view(&self) -> FileRecord {
        FileRecord { path: self.path@, modified_time: self.modified_time, size: self.size }
    }
}

/// The records of the regular files among `entries` that lie below `base`,
/// in their order, each under its path relative to `base`. Directories and
/// other entries add nothing.
pub open spec fn files_below(base: Seq<char>, entries: Seq<DirEntry>, separator: char) -> Seq<
    FileRecord,
>
    decreases entries.len(),
{
    if entries.len() == 0 {
        Seq::empty()
    } else {
        let before = files_below(base, entries.drop_last(), separator);
        match (entries.last().kind, relative_to(entries.last().path@, base, separator)) {
            (EntryKind::File { modified_time, size }, Some(path)) => before.push(
                FileRecord { path, modified_time, size },
            ),
            _ => before,
        }
    }
}

/// The records that a vector of metadata stands for.
pub open spec fn records_of(list: Seq<FileMetadata>) -> Seq<FileRecord> {
    Seq::new(list.len(), |i: int| list[i]@)
}

impl FileMetadata {
    /// Describes the file at `path` by what was read of it.
    pub fn new(path: String, modified_time: Timestamp, size: u64) -> (metadata: FileMetadata)
        ensures
            metadata@ == (FileRecord { path: path@, modified_time, size }),
    {
        FileMetadata { path, modified_time, size }
    }

    /// The regular files among the entries of the directory `dir`, each
    /// under its path relative to `dir`. Subdirectories are not entered, and
    /// entries that are neither files nor directories are left out.
    ///
    /// The first file that does not lie below `dir` ends the call with an
    /// error, and no list.
    pub fn from_directory(dir: &str, entries: &Vec<DirEntry>, separator: char) -> (result: Result<
        Vec<FileMetadata>,
        ScanError,
    >)
        ensures
            match result {
                Ok(list) => {
                    &&& all_below(dir@, entries@, separator)
                    &&& records_of(list@) == files_below(dir@, entries@, separator)
                },
                Err(ScanError::InvalidInput { path }) => exists|at: int|
                    is_first_stray(dir@, entries@, separator, at) && path@ == entries@[at].path@,
            },
    {
        let mut list: Vec<FileMetadata> = Vec::new();
        let mut i: usize = 0;
        while i < entries.len()
            invariant
                i <= entries.len(),
                all_below(dir@, entries@.take(i as int), separator),
                records_of(list@) == files_below(dir@, entries@.take(i as int), separator),
            decreases entries.len() - i,
        {
            let entry = &entries[i];
            assert(entries@.take(i + 1).drop_last() =~= entries@.take(i as int));
            if let EntryKind::File { modified_time, size } = entry.kind {
                match strip_prefix(entry.path.as_str(), dir, separator) {
                    Some(relative) => {
                        list.push(FileMetadata::new(relative, modified_time, size));
                    },
                    None => {
                        assert(is_first_stray(dir@, entries@, separator, i as int));
                        return Err(ScanError::InvalidInput { path: entry.path.clone() });
                    },
                }
            }
            assert forall|j: int| 0 <= j < i + 1 implies !is_stray(
                dir@,
                #[trigger] entries@.take(i + 1)[j],
                separator,
            ) by {
                if j < i {
                    assert(entries@.take(i + 1)[j] == entries@.take(i as int)[j]);
                }
            }
            i += 1;
        }
        assert(entries@.take(i as int) =~= entries@);
        Ok(list)
    }
}

} // verus!
