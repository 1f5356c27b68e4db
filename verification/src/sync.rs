//! From directory listings to tree views, and from two tree views to the
//! plan that reconciles them.

use crate::metadata::{files_below, records_of, FileMetadata, FileRecord};
use crate::path::{is_relative, relative_to};
use crate::plan::{planned, reconcile, steps_of, Operation};
use crate::scan::{DirEntry, EntryKind};
use crate::tree::{
    distinct_paths, has_path, index_of, lemma_with_record, map_of, with_record, with_records,
    TreeView,
};
use vstd::prelude::*;

verus! {

/// Why a scan was given up.
#[derive(Debug, PartialEq, Eq)]
pub enum ScanError {
    /// A file was listed under a path that does not lie below the scanned
    /// root, so no relative path can be given to it.
    InvalidInput { path: String },
}

/// A regular file whose path does not lie below `base`.
pub open spec fn is_stray(base: Seq<char>, entry: DirEntry, separator: char) -> bool {
    entry.kind is File && relative_to(entry.path@, base, separator) is None
}

/// Every regular file among `entries` lies below `base`.
pub open spec fn all_below(base: Seq<char>, entries: Seq<DirEntry>, separator: char) -> bool {
    forall|i: int| 0 <= i < entries.len() ==> !is_stray(base, #[trigger] entries[i], separator)
}

/// `entries[at]` is the first regular file that does not lie below `base`.
pub open spec fn is_first_stray(
    base: Seq<char>,
    entries: Seq<DirEntry>,
    separator: char,
    at: int,
) -> bool {
    &&& 0 <= at < entries.len()
    &&& is_stray(base, entries[at], separator)
    &&& all_below(base, entries.take(at), separator)
}

/// The records of `start` after the regular files among `entries` were put
/// in, one after the other, each under its path relative to `base`.
/// Directories and other entries add nothing.
pub open spec fn collected(
    base: Seq<char>,
    entries: Seq<DirEntry>,
    start: Seq<FileRecord>,
    separator: char,
) -> Seq<FileRecord>
    decreases entries.len(),
{
    if entries.len() == 0 {
        start
    } else {
        let before = collected(base, entries.drop_last(), start, separator);
        match (entries.last().kind, relative_to(entries.last().path@, base, separator)) {
            (EntryKind::File { modified_time, size }, Some(path)) => with_record(
                before,
                FileRecord { path, modified_time, size },
            ),
            _ => before,
        }
    }
}

/// Every path of `records` is relative.
pub open spec fn all_relative(records: Seq<FileRecord>, separator: char) -> bool {
    forall|i: int| 0 <= i < records.len() ==> is_relative(#[trigger] records[i].path, separator)
}

/// Collecting puts only relative paths into a view.
pub proof fn lemma_collected_relative(
    base: Seq<char>,
    entries: Seq<DirEntry>,
    start: Seq<FileRecord>,
    separator: char,
)
    requires
        all_relative(start, separator),
    ensures
        all_relative(collected(base, entries, start, separator), separator),
    decreases entries.len(),
{
    if entries.len() > 0 {
        lemma_collected_relative(base, entries.drop_last(), start, separator);
        let before = collected(base, entries.drop_last(), start, separator);
        match (entries.last().kind, relative_to(entries.last().path@, base, separator)) {
            (EntryKind::File { modified_time, size }, Some(path)) => {
                let record = FileRecord { path, modified_time, size };
                let after = with_record(before, record);
                assert forall|i: int| 0 <= i < after.len() implies is_relative(
                    #[trigger] after[i].path,
                    separator,
                ) by {
                    if has_path(before, path) {
                        if i != index_of(before, path) {
                            assert(after[i] == before[i]);
                        }
                    } else if i < before.len() {
                        assert(after[i] == before[i]);
                    }
                }
            },
            _ => {},
        }
    }
}

/// `entry` is a regular file that lies at `path` below `base`.
pub open spec fn is_file_at(
    base: Seq<char>,
    entry: DirEntry,
    separator: char,
    path: Seq<char>,
) -> bool {
    entry.kind is File && relative_to(entry.path@, base, separator) == Some(path)
}

/// The record that a scan makes of the regular file `entry`, found at `path`
/// below the root.
pub open spec fn record_for(entry: DirEntry, path: Seq<char>) -> FileRecord {
    FileRecord { path, modified_time: entry.kind->modified_time, size: entry.kind->size }
}

/// `entries[at]` is the last regular file among `entries` that lies at
/// `path` below `base`.
pub open spec fn is_last_file_at(
    base: Seq<char>,
    entries: Seq<DirEntry>,
    separator: char,
    path: Seq<char>,
    at: int,
) -> bool {
    &&& 0 <= at < entries.len()
    &&& is_file_at(base, entries[at], separator, path)
    &&& forall|later: int|
        at < later < entries.len() ==> !is_file_at(base, #[trigger] entries[later], separator, path)
}

/// What collecting builds from nothing: no path twice, and under each path
/// the last regular file among `entries` that lies there. A path under which
/// no file lies is not in the view.
pub proof fn lemma_collected_files(
    base: Seq<char>,
    entries: Seq<DirEntry>,
    separator: char,
    path: Seq<char>,
)
    ensures
        distinct_paths(collected(base, entries, Seq::empty(), separator)),
        ({
            let view = map_of(collected(base, entries, Seq::empty(), separator));
            &&& view.contains_key(path) <==> exists|at: int|
                0 <= at < entries.len() && is_file_at(base, #[trigger] entries[at], separator, path)
            &&& view.contains_key(path) ==> exists|at: int|
                #![trigger entries[at]]
                is_last_file_at(base, entries, separator, path, at) && view[path] == record_for(
                    entries[at],
                    path,
                )
        }),
    decreases entries.len(),
{
    let view = collected(base, entries, Seq::empty(), separator);
    if entries.len() == 0 {
        assert(!has_path(view, path));
    } else {
        let earlier = entries.drop_last();
        let last = entries.last();
        let before = collected(base, earlier, Seq::empty(), separator);
        lemma_collected_files(base, earlier, separator, path);
        assert forall|i: int| 0 <= i < earlier.len() implies earlier[i] == entries[i] by {}
        if last.kind is File && relative_to(last.path@, base, separator) is Some {
            let record = record_for(last, relative_to(last.path@, base, separator).unwrap());
            lemma_with_record(before, record);
            assert(view == with_record(before, record));
        }
        if exists|at: int|
            0 <= at < entries.len() && is_file_at(base, #[trigger] entries[at], separator, path) {
            let at = choose|at: int|
                0 <= at < entries.len() && is_file_at(
                    base,
                    #[trigger] entries[at],
                    separator,
                    path,
                );
            if at < earlier.len() {
                assert(is_file_at(base, earlier[at], separator, path));
            }
        }
        if map_of(view).contains_key(path) {
            if is_file_at(base, last, separator, path) {
                assert(is_last_file_at(base, entries, separator, path, entries.len() - 1));
                assert(map_of(view)[path] == record_for(entries[entries.len() - 1], path));
            } else {
                assert(map_of(before).contains_key(path));
                let at = choose|at: int|
                    #![trigger earlier[at]]
                    is_last_file_at(base, earlier, separator, path, at) && map_of(before)[path]
                        == record_for(earlier[at], path);
                assert forall|later: int| at < later < entries.len() implies !is_file_at(
                    base,
                    #[trigger] entries[later],
                    separator,
                    path,
                ) by {
                    if later < earlier.len() {
                        assert(earlier[later] == entries[later]);
                    }
                }
                assert(is_last_file_at(base, entries, separator, path, at));
                assert(map_of(view)[path] == record_for(entries[at], path));
            }
        }
    }
}

/// Collecting puts in the files below the root, one after the other.
pub proof fn lemma_collected_puts_files(
    base: Seq<char>,
    entries: Seq<DirEntry>,
    start: Seq<FileRecord>,
    separator: char,
)
    ensures
        collected(base, entries, start, separator) == with_records(
            start,
            files_below(base, entries, separator),
        ),
    decreases entries.len(),
{
    if entries.len() > 0 {
        lemma_collected_puts_files(base, entries.drop_last(), start, separator);
        let before = files_below(base, entries.drop_last(), separator);
        match (entries.last().kind, relative_to(entries.last().path@, base, separator)) {
            (EntryKind::File { modified_time, size }, Some(path)) => {
                let record = FileRecord { path, modified_time, size };
                assert(before.push(record).drop_last() =~= before);
            },
            _ => {},
        }
    }
}

/// Puts the regular files of `entries` into `metadata_map`, each under its
/// path relative to `base_dir`. Directories are not entered here: their
/// entries are expected among `entries`, or in a later call. Entries that
/// are neither files nor directories are passed over.
///
/// It is all or nothing: a file that does not lie below `base_dir` ends the
/// call with an error and leaves the map as it was.
pub fn collect_metadata_recursive(
    base_dir: &str,
    entries: &Vec<DirEntry>,
    metadata_map: &mut TreeView,
    separator: char,
) -> (result: Result<(), ScanError>)
    ensures
        match result {
            Ok(()) => {
                &&& all_below(base_dir@, entries@, separator)
                &&& final(metadata_map).records() == collected(
                    base_dir@,
                    entries@,
                    old(metadata_map).records(),
                    separator,
                )
            },
            Err(ScanError::InvalidInput { path }) => exists|at: int|
                {
                    &&& is_first_stray(base_dir@, entries@, separator, at)
                    &&& path@ == entries@[at].path@
                    &&& final(metadata_map).records() == old(metadata_map).records()
                },
        },
{
    let list = match FileMetadata::from_directory(base_dir, entries, separator) {
        Ok(list) => list,
        Err(error) => {
            return Err(error);
        },
    };
    let ghost files = records_of(list@);
    proof {
        lemma_collected_puts_files(base_dir@, entries@, metadata_map.records(), separator);
    }
    for metadata in it: list
        invariant
            it.seq() == list@,
            files == records_of(list@),
            metadata_map.records() == with_records(
                old(metadata_map).records(),
                files.take(it.index()),
            ),
    {
        assert(files.take(it.index() + 1).drop_last() =~= files.take(it.index()));
        metadata_map.insert(metadata);
    }
    assert(files.take(files.len() as int) =~= files);
    Ok(())
}

/// The tree view of the root `dir`, from every entry that was found below
/// it. Fails, without a view, on the first file that does not lie below
/// `dir`.
pub fn collect_metadata(dir: &str, entries: &Vec<DirEntry>, separator: char) -> (result: Result<
    TreeView,
    ScanError,
>)
    ensures
        match result {
            Ok(tree) => {
                &&& all_below(dir@, entries@, separator)
                &&& tree.records() == collected(
                    dir@,
                    entries@,
                    Seq::<FileRecord>::empty(),
                    separator,
                )
                &&& all_relative(tree.records(), separator)
            },
            Err(ScanError::InvalidInput { path }) => exists|at: int|
                is_first_stray(dir@, entries@, separator, at) && path@ == entries@[at].path@,
        },
{
    let mut metadata_map = TreeView::new();
    match collect_metadata_recursive(dir, entries, &mut metadata_map, separator) {
        Ok(()) => {
            proof {
                lemma_collected_relative(dir@, entries@, Seq::<FileRecord>::empty(), separator);
            }
            Ok(metadata_map)
        },
        Err(error) => Err(error),
    }
}

/// Plans the run that brings the trees at `dir1` and `dir2` together, from
/// every entry found below each. The plan is for the caller to carry out,
/// in order; a failed scan yields no plan.
pub fn sync_directories(
    dir1: &str,
    entries1: &Vec<DirEntry>,
    dir2: &str,
    entries2: &Vec<DirEntry>,
    separator: char,
) -> (result: Result<Vec<Operation>, ScanError>)
    ensures
        match result {
            Ok(plan) => {
                &&& all_below(dir1@, entries1@, separator)
                &&& all_below(dir2@, entries2@, separator)
                &&& steps_of(plan@) == planned(
                    collected(dir1@, entries1@, Seq::<FileRecord>::empty(), separator),
                    collected(dir2@, entries2@, Seq::<FileRecord>::empty(), separator),
                    separator,
                )
            },
            Err(ScanError::InvalidInput { path }) => {
                ||| exists|at: int|
                    is_first_stray(dir1@, entries1@, separator, at) && path@ == entries1@[at].path@
                ||| all_below(dir1@, entries1@, separator) && exists|at: int|
                    is_first_stray(dir2@, entries2@, separator, at) && path@ == entries2@[at].path@
            },
        },
{
    let metadata1 = match collect_metadata(dir1, entries1, separator) {
        Ok(tree) => tree,
        Err(error) => {
            return Err(error);
        },
    };
    let metadata2 = match collect_metadata(dir2, entries2, separator) {
        Ok(tree) => tree,
        Err(error) => {
            return Err(error);
        },
    };
    Ok(reconcile(&metadata1, &metadata2, separator))
}

} // verus!
