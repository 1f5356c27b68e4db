//! The tree view: what one scan found, keyed by relative path.

use crate::metadata::{records_of, FileMetadata, FileRecord};
use vstd::hash_map::StringHashMap;
use vstd::prelude::*;

verus! {

/// Whether some record of `records` stands under `path`.
pub open spec fn has_path(records: Seq<FileRecord>, path: Seq<char>) -> bool {
    exists|i: int| 0 <= i < records.len() && #[trigger] records[i].path == path
}

/// Where the record under `path` stands in `records`.
pub open spec fn index_of(records: Seq<FileRecord>, path: Seq<char>) -> int {
    choose|i: int| 0 <= i < records.len() && #[trigger] records[i].path == path
}

/// No two records share a path.
pub open spec fn distinct_paths(records: Seq<FileRecord>) -> bool {
    forall|i: int, j: int|
        0 <= i < j < records.len() ==> #[trigger] records[i].path != #[trigger] records[j].path
}

/// `records` with `record` put in: in the place of the record that had its
/// path, or at the end where there was none.
pub open spec fn with_record(records: Seq<FileRecord>, record: FileRecord) -> Seq<FileRecord> {
    if has_path(records, record.path) {
        records.update(index_of(records, record.path), record)
    } else {
        records.push(record)
    }
}

/// `records` with each record of `added` put in, one after the other.
pub open spec fn with_records(records: Seq<FileRecord>, added: Seq<FileRecord>) -> Seq<
    FileRecord,
>
    decreases added.len(),
{
    if added.len() == 0 {
        records
    } else {
        with_record(with_records(records, added.drop_last()), added.last())
    }
}

/// The mapping from path to record that `records` lists.
pub open spec fn map_of(records: Seq<FileRecord>) -> Map<Seq<char>, FileRecord> {
    Map::new(
        |path: Seq<char>| has_path(records, path),
        |path: Seq<char>| records[index_of(records, path)],
    )
}

/// With distinct paths each record is what the mapping holds under its path.
pub proof fn lemma_map_of_holds(records: Seq<FileRecord>, i: int)
    requires
        distinct_paths(records),
        0 <= i < records.len(),
    ensures
        map_of(records).contains_key(records[i].path),
        map_of(records)[records[i].path] == records[i],
        index_of(records, records[i].path) == i,
{
    let j = index_of(records, records[i].path);
    assert(0 <= j < records.len() && records[j].path == records[i].path);
    if j < i {
        assert(records[j].path != records[i].path);
    } else if i < j {
        assert(records[i].path != records[j].path);
    }
}

/// Putting a record in keeps the paths distinct and changes the mapping at
/// its path only.
pub proof fn lemma_with_record(records: Seq<FileRecord>, record: FileRecord)
    requires
        distinct_paths(records),
    ensures
        distinct_paths(with_record(records, record)),
        map_of(with_record(records, record)) == map_of(records).insert(record.path, record),
{
    let after = with_record(records, record);
    let expected = map_of(records).insert(record.path, record);
    if has_path(records, record.path) {
        let at = index_of(records, record.path);
        assert forall|i: int, j: int| 0 <= i < j < after.len() implies #[trigger] after[i].path
            != #[trigger] after[j].path by {
            assert(after[i].path == records[i].path);
            assert(after[j].path == records[j].path);
        }
        assert forall|path: Seq<char>| has_path(after, path) == has_path(records, path) by {
            if has_path(after, path) {
                let i = index_of(after, path);
                assert(records[i].path == path);
            }
            if has_path(records, path) {
                let i = index_of(records, path);
                assert(after[i].path == path);
            }
        }
        assert forall|path: Seq<char>| has_path(after, path) implies map_of(after)[path]
            == expected[path] by {
            let i = index_of(after, path);
            lemma_map_of_holds(after, i);
            if path != record.path {
                assert(records[i].path == path);
                lemma_map_of_holds(records, i);
            }
        }
    } else {
        assert forall|i: int, j: int| 0 <= i < j < after.len() implies #[trigger] after[i].path
            != #[trigger] after[j].path by {
            if j == records.len() {
                assert(records[i].path != record.path);
            } else {
                assert(after[i].path == records[i].path);
                assert(after[j].path == records[j].path);
            }
        }
        assert forall|path: Seq<char>|
            has_path(after, path) == (has_path(records, path) || path == record.path) by {
            if has_path(after, path) {
                let i = index_of(after, path);
                if i < records.len() {
                    assert(records[i].path == path);
                }
            }
            if has_path(records, path) {
                let i = index_of(records, path);
                assert(after[i].path == path);
            }
            if path == record.path {
                assert(after[records.len() as int].path == path);
            }
        }
        assert forall|path: Seq<char>| has_path(after, path) implies map_of(after)[path]
            == expected[path] by {
            let i = index_of(after, path);
            lemma_map_of_holds(after, i);
            if path != record.path {
                assert(records[i].path == path);
                lemma_map_of_holds(records, i);
            }
        }
    }
    assert(map_of(after) =~= expected);
}

/// What a tree view keeps: the files in the order in which their paths came
/// in, and for each path the place of its file.
struct Store {
    entries: Vec<FileMetadata>,
    places: StringHashMap<usize>,
}

impl Store {
    spec fn records(&self) -> Seq<FileRecord> {
        records_of(self.entries@)
    }

    /// `places` knows every path of `entries`, and no other.
    spec fn indexed(&self) -> bool {
        &&& forall|i: int|
            0 <= i < self.records().len() ==> {
                &&& self.places@.contains_key((#[trigger] self.records()[i]).path)
                &&& self.places@[self.records()[i].path] == i
            }
        &&& forall|path: Seq<char>| #[trigger]
            self.places@.contains_key(path) ==> {
                &&& self.places@[path] < self.records().len()
                &&& self.records()[self.places@[path] as int].path == path
            }
    }

    proof fn lemma_indexed_distinct(&self)
        requires
            self.indexed(),
        ensures
            distinct_paths(self.records()),
    {
    }

    fn empty() -> (store: Store)
        ensures
            store.indexed(),
            store.records() == Seq::<FileRecord>::empty(),
    {
        let store = Store { entries: Vec::new(), places: StringHashMap::new() };
        assert(store.records() =~= Seq::<FileRecord>::empty());
        store
    }
}

/// The files one scan found, each under its path relative to the scanned
/// root. No path occurs twice, and a path is looked up without a search.
/// The files keep the order in which their paths came in, so that the same
/// listings always give the same plan.
pub struct TreeView {
    store: Store,
}

impl View for TreeView {
    type V = Map<Seq<char>, FileRecord>;

    open spec fn view(&self) -> Map<Seq<char>, FileRecord> {
        map_of(self.records())
    }
}

impl TreeView {
    /// The records in the order in which their paths first came in.
    pub closed spec fn records(&self) -> Seq<FileRecord> {
        self.store.records()
    }

    #[verifier::type_invariant]
    spec fn well_formed(&self) -> bool {
        self.store.indexed()
    }

    /// A view without files.
    pub fn new() -> (tree: TreeView)
        ensures
            tree.records() == Seq::<FileRecord>::empty(),
    {
        TreeView { store: Store::empty() }
    }

    /// The files in the order of `records`.
    pub fn entries(&self) -> (entries: &Vec<FileMetadata>)
        ensures
            records_of(entries@) == self.records(),
            distinct_paths(self.records()),
    {
        proof {
            use_type_invariant(self);
            self.store.lemma_indexed_distinct();
        }
        &self.store.entries
    }

    /// How many files the view holds.
    pub fn len(&self) -> (n: usize)
        ensures
            n == self.records().len(),
    {
        self.store.entries.len()
    }

    /// Whether the view holds no file.
    pub fn is_empty(&self) -> (empty: bool)
        ensures
            empty == (self.records().len() == 0),
    {
        self.store.entries.len() == 0
    }

    /// The place of the record under `path`.
    fn find(&self, path: &str) -> (at: Option<usize>)
        ensures
            match at {
                Some(i) => i < self.records().len() && self.records()[i as int].path == path@
                    && index_of(self.records(), path@) == i,
                None => !has_path(self.records(), path@),
            },
    {
        proof {
            use_type_invariant(self);
            self.store.lemma_indexed_distinct();
        }
        match self.store.places.get(path) {
            Some(place) => {
                proof {
                    lemma_map_of_holds(self.records(), *place as int);
                }
                Some(*place)
            },
            None => None,
        }
    }

    /// The record under `path`, if the view holds one.
    pub fn get(&self, path: &str) -> (found: Option<&FileMetadata>)
        ensures
            match found {
                Some(metadata) => self@.contains_key(path@) && self@[path@] == metadata@,
                None => !self@.contains_key(path@),
            },
    {
        match self.find(path) {
            Some(i) => Some(&self.store.entries[i]),
            None => None,
        }
    }

    /// Whether the view holds a record under `path`.
    pub fn contains_key(&self, path: &str) -> (held: bool)
        ensures
            held == self@.contains_key(path@),
    {
        self.find(path).is_some()
    }

    /// Puts `metadata` under its own path. A record that stood there is
    /// replaced and keeps its place; a new path goes to the end.
    pub fn insert(&mut self, metadata: FileMetadata)
        ensures
            final(self).records() == with_record(old(self).records(), metadata@),
            final(self)@ == old(self)@.insert(metadata@.path, metadata@),
    {
        proof {
            use_type_invariant(&*self);
            self.store.lemma_indexed_distinct();
            lemma_with_record(self.records(), metadata@);
        }
        let ghost before = self.records();
        let found = self.find(metadata.path.as_str());
        let mut store = Store::empty();
        core::mem::swap(&mut self.store, &mut store);
        match found {
            Some(i) => {
                store.entries[i] = metadata;
                assert(store.records() =~= before.update(i as int, metadata@));
            },
            None => {
                store.places.insert(metadata.path.clone(), store.entries.len());
                store.entries.push(metadata);
                assert(store.records() =~= before.push(metadata@));
            },
        }
        core::mem::swap(&mut self.store, &mut store);
    }
}

} // verus!
