//! The reconciliation rule, and the operations that carry it out.

use crate::metadata::{records_of, FileMetadata, FileRecord};
use crate::path::{parent, parent_of};
use crate::tree::{map_of, TreeView};
use vstd::prelude::*;

verus! {

/// One of the two trees of a run.
#[derive(Clone, Copy, Debug, PartialEq, Eq, Structural)]
pub enum Side {
    First,
    Second,
}

impl Side {
    /// The other tree.
    pub open spec fn other(self) -> Side {
        match self {
            Side::First => Side::Second,
            Side::Second => Side::First,
        }
    }

    /// The other tree.
    pub fn opposite(self) -> (side: Side)
        ensures
            side == self.other(),
    {
        match self {
            Side::First => Side::Second,
            Side::Second => Side::First,
        }
    }
}

/// One filesystem call for the caller to make. Paths are relative to the
/// root of the tree that the operation names.
#[derive(Debug, PartialEq, Eq)]
pub enum Operation {
    /// Create the directory `path` below the root of `side`, with every
    /// directory above it that is missing. A directory that exists is left
    /// as it is.
    CreateDirectories { side: Side, path: String },
    /// Copy the file `path` from the tree `from` to the same path in the
    /// other tree, replacing what is there and keeping the modification time.
    CopyFile { from: Side, path: String },
}

/// An operation as a mathematical value.
pub enum Step {
    CreateDirectories { side: Side, path: Seq<char> },
    CopyFile { from: Side, path: Seq<char> },
}

impl View for Operation {
    type V = Step;

    open spec fn view(&self) -> Step {
        match self {
            Operation::CreateDirectories { side, path } => Step::CreateDirectories {
                side: *side,
                path: path@,
            },
            Operation::CopyFile { from, path } => Step::CopyFile { from: *from, path: path@ },
        }
    }
}

/// The steps that a list of operations stands for.
pub open spec fn steps_of(plan: Seq<Operation>) -> Seq<Step> {
    Seq::new(plan.len(), |i: int| plan[i]@)
}

/// The reconciliation rule for one path: which side holds the version that
/// the other side is to receive, given what each side has there. `None`
/// means that nothing is copied.
///
/// A file that only one side has goes to the other. Where both have it, the
/// strictly later modification time wins; with equal times the larger file
/// wins; with equal times and sizes the two count as the same.
pub open spec fn winner(first: Option<FileRecord>, second: Option<FileRecord>) -> Option<Side> {
    match (first, second) {
        (None, None) => None,
        (Some(_), None) => Some(Side::First),
        (None, Some(_)) => Some(Side::Second),
        (Some(a), Some(b)) => {
            if a.modified_time.nanos > b.modified_time.nanos {
                Some(Side::First)
            } else if b.modified_time.nanos > a.modified_time.nanos {
                Some(Side::Second)
            } else if a.size > b.size {
                Some(Side::First)
            } else if b.size > a.size {
                Some(Side::Second)
            } else {
                None
            }
        },
    }
}

/// What a tree view holds under `path`.
pub open spec fn lookup(view: Map<Seq<char>, FileRecord>, path: Seq<char>) -> Option<FileRecord> {
    if view.contains_key(path) {
        Some(view[path])
    } else {
        None
    }
}

/// Whether the file `own`, found on side `source`, is copied to the other
/// side, whose view is `other`.
pub open spec fn copies(source: Side, own: FileRecord, other: Map<Seq<char>, FileRecord>) -> bool {
    match source {
        Side::First => winner(Some(own), lookup(other, own.path)) == Some(Side::First),
        Side::Second => winner(lookup(other, own.path), Some(own)) == Some(Side::Second),
    }
}

/// The steps that copy `path` from `source` to the other side: the
/// directory that will hold the copy is made first.
pub open spec fn steps_for(source: Side, path: Seq<char>, separator: char) -> Seq<Step> {
    match parent_of(path, separator) {
        Some(directory) => seq![
            Step::CreateDirectories { side: source.other(), path: directory },
            Step::CopyFile { from: source, path },
        ],
        None => seq![Step::CopyFile { from: source, path }],
    }
}

/// The steps for the files of one side, in the order of `own`.
pub open spec fn pass(
    source: Side,
    own: Seq<FileRecord>,
    other: Map<Seq<char>, FileRecord>,
    separator: char,
) -> Seq<Step>
    decreases own.len(),
{
    if own.len() == 0 {
        Seq::empty()
    } else {
        let before = pass(source, own.drop_last(), other, separator);
        if copies(source, own.last(), other) {
            before + steps_for(source, own.last().path, separator)
        } else {
            before
        }
    }
}

/// The whole plan for two scans: what goes from the first tree to the
/// second, then what goes from the second to the first.
pub open spec fn planned(first: Seq<FileRecord>, second: Seq<FileRecord>, separator: char) -> Seq<
    Step,
> {
    pass(Side::First, first, map_of(second), separator) + pass(
        Side::Second,
        second,
        map_of(first),
        separator,
    )
}

/// A record, where there is one, as a mathematical value.
pub open spec fn record_of(metadata: Option<&FileMetadata>) -> Option<FileRecord> {
    match metadata {
        Some(m) => Some(m@),
        None => None,
    }
}

/// Applies the reconciliation rule to what the two sides hold under one
/// path.
pub fn decide(first: Option<&FileMetadata>, second: Option<&FileMetadata>) -> (side: Option<Side>)
    ensures
        side == winner(record_of(first), record_of(second)),
{
    match (first, second) {
        (None, None) => None,
        (Some(_), None) => Some(Side::First),
        (None, Some(_)) => Some(Side::Second),
        (Some(a), Some(b)) => {
            if a.modified_time.is_after(b.modified_time) {
                Some(Side::First)
            } else if b.modified_time.is_after(a.modified_time) {
                Some(Side::Second)
            } else if a.size > b.size {
                Some(Side::First)
            } else if b.size > a.size {
                Some(Side::Second)
            } else {
                None
            }
        },
    }
}

/// Adds to `plan` the operations for the files that `source` holds and the
/// other side is to receive.
fn plan_pass(
    source: Side,
    own: &TreeView,
    other: &TreeView,
    separator: char,
    plan: &mut Vec<Operation>,
)
    ensures
        steps_of(final(plan)@) == steps_of(old(plan)@) + pass(
            source,
            own.records(),
            other@,
            separator,
        ),
{
    let entries = own.entries();
    let mut i: usize = 0;
    assert(steps_of(plan@) =~= steps_of(old(plan)@) + Seq::<Step>::empty());
    while i < entries.len()
        invariant
            i <= entries.len(),
            records_of(entries@) == own.records(),
            steps_of(plan@) == steps_of(old(plan)@) + pass(
                source,
                own.records().take(i as int),
                other@,
                separator,
            ),
        decreases entries.len() - i,
    {
        let metadata = &entries[i];
        let counterpart = other.get(metadata.path.as_str());
        let side = match source {
            Side::First => decide(Some(metadata), counterpart),
            Side::Second => decide(counterpart, Some(metadata)),
        };
        let ghost before = steps_of(plan@);
        proof {
            assert(own.records().take(i + 1).drop_last() =~= own.records().take(i as int));
            assert(own.records().take(i + 1).last() == metadata@);
            assert(record_of(counterpart) == lookup(other@, metadata@.path));
        }
        if side == Some(source) {
            match parent(metadata.path.as_str(), separator) {
                Some(directory) => {
                    plan.push(
                        Operation::CreateDirectories { side: source.opposite(), path: directory },
                    );
                },
                None => {},
            }
            plan.push(Operation::CopyFile { from: source, path: metadata.path.clone() });
            assert(steps_of(plan@) =~= before + steps_for(source, metadata@.path, separator));
        }
        i += 1;
    }
    assert(own.records().take(i as int) =~= own.records());
}

/// Plans the copies that bring two scanned trees together. Nothing is ever
/// deleted, and a path that both sides hold with the same time and size is
/// left alone.
pub fn reconcile(first: &TreeView, second: &TreeView, separator: char) -> (plan: Vec<Operation>)
    ensures
        steps_of(plan@) == planned(first.records(), second.records(), separator),
{
    let mut plan: Vec<Operation> = Vec::new();
    assert(steps_of(plan@) =~= Seq::<Step>::empty());
    plan_pass(Side::First, first, second, separator, &mut plan);
    plan_pass(Side::Second, second, first, separator, &mut plan);
    plan
}

} // verus!
