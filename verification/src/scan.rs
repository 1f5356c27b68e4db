//! Directory listings as plain values, and the order in which a tree is
//! walked.

use crate::metadata::Timestamp;
use vstd::prelude::*;

verus! {

/// What a directory entry is. A symbolic link is `Other`, whatever it points
/// to.
#[derive(Clone, Copy, Debug, PartialEq, Eq, Structural)]
pub enum EntryKind {
    File { modified_time: Timestamp, size: u64 },
    Directory,
    Other,
}

/// One entry of a directory listing. Its path is that of the listed
/// directory with the entry's own name below it.
#[derive(Debug)]
pub struct DirEntry {
    pub path: String,
    pub kind: EntryKind,
}

/// The paths of the subdirectories among `entries`, in their order.
pub open spec fn directories_among(entries: Seq<DirEntry>) -> Seq<Seq<char>>
    decreases entries.len(),
{
    if entries.len() == 0 {
        Seq::empty()
    } else {
        let before = directories_among(entries.drop_last());
        if entries.last().kind is Directory {
            before.push(entries.last().path@)
        } else {
            before
        }
    }
}

/// Where a walk stands: the directories still to be listed, of which the
/// last comes next, and every entry handed in so far, in the order it came.
pub struct WalkState {
    pub pending: Seq<Seq<char>>,
    pub found: Seq<DirEntry>,
}

/// A walk that has not listed anything yet.
pub open spec fn started(root: Seq<char>) -> WalkState {
    WalkState { pending: seq![root], found: Seq::empty() }
}

/// The walk after the directory that came next was listed as `listing`.
pub open spec fn visited(state: WalkState, listing: Seq<DirEntry>) -> WalkState {
    WalkState {
        pending: state.pending.drop_last() + directories_among(listing),
        found: state.found + listing,
    }
}

/// A depth-first walk over a directory tree that leaves the reading to its
/// caller: it names the next directory to list, takes the listing, and
/// remembers which directories are still to come and what was found.
pub struct Walk {
    pending: Vec<String>,
    found: Vec<DirEntry>,
}

impl View for Walk {
    type V = WalkState;

    closed spec fn view(&self) -> WalkState {
        WalkState {
            pending: Seq::new(self.pending@.len(), |i: int| self.pending@[i]@),
            found: self.found@,
        }
    }
}

impl Walk {
    /// Starts a walk at `root`.
    pub fn new(root: &str) -> (walk: Walk)
        ensures
            walk@ == started(root@),
    {
        let mut pending: Vec<String> = Vec::new();
        pending.push(String::from_str(root));
        let walk = Walk { pending, found: Vec::new() };
        assert(walk@.pending =~= seq![root@]);
        walk
    }

    /// The directory whose listing the walk needs next, or `None` when the
    /// whole tree has been seen. The directory named is no longer pending.
    pub fn next_directory(&mut self) -> (next: Option<String>)
        ensures
            final(self)@.found == old(self)@.found,
            match next {
                Some(directory) => {
                    &&& old(self)@.pending.len() > 0
                    &&& directory@ == old(self)@.pending.last()
                    &&& final(self)@.pending == old(self)@.pending.drop_last()
                },
                None => {
                    &&& old(self)@.pending.len() == 0
                    &&& final(self)@.pending == old(self)@.pending
                },
            },
    {
        let next = self.pending.pop();
        assert(self@.pending =~= if next is Some {
            old(self)@.pending.drop_last()
        } else {
            old(self)@.pending
        });
        next
    }

    /// Takes the listing of the directory that `next_directory` named. Its
    /// subdirectories are queued; files and everything else are only kept.
    pub fn visit(&mut self, listing: Vec<DirEntry>)
        ensures
            final(self)@.pending == old(self)@.pending + directories_among(listing@),
            final(self)@.found == old(self)@.found + listing@,
    {
        let mut listing = listing;
        let mut i: usize = 0;
        while i < listing.len()
            invariant
                i <= listing.len(),
                self@.found == old(self)@.found,
                self@.pending == old(self)@.pending + directories_among(listing@.take(i as int)),
            decreases listing.len() - i,
        {
            assert(listing@.take(i + 1).drop_last() =~= listing@.take(i as int));
            let ghost before = self@.pending;
            if let EntryKind::Directory = listing[i].kind {
                self.pending.push(listing[i].path.clone());
                assert(self@.pending =~= before.push(listing@[i as int].path@));
            }
            i += 1;
        }
        assert(listing@.take(i as int) =~= listing@);
        self.found.append(&mut listing);
    }

    /// Ends the walk and hands out everything that was found.
    pub fn into_entries(self) -> (entries: Vec<DirEntry>)
        ensures
            entries@ == self@.found,
    {
        self.found
    }
}

/// The walk from `root` after `rounds` rounds of naming a directory and
/// taking its listing, over a filesystem whose directories list as
/// `listings` says. A walk with nothing pending stays as it is.
pub open spec fn walked(
    root: Seq<char>,
    listings: Map<Seq<char>, Seq<DirEntry>>,
    rounds: nat,
) -> WalkState
    decreases rounds,
{
    if rounds == 0 {
        started(root)
    } else {
        let before = walked(root, listings, (rounds - 1) as nat);
        if before.pending.len() == 0 {
            before
        } else {
            visited(before, listings[before.pending.last()])
        }
    }
}

/// `chain` leads from its first directory down to its last: each directory
/// is listed as a subdirectory of the one before it.
pub open spec fn descends(listings: Map<Seq<char>, Seq<DirEntry>>, chain: Seq<Seq<char>>) -> bool {
    &&& chain.len() > 0
    &&& forall|k: int|
        0 <= k < chain.len() - 1 ==> directories_among(listings[chain[k]]).contains(
            #[trigger] chain[k + 1],
        )
}

/// `directory` is `from` itself or lies somewhere below it.
pub open spec fn reaches(
    listings: Map<Seq<char>, Seq<DirEntry>>,
    from: Seq<char>,
    directory: Seq<char>,
) -> bool {
    exists|chain: Seq<Seq<char>>|
        #[trigger] descends(listings, chain) && chain[0] == from && chain.last() == directory
}

/// The walk has seen the whole listing of `directory`.
pub open spec fn has_listed(
    state: WalkState,
    listings: Map<Seq<char>, Seq<DirEntry>>,
    directory: Seq<char>,
) -> bool {
    forall|i: int|
        0 <= i < listings[directory].len() ==> state.found.contains(
            #[trigger] listings[directory][i],
        )
}

/// The walk will still come to `directory`: it is pending, or lies below a
/// pending directory.
pub open spec fn will_reach(
    state: WalkState,
    listings: Map<Seq<char>, Seq<DirEntry>>,
    directory: Seq<char>,
) -> bool {
    exists|at: int|
        0 <= at < state.pending.len() && reaches(listings, #[trigger] state.pending[at], directory)
}

/// At every round, a directory at or below the root has been listed or is
/// still to come.
pub proof fn lemma_walk_loses_nothing(
    root: Seq<char>,
    listings: Map<Seq<char>, Seq<DirEntry>>,
    rounds: nat,
    directory: Seq<char>,
)
    requires
        reaches(listings, root, directory),
    ensures
        has_listed(walked(root, listings, rounds), listings, directory) || will_reach(
            walked(root, listings, rounds),
            listings,
            directory,
        ),
    decreases rounds,
{
    let now = walked(root, listings, rounds);
    if rounds == 0 {
        assert(now.pending[0] == root);
    } else {
        let before = walked(root, listings, (rounds - 1) as nat);
        lemma_walk_loses_nothing(root, listings, (rounds - 1) as nat, directory);
        if before.pending.len() > 0 {
            let next = before.pending.last();
            let queued = directories_among(listings[next]);
            if has_listed(before, listings, directory) {
                assert forall|i: int| 0 <= i < listings[directory].len() implies now.found.contains(
                    #[trigger] listings[directory][i],
                ) by {
                    let at = choose|at: int|
                        0 <= at < before.found.len() && before.found[at]
                            == listings[directory][i];
                    assert(now.found[at] == listings[directory][i]);
                }
            } else {
                let at = choose|at: int|
                    0 <= at < before.pending.len() && reaches(
                        listings,
                        #[trigger] before.pending[at],
                        directory,
                    );
                if at < before.pending.len() - 1 {
                    assert(now.pending[at] == before.pending[at]);
                } else {
                    let chain = choose|chain: Seq<Seq<char>>|
                        #[trigger] descends(listings, chain) && chain[0] == next && chain.last()
                            == directory;
                    if chain.len() == 1 {
                        assert forall|i: int|
                            0 <= i < listings[directory].len() implies now.found.contains(
                            #[trigger] listings[directory][i],
                        ) by {
                            assert(now.found[before.found.len() + i] == listings[directory][i]);
                        }
                    } else {
                        let rest = chain.skip(1);
                        assert(queued.contains(chain[0int + 1]));
                        let place = choose|place: int|
                            0 <= place < queued.len() && queued[place] == chain[1];
                        assert forall|k: int| 0 <= k < rest.len() - 1 implies directories_among(
                            listings[rest[k]],
                        ).contains(#[trigger] rest[k + 1]) by {
                            assert(rest[k] == chain[k + 1]);
                            assert(rest[k + 1] == chain[k + 1 + 1]);
                        }
                        assert(descends(listings, rest) && rest[0] == chain[1] && rest.last()
                            == directory);
                        assert(now.pending[before.pending.len() - 1 + place] == chain[1]);
                    }
                }
            }
        }
    }
}

/// A walk that has come to its end has seen every entry of every directory
/// at or below the root.
pub proof fn lemma_finished_walk_saw_all(
    root: Seq<char>,
    listings: Map<Seq<char>, Seq<DirEntry>>,
    rounds: nat,
    directory: Seq<char>,
    i: int,
)
    requires
        walked(root, listings, rounds).pending.len() == 0,
        reaches(listings, root, directory),
        0 <= i < listings[directory].len(),
    ensures
        walked(root, listings, rounds).found.contains(listings[directory][i]),
{
    lemma_walk_loses_nothing(root, listings, rounds, directory);
}

} // verus!
