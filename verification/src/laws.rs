//! What holds of every run, stated over the two trees before it and after
//! it.

use crate::metadata::FileRecord;
use crate::model::{
    agree, receives_below, reconciled, record_at, run, scan_of, scans, sound, verdict, Tree, Trees,
};
use crate::outcome::{
    lemma_idle_pass, lemma_pass_copies_once, lemma_pass_copies_sent, lemma_plan_reconciles,
    lemma_scan_lists, lemma_sent_is_copied, lemma_sent_is_verdict,
};
use crate::path::{is_ancestor, lemma_ancestor_chain};
use crate::plan::{copies, pass, planned, Side, Step};
use crate::scan::DirEntry;
use crate::sync::{
    all_below, collected, is_file_at, is_last_file_at, lemma_collected_files, record_for,
};
use crate::tree::map_of;
use vstd::prelude::*;

verus! {


/// `entries` are what a walk below the root `base` finds of `tree`: every
/// regular file of the tree, as the tree holds it, and no file that is not
/// in the tree.
pub open spec fn reflects(
    base: Seq<char>,
    entries: Seq<DirEntry>,
    tree: Tree,
    separator: char,
) -> bool {
    &&& all_below(base, entries, separator)
    &&& forall|path: Seq<char>| #[trigger]
        tree.files.contains_key(path) ==> exists|at: int|
            0 <= at < entries.len() && is_file_at(base, #[trigger] entries[at], separator, path)
    &&& forall|at: int, path: Seq<char>|
        0 <= at < entries.len() && is_file_at(base, #[trigger] entries[at], separator, path) ==> {
            &&& #[trigger] tree.files.contains_key(path)
            &&& record_for(entries[at], path) == record_at(tree, path)
        }
}

/// Collecting what a walk found of a tree gives a scan of that tree.
pub proof fn lemma_collected_scans(
    base: Seq<char>,
    entries: Seq<DirEntry>,
    tree: Tree,
    separator: char,
)
    requires
        reflects(base, entries, tree, separator),
    ensures
        scans(collected(base, entries, Seq::empty(), separator), tree),
{
    let view = collected(base, entries, Seq::empty(), separator);
    lemma_collected_files(base, entries, separator, Seq::empty());
    assert forall|path: Seq<char>|
        #![trigger map_of(view).contains_key(path)]
        #![trigger scan_of(tree).contains_key(path)]
        map_of(view).contains_key(path) == scan_of(tree).contains_key(path) && (map_of(
            view,
        ).contains_key(path) ==> map_of(view)[path] == scan_of(tree)[path]) by {
        lemma_collected_files(base, entries, separator, path);
        if map_of(view).contains_key(path) {
            let at = choose|at: int|
                #![trigger entries[at]]
                is_last_file_at(base, entries, separator, path, at) && map_of(view)[path]
                    == record_for(entries[at], path);
            assert(tree.files.contains_key(path));
        }
        if scan_of(tree).contains_key(path) {
            assert(tree.files.contains_key(path));
        }
    }
    assert(map_of(view) =~= scan_of(tree));
}

/// The plan that is made from what two walks found leaves both trees as the
/// reconciliation rule wants them.
pub proof fn lemma_sync_reconciles(
    trees: Trees,
    dir1: Seq<char>,
    entries1: Seq<DirEntry>,
    dir2: Seq<char>,
    entries2: Seq<DirEntry>,
    separator: char,
)
    requires
        reflects(dir1, entries1, trees.first, separator),
        reflects(dir2, entries2, trees.second, separator),
    ensures
        ({
            let plan = planned(
                collected(dir1, entries1, Seq::empty(), separator),
                collected(dir2, entries2, Seq::empty(), separator),
                separator,
            );
            run(trees, plan, separator) == reconciled(trees, separator)
        }),
{
    lemma_collected_scans(dir1, entries1, trees.first, separator);
    lemma_collected_scans(dir2, entries2, trees.second, separator);
    lemma_plan_reconciles(
        trees,
        collected(dir1, entries1, Seq::empty(), separator),
        collected(dir2, entries2, Seq::empty(), separator),
        separator,
    );
}

/// The order in which the scans list the files changes the order of the
/// steps at most, never what the run leaves behind.
pub proof fn lemma_order_makes_no_difference(
    trees: Trees,
    first: Seq<FileRecord>,
    second: Seq<FileRecord>,
    first_reordered: Seq<FileRecord>,
    second_reordered: Seq<FileRecord>,
    separator: char,
)
    requires
        scans(first, trees.first),
        scans(second, trees.second),
        scans(first_reordered, trees.first),
        scans(second_reordered, trees.second),
    ensures
        run(trees, planned(first, second, separator), separator) == run(
            trees,
            planned(first_reordered, second_reordered, separator),
            separator,
        ),
{
    lemma_plan_reconciles(trees, first, second, separator);
    lemma_plan_reconciles(trees, first_reordered, second_reordered, separator);
}

/// After a run each tree holds every path that either tree held before it,
/// and no other.
pub proof fn lemma_union_on_both_sides(
    trees: Trees,
    first: Seq<FileRecord>,
    second: Seq<FileRecord>,
    separator: char,
)
    requires
        scans(first, trees.first),
        scans(second, trees.second),
    ensures
        ({
            let after = run(trees, planned(first, second, separator), separator);
            let either = trees.first.files.dom().union(trees.second.files.dom());
            after.first.files.dom() == either && after.second.files.dom() == either
        }),
{
    lemma_plan_reconciles(trees, first, second, separator);
    let after = reconciled(trees, separator);
    let either = trees.first.files.dom().union(trees.second.files.dom());
    assert(after.first.files.dom() =~= either);
    assert(after.second.files.dom() =~= either);
}

/// A run deletes nothing: a path that was in a tree before the run is in
/// both trees after it.
pub proof fn lemma_no_path_lost(
    trees: Trees,
    first: Seq<FileRecord>,
    second: Seq<FileRecord>,
    separator: char,
    path: Seq<char>,
)
    requires
        scans(first, trees.first),
        scans(second, trees.second),
        trees.first.files.contains_key(path) || trees.second.files.contains_key(path),
    ensures
        run(trees, planned(first, second, separator), separator).first.files.contains_key(path),
        run(trees, planned(first, second, separator), separator).second.files.contains_key(path),
{
    lemma_plan_reconciles(trees, first, second, separator);
}

/// Where both trees hold a path with different modification times, both
/// hold the content of the later one after the run.
pub proof fn lemma_newer_wins(
    trees: Trees,
    first: Seq<FileRecord>,
    second: Seq<FileRecord>,
    separator: char,
    path: Seq<char>,
)
    requires
        scans(first, trees.first),
        scans(second, trees.second),
        trees.first.files.contains_key(path),
        trees.second.files.contains_key(path),
        trees.first.files[path].modified_time != trees.second.files[path].modified_time,
    ensures
        ({
            let after = run(trees, planned(first, second, separator), separator);
            let newer = if trees.first.files[path].modified_time.nanos
                > trees.second.files[path].modified_time.nanos {
                trees.first.files[path]
            } else {
                trees.second.files[path]
            };
            after.first.files[path].content == newer.content && after.second.files[path].content
                == newer.content
        }),
{
    lemma_plan_reconciles(trees, first, second, separator);
}

/// Where both trees hold a path with the same modification time and size,
/// the run leaves both files as they were, modification time included.
pub proof fn lemma_equal_files_untouched(
    trees: Trees,
    first: Seq<FileRecord>,
    second: Seq<FileRecord>,
    separator: char,
    path: Seq<char>,
)
    requires
        scans(first, trees.first),
        scans(second, trees.second),
        trees.first.files.contains_key(path),
        trees.second.files.contains_key(path),
        record_at(trees.first, path) == record_at(trees.second, path),
    ensures
        ({
            let after = run(trees, planned(first, second, separator), separator);
            after.first.files[path] == trees.first.files[path] && after.second.files[path]
                == trees.second.files[path]
        }),
{
    lemma_plan_reconciles(trees, first, second, separator);
}

/// For every file that the plan copies, all directories above the copy
/// exist after the run.
pub proof fn lemma_directories_above_copies(
    trees: Trees,
    first: Seq<FileRecord>,
    second: Seq<FileRecord>,
    separator: char,
    at: int,
    directory: Seq<char>,
)
    requires
        scans(first, trees.first),
        scans(second, trees.second),
        0 <= at < planned(first, second, separator).len(),
        planned(first, second, separator)[at] is CopyFile,
        is_ancestor(directory, planned(first, second, separator)[at]->CopyFile_path, separator),
    ensures
        ({
            let after = run(trees, planned(first, second, separator), separator);
            let target = planned(first, second, separator)[at]->from.other();
            after.side(target).directories.contains(directory)
        }),
{
    lemma_plan_reconciles(trees, first, second, separator);
    let step = planned(first, second, separator)[at];
    let forth = pass(Side::First, first, map_of(second), separator);
    let back = pass(Side::Second, second, map_of(first), separator);
    if at < forth.len() {
        assert(step == forth[at]);
        lemma_pass_copies_sent(Side::First, first, map_of(second), separator, at);
        lemma_sent_is_verdict(trees, first, second, step->CopyFile_path);
    } else {
        assert(step == back[at - forth.len()]);
        lemma_pass_copies_sent(Side::Second, second, map_of(first), separator, at - forth.len());
        lemma_sent_is_verdict(trees, first, second, step->CopyFile_path);
    }
}

/// Trees that a filesystem can hold, and that do not clash, are such trees
/// after the run too: what lies above a file is a directory, and nothing is
/// a file and a directory at once, on one side or across the two.
pub proof fn lemma_run_keeps_trees_sound(
    trees: Trees,
    first: Seq<FileRecord>,
    second: Seq<FileRecord>,
    separator: char,
)
    requires
        scans(first, trees.first),
        scans(second, trees.second),
        sound(trees.first, separator),
        sound(trees.second, separator),
        agree(trees),
    ensures
        sound(run(trees, planned(first, second, separator), separator).first, separator),
        sound(run(trees, planned(first, second, separator), separator).second, separator),
        agree(run(trees, planned(first, second, separator), separator)),
{
    lemma_plan_reconciles(trees, first, second, separator);
    let after = reconciled(trees, separator);
    assert forall|side: Side| #![trigger after.side(side)] sound(after.side(side), separator) by {
        let own = trees.side(side);
        let other = trees.side(side.other());
        let now = after.side(side);
        assert forall|d: Seq<char>| #[trigger] now.directories.contains(d) implies (
        own.directories.contains(d) || other.directories.contains(d)) by {
            if receives_below(trees, side, d, separator) {
                let path = choose|path: Seq<char>| #[trigger]
                    verdict(trees, path) == Some(side.other()) && is_ancestor(d, path, separator);
                assert(other.files.contains_key(path));
            }
        }
        assert forall|path: Seq<char>|
            !(#[trigger] now.files.contains_key(path) && now.directories.contains(path)) by {
            assert(!(trees.side(side).files.contains_key(path) && trees.side(
                side.other(),
            ).directories.contains(path)));
            assert(!(trees.side(side.other()).files.contains_key(path) && trees.side(
                side.other().other(),
            ).directories.contains(path)));
        }
        assert forall|d: Seq<char>, path: Seq<char>|
            #[trigger] is_ancestor(d, path, separator) && (now.files.contains_key(path)
                || now.directories.contains(path)) implies now.directories.contains(d) by {
            if own.files.contains_key(path) || own.directories.contains(path) {
            } else if now.files.contains_key(path) {
                assert(verdict(trees, path) == Some(side.other()));
            } else {
                let below = choose|below: Seq<char>| #[trigger]
                    verdict(trees, below) == Some(side.other()) && is_ancestor(
                        path,
                        below,
                        separator,
                    );
                lemma_ancestor_chain(d, path, below, separator);
            }
        }
    }
    assert(sound(after.side(Side::First), separator));
    assert(sound(after.side(Side::Second), separator));
    assert forall|side: Side, path: Seq<char>|
        !(#[trigger] after.side(side).files.contains_key(path) && after.side(
            side.other(),
        ).directories.contains(path)) by {
        let own = trees.side(side);
        let other = trees.side(side.other());
        if after.side(side.other()).directories.contains(path) && !other.directories.contains(
            path,
        ) {
            let below = choose|below: Seq<char>| #[trigger]
                verdict(trees, below) == Some(side.other().other()) && is_ancestor(
                    path,
                    below,
                    separator,
                );
            assert(own.files.contains_key(below));
            assert(own.directories.contains(path));
        }
        assert(!(trees.side(side).files.contains_key(path) && trees.side(
            side.other(),
        ).directories.contains(path)));
        assert(!(trees.side(side.other()).files.contains_key(path) && trees.side(
            side.other().other(),
        ).directories.contains(path)));
    }
}

/// The plan copies only what the rule awards: every copy is of a path whose
/// winning version is on the side the copy leaves.
pub proof fn lemma_every_copy_is_awarded(
    trees: Trees,
    first: Seq<FileRecord>,
    second: Seq<FileRecord>,
    separator: char,
    at: int,
)
    requires
        scans(first, trees.first),
        scans(second, trees.second),
        0 <= at < planned(first, second, separator).len(),
        planned(first, second, separator)[at] is CopyFile,
    ensures
        verdict(trees, planned(first, second, separator)[at]->CopyFile_path) == Some(
            planned(first, second, separator)[at]->from,
        ),
{
    let step = planned(first, second, separator)[at];
    let forth = pass(Side::First, first, map_of(second), separator);
    let back = pass(Side::Second, second, map_of(first), separator);
    if at < forth.len() {
        assert(step == forth[at]);
        lemma_pass_copies_sent(Side::First, first, map_of(second), separator, at);
    } else {
        assert(step == back[at - forth.len()]);
        lemma_pass_copies_sent(Side::Second, second, map_of(first), separator, at - forth.len());
    }
    lemma_sent_is_verdict(trees, first, second, step->CopyFile_path);
}

/// The plan copies all that the rule awards: a path with a winning version
/// has its copy in the plan.
pub proof fn lemma_every_award_is_copied(
    trees: Trees,
    first: Seq<FileRecord>,
    second: Seq<FileRecord>,
    separator: char,
    path: Seq<char>,
)
    requires
        scans(first, trees.first),
        scans(second, trees.second),
        verdict(trees, path) is Some,
    ensures
        exists|at: int|
            0 <= at < planned(first, second, separator).len() && #[trigger] planned(
                first,
                second,
                separator,
            )[at] == (Step::CopyFile { from: verdict(trees, path).unwrap(), path }),
{
    let forth = pass(Side::First, first, map_of(second), separator);
    let back = pass(Side::Second, second, map_of(first), separator);
    let plan = planned(first, second, separator);
    lemma_sent_is_verdict(trees, first, second, path);
    if verdict(trees, path) == Some(Side::First) {
        lemma_sent_is_copied(Side::First, first, map_of(second), separator, path);
        let at = choose|at: int|
            0 <= at < forth.len() && #[trigger] forth[at] == (Step::CopyFile {
                from: Side::First,
                path,
            });
        assert(plan[at] == forth[at]);
    } else {
        lemma_sent_is_copied(Side::Second, second, map_of(first), separator, path);
        let at = choose|at: int|
            0 <= at < back.len() && #[trigger] back[at] == (Step::CopyFile {
                from: Side::Second,
                path,
            });
        assert(plan[forth.len() + at] == back[at]);
    }
}

/// The plan copies no path twice, in either direction.
pub proof fn lemma_one_copy_per_path(
    trees: Trees,
    first: Seq<FileRecord>,
    second: Seq<FileRecord>,
    separator: char,
    at: int,
    again: int,
)
    requires
        scans(first, trees.first),
        scans(second, trees.second),
        0 <= at < again < planned(first, second, separator).len(),
        planned(first, second, separator)[at] is CopyFile,
        planned(first, second, separator)[again] is CopyFile,
    ensures
        planned(first, second, separator)[at]->CopyFile_path != planned(
            first,
            second,
            separator,
        )[again]->CopyFile_path,
{
    let forth = pass(Side::First, first, map_of(second), separator);
    let back = pass(Side::Second, second, map_of(first), separator);
    let plan = planned(first, second, separator);
    if again < forth.len() {
        assert(plan[at] == forth[at] && plan[again] == forth[again]);
        lemma_pass_copies_once(Side::First, first, map_of(second), separator, at, again);
    } else if at >= forth.len() {
        assert(plan[at] == back[at - forth.len()] && plan[again] == back[again - forth.len()]);
        lemma_pass_copies_once(
            Side::Second,
            second,
            map_of(first),
            separator,
            at - forth.len(),
            again - forth.len(),
        );
    } else {
        lemma_every_copy_is_awarded(trees, first, second, separator, at);
        lemma_every_copy_is_awarded(trees, first, second, separator, again);
        assert(plan[at] == forth[at]);
        assert(plan[again] == back[again - forth.len()]);
        lemma_pass_copies_sent(Side::First, first, map_of(second), separator, at);
        lemma_pass_copies_sent(
            Side::Second,
            second,
            map_of(first),
            separator,
            again - forth.len(),
        );
    }
}

/// Every file of `now` is whole: it is the file its tree began with, or the
/// winning version from the other tree; and no file of the beginning is
/// gone.
spec fn partly_merged(trees: Trees, now: Trees) -> bool {
    forall|side: Side, path: Seq<char>|
        #![trigger now.side(side).files.contains_key(path)]
        {
            &&& trees.side(side).files.contains_key(path) ==> now.side(side).files.contains_key(
                path,
            )
            &&& now.side(side).files.contains_key(path) ==> {
                ||| trees.side(side).files.contains_key(path) && now.side(side).files[path]
                    == trees.side(side).files[path]
                ||| verdict(trees, path) == Some(side.other()) && now.side(side).files[path]
                    == trees.side(side.other()).files[path]
            }
        }
}

/// Every step of a plan keeps the trees partly merged.
proof fn lemma_partly_merged(
    trees: Trees,
    first: Seq<FileRecord>,
    second: Seq<FileRecord>,
    separator: char,
    done: int,
)
    requires
        scans(first, trees.first),
        scans(second, trees.second),
        0 <= done <= planned(first, second, separator).len(),
    ensures
        partly_merged(trees, run(trees, planned(first, second, separator).take(done), separator)),
    decreases done,
{
    let plan = planned(first, second, separator);
    if done > 0 {
        lemma_partly_merged(trees, first, second, separator, done - 1);
        assert(plan.take(done).drop_last() =~= plan.take(done - 1));
        let before = run(trees, plan.take(done - 1), separator);
        let step = plan[done - 1];
        assert(plan.take(done).last() == step);
        let now = run(trees, plan.take(done), separator);
        match step {
            Step::CopyFile { from, path } => {
                lemma_every_copy_is_awarded(trees, first, second, separator, done - 1);
                assert(before.side(from).files.contains_key(path));
                assert forall|side: Side, other_path: Seq<char>|
                    #![trigger now.side(side).files.contains_key(other_path)]
                    {
                        &&& trees.side(side).files.contains_key(other_path) ==> now.side(
                            side,
                        ).files.contains_key(other_path)
                        &&& now.side(side).files.contains_key(other_path) ==> {
                            ||| trees.side(side).files.contains_key(other_path) && now.side(
                                side,
                            ).files[other_path] == trees.side(side).files[other_path]
                            ||| verdict(trees, other_path) == Some(side.other()) && now.side(
                                side,
                            ).files[other_path] == trees.side(side.other()).files[other_path]
                        }
                    } by {}
            },
            Step::CreateDirectories { side, path } => {
                assert forall|any: Side, other_path: Seq<char>|
                    #![trigger now.side(any).files.contains_key(other_path)]
                    now.side(any).files.contains_key(other_path) == before.side(
                        any,
                    ).files.contains_key(other_path) && now.side(any).files == before.side(
                        any,
                    ).files by {}
            },
        }
    }
}

/// A run that stops early leaves no torn state behind: whatever part of the
/// plan was carried out, nothing is gone, and every file is either the one
/// its tree began with or the version that the finished run would leave
/// there.
pub proof fn lemma_stopped_run_is_part_of_the_merge(
    trees: Trees,
    first: Seq<FileRecord>,
    second: Seq<FileRecord>,
    separator: char,
    done: int,
    side: Side,
    path: Seq<char>,
)
    requires
        scans(first, trees.first),
        scans(second, trees.second),
        0 <= done <= planned(first, second, separator).len(),
    ensures
        ({
            let now = run(trees, planned(first, second, separator).take(done), separator).side(
                side,
            ).files;
            let begun = trees.side(side).files;
            let wanted = reconciled(trees, separator).side(side).files;
            &&& begun.contains_key(path) ==> now.contains_key(path)
            &&& now.contains_key(path) ==> wanted.contains_key(path) && (now[path] == wanted[path]
                || (begun.contains_key(path) && now[path] == begun[path]))
        }),
{
    lemma_partly_merged(trees, first, second, separator, done);
}

/// Swapping the two trees swaps the outcome: each tree ends with the same
/// files, contents and directories whichever of the two is named first.
pub proof fn lemma_symmetric(
    trees: Trees,
    first: Seq<FileRecord>,
    second: Seq<FileRecord>,
    separator: char,
)
    requires
        scans(first, trees.first),
        scans(second, trees.second),
    ensures
        run(trees.swapped(), planned(second, first, separator), separator) == run(
            trees,
            planned(first, second, separator),
            separator,
        ).swapped(),
{
    lemma_plan_reconciles(trees, first, second, separator);
    lemma_plan_reconciles(trees.swapped(), second, first, separator);
    let one = reconciled(trees, separator).swapped();
    let other = reconciled(trees.swapped(), separator);
    assert forall|path: Seq<char>|
        #![trigger verdict(trees, path)]
        #![trigger verdict(trees.swapped(), path)]
        verdict(trees.swapped(), path) == match verdict(trees, path) {
            Some(side) => Some(side.other()),
            None => None,
        } by {}
    assert forall|d: Seq<char>, side: Side|
        #![trigger receives_below(trees, side, d, separator)]
        #![trigger receives_below(trees.swapped(), side.other(), d, separator)]
        receives_below(trees.swapped(), side.other(), d, separator) == receives_below(
            trees,
            side,
            d,
            separator,
        ) by {
        if receives_below(trees.swapped(), side.other(), d, separator) {
            let path = choose|path: Seq<char>| #[trigger]
                verdict(trees.swapped(), path) == Some(side) && is_ancestor(d, path, separator);
            assert(verdict(trees, path) == Some(side.other()));
        }
        if receives_below(trees, side, d, separator) {
            let path = choose|path: Seq<char>| #[trigger]
                verdict(trees, path) == Some(side.other()) && is_ancestor(d, path, separator);
            assert(verdict(trees.swapped(), path) == Some(side));
        }
    }
    assert(one.first.files =~= other.first.files);
    assert(one.second.files =~= other.second.files);
    assert(one.first.directories =~= other.first.directories) by {
        assert forall|d: Seq<char>|
            one.first.directories.contains(d) == other.first.directories.contains(d) by {
            assert(receives_below(trees.swapped(), Side::Second.other(), d, separator)
                == receives_below(trees, Side::Second, d, separator));
        }
    }
    assert(one.second.directories =~= other.second.directories) by {
        assert forall|d: Seq<char>|
            one.second.directories.contains(d) == other.second.directories.contains(d) by {
            assert(receives_below(trees.swapped(), Side::First.other(), d, separator)
                == receives_below(trees, Side::First, d, separator));
        }
    }
    assert(one =~= other);
}

/// A second run straight after a first one has nothing to do: the plan for
/// the trees that a run left is empty.
pub proof fn lemma_second_run_copies_nothing(
    trees: Trees,
    first: Seq<FileRecord>,
    second: Seq<FileRecord>,
    separator: char,
    first_again: Seq<FileRecord>,
    second_again: Seq<FileRecord>,
)
    requires
        scans(first, trees.first),
        scans(second, trees.second),
        scans(first_again, run(trees, planned(first, second, separator), separator).first),
        scans(second_again, run(trees, planned(first, second, separator), separator).second),
    ensures
        planned(first_again, second_again, separator) == Seq::<Step>::empty(),
{
    lemma_plan_reconciles(trees, first, second, separator);
    let after = reconciled(trees, separator);
    assert forall|path: Seq<char>| #[trigger] verdict(after, path) is None by {}
    lemma_scan_lists(first_again, after, Side::First);
    lemma_scan_lists(second_again, after, Side::Second);
    assert forall|i: int| 0 <= i < first_again.len() implies !copies(
        Side::First,
        #[trigger] first_again[i],
        map_of(second_again),
    ) by {
        assert(verdict(after, first_again[i].path) is None);
    }
    assert forall|i: int| 0 <= i < second_again.len() implies !copies(
        Side::Second,
        #[trigger] second_again[i],
        map_of(first_again),
    ) by {
        assert(verdict(after, second_again[i].path) is None);
    }
    lemma_idle_pass(Side::First, first_again, map_of(second_again), separator);
    lemma_idle_pass(Side::Second, second_again, map_of(first_again), separator);
}

} // verus!
