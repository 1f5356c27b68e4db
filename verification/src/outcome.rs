//! Why a plan does what the reconciliation rule asks: the effect of each
//! pass on the two trees, step by step.

use crate::metadata::FileRecord;
use crate::model::{
    agree, apply, can_apply, ready, reconciled, receives_below, record_at, run, scan_of, scans,
    sound, verdict, Tree, Trees,
};
use crate::path::{is_ancestor, lemma_ancestor_chain, lemma_parent_is_nearest, parent_of};
use crate::plan::{copies, pass, planned, steps_for, Side, Step};
use crate::tree::{distinct_paths, has_path, index_of, lemma_map_of_holds, map_of};
use vstd::prelude::*;

verus! {

/// One more step at the end is carried out on what the steps before left.
pub proof fn lemma_run_push(trees: Trees, steps: Seq<Step>, step: Step, separator: char)
    ensures
        run(trees, steps.push(step), separator) == apply(
            run(trees, steps, separator),
            step,
            separator,
        ),
        ready(trees, steps.push(step), separator) == (ready(trees, steps, separator) && can_apply(
            run(trees, steps, separator),
            step,
            separator,
        )),
{
    assert(steps.push(step).drop_last() =~= steps);
}

/// Whether the pass over `own` copies the file at `path`.
pub open spec fn sent(
    source: Side,
    own: Seq<FileRecord>,
    other: Map<Seq<char>, FileRecord>,
    path: Seq<char>,
) -> bool {
    exists|i: int|
        0 <= i < own.len() && (#[trigger] own[i]).path == path && copies(source, own[i], other)
}

/// Whether the pass over `own` copies a file at or below `directory`.
pub open spec fn sent_below(
    source: Side,
    own: Seq<FileRecord>,
    other: Map<Seq<char>, FileRecord>,
    directory: Seq<char>,
    separator: char,
) -> bool {
    exists|i: int|
        0 <= i < own.len() && copies(source, #[trigger] own[i], other) && is_ancestor(
            directory,
            own[i].path,
            separator,
        )
}

/// The trees after the pass over `own`, the files that `source` holds.
pub open spec fn after_pass(
    trees: Trees,
    source: Side,
    own: Seq<FileRecord>,
    other: Map<Seq<char>, FileRecord>,
    separator: char,
) -> Trees {
    let from = trees.side(source);
    let to = trees.side(source.other());
    trees.with_side(
        source.other(),
        Tree {
            files: Map::new(
                |path: Seq<char>| to.files.contains_key(path) || sent(source, own, other, path),
                |path: Seq<char>|
                    if sent(source, own, other, path) {
                        from.files[path]
                    } else {
                        to.files[path]
                    },
            ),
            directories: Set::new(
                |d: Seq<char>|
                    to.directories.contains(d) || sent_below(source, own, other, d, separator),
            ),
        },
    )
}

/// A pass leaves the receiving tree with every file it sent and the
/// directories above them.
pub proof fn lemma_pass(
    trees: Trees,
    source: Side,
    own: Seq<FileRecord>,
    other: Map<Seq<char>, FileRecord>,
    separator: char,
)
    requires
        forall|i: int|
            0 <= i < own.len() ==> trees.side(source).files.contains_key((#[trigger] own[i]).path),
    ensures
        run(trees, pass(source, own, other, separator), separator) == after_pass(
            trees,
            source,
            own,
            other,
            separator,
        ),
    decreases own.len(),
{
    let target = source.other();
    let after = after_pass(trees, source, own, other, separator);
    if own.len() == 0 {
        assert(after.side(target).files =~= trees.side(target).files);
        assert(after.side(target).directories =~= trees.side(target).directories);
        assert(after =~= trees);
    } else {
        let earlier = own.drop_last();
        let last = own.last();
        assert forall|i: int| 0 <= i < earlier.len() implies trees.side(source).files.contains_key(
            (#[trigger] earlier[i]).path,
        ) by {
            assert(earlier[i] == own[i]);
        }
        lemma_pass(trees, source, earlier, other, separator);
        let steps = pass(source, earlier, other, separator);
        let middle = after_pass(trees, source, earlier, other, separator);
        assert forall|path: Seq<char>|
            #![trigger sent(source, own, other, path)]
            sent(source, own, other, path) == (sent(source, earlier, other, path) || (last.path
                == path && copies(source, last, other))) by {
            if sent(source, earlier, other, path) {
                let i = choose|i: int|
                    0 <= i < earlier.len() && (#[trigger] earlier[i]).path == path && copies(
                        source,
                        earlier[i],
                        other,
                    );
                assert(own[i] == earlier[i]);
            }
            if last.path == path && copies(source, last, other) {
                assert(own[own.len() - 1] == last);
            }
            if sent(source, own, other, path) {
                let i = choose|i: int|
                    0 <= i < own.len() && (#[trigger] own[i]).path == path && copies(
                        source,
                        own[i],
                        other,
                    );
                if i < earlier.len() {
                    assert(earlier[i] == own[i]);
                }
            }
        }
        assert forall|d: Seq<char>|
            #![trigger sent_below(source, own, other, d, separator)]
            sent_below(source, own, other, d, separator) == (sent_below(
                source,
                earlier,
                other,
                d,
                separator,
            ) || (copies(source, last, other) && is_ancestor(d, last.path, separator))) by {
            if sent_below(source, earlier, other, d, separator) {
                let i = choose|i: int|
                    0 <= i < earlier.len() && copies(source, #[trigger] earlier[i], other)
                        && is_ancestor(d, earlier[i].path, separator);
                assert(own[i] == earlier[i]);
            }
            if copies(source, last, other) && is_ancestor(d, last.path, separator) {
                assert(own[own.len() - 1] == last);
            }
            if sent_below(source, own, other, d, separator) {
                let i = choose|i: int|
                    0 <= i < own.len() && copies(source, #[trigger] own[i], other) && is_ancestor(
                        d,
                        own[i].path,
                        separator,
                    );
                if i < earlier.len() {
                    assert(earlier[i] == own[i]);
                }
            }
        }
        if copies(source, last, other) {
            let copy = Step::CopyFile { from: source, path: last.path };
            lemma_parent_is_nearest(last.path, separator);
            assert(trees.side(source).files.contains_key(own[own.len() - 1].path));
            assert(middle.side(source) == trees.side(source));
            match parent_of(last.path, separator) {
                Some(directory) => {
                    let create = Step::CreateDirectories { side: target, path: directory };
                    assert(steps + steps_for(source, last.path, separator) =~= steps.push(
                        create,
                    ).push(copy));
                    lemma_run_push(trees, steps, create, separator);
                    lemma_run_push(trees, steps.push(create), copy, separator);
                    let made = apply(middle, create, separator);
                    let done = apply(made, copy, separator);
                    assert(done.side(target).files =~= after.side(target).files);
                    assert forall|d: Seq<char>|
                        (d == directory || is_ancestor(d, directory, separator)) == is_ancestor(
                            d,
                            last.path,
                            separator,
                        ) by {
                        if is_ancestor(d, directory, separator) {
                            lemma_ancestor_chain(d, directory, last.path, separator);
                        }
                    }
                    assert(done.side(target).directories =~= after.side(target).directories);
                    assert(done =~= after);
                },
                None => {
                    assert(steps + steps_for(source, last.path, separator) =~= steps.push(copy));
                    lemma_run_push(trees, steps, copy, separator);
                    let done = apply(middle, copy, separator);
                    assert(done.side(target).files =~= after.side(target).files);
                    assert(done.side(target).directories =~= after.side(target).directories);
                    assert(done =~= after);
                },
            }
        } else {
            assert(middle.side(target).files =~= after.side(target).files);
            assert(middle.side(target).directories =~= after.side(target).directories);
            assert(middle =~= after);
        }
    }
}

/// Nothing stands in the way of a pass over `own` into the tree `target`:
/// none of the files is a directory there, no directory above them is a
/// file there, and none of the files lies above another.
pub open spec fn unhindered(own: Seq<FileRecord>, target: Tree, separator: char) -> bool {
    &&& forall|i: int| 0 <= i < own.len() ==> !target.directories.contains((#[trigger] own[i]).path)
    &&& forall|i: int, d: Seq<char>|
        0 <= i < own.len() && #[trigger] is_ancestor(d, (#[trigger] own[i]).path, separator)
            ==> !target.files.contains_key(d)
    &&& forall|i: int, j: int|
        0 <= i < own.len() && 0 <= j < own.len() ==> !is_ancestor(
            (#[trigger] own[j]).path,
            (#[trigger] own[i]).path,
            separator,
        )
}

/// A pass that nothing hinders can be carried out from start to end.
pub proof fn lemma_pass_ready(
    trees: Trees,
    source: Side,
    own: Seq<FileRecord>,
    other: Map<Seq<char>, FileRecord>,
    separator: char,
)
    requires
        forall|i: int|
            0 <= i < own.len() ==> trees.side(source).files.contains_key((#[trigger] own[i]).path),
        unhindered(own, trees.side(source.other()), separator),
    ensures
        ready(trees, pass(source, own, other, separator), separator),
    decreases own.len(),
{
    let target = source.other();
    if own.len() > 0 {
        let earlier = own.drop_last();
        let last = own.last();
        assert forall|i: int| 0 <= i < earlier.len() implies #[trigger] earlier[i] == own[i] by {}
        assert(own[own.len() - 1] == last);
        lemma_pass_ready(trees, source, earlier, other, separator);
        lemma_pass(trees, source, earlier, other, separator);
        let steps = pass(source, earlier, other, separator);
        let middle = after_pass(trees, source, earlier, other, separator);
        if copies(source, last, other) {
            let copy = Step::CopyFile { from: source, path: last.path };
            lemma_parent_is_nearest(last.path, separator);
            assert(!middle.side(target).directories.contains(last.path)) by {
                if sent_below(source, earlier, other, last.path, separator) {
                    let i = choose|i: int|
                        0 <= i < earlier.len() && copies(source, #[trigger] earlier[i], other)
                            && is_ancestor(last.path, earlier[i].path, separator);
                    assert(is_ancestor(own[own.len() - 1].path, own[i].path, separator));
                }
            }
            match parent_of(last.path, separator) {
                Some(directory) => {
                    let create = Step::CreateDirectories { side: target, path: directory };
                    assert(steps + steps_for(source, last.path, separator) =~= steps.push(
                        create,
                    ).push(copy));
                    lemma_run_push(trees, steps, create, separator);
                    lemma_run_push(trees, steps.push(create), copy, separator);
                    assert forall|d: Seq<char>|
                        d == directory || is_ancestor(
                            d,
                            directory,
                            separator,
                        ) implies !middle.side(target).files.contains_key(d) by {
                        if is_ancestor(d, directory, separator) {
                            lemma_ancestor_chain(d, directory, last.path, separator);
                        }
                        assert(is_ancestor(d, own[own.len() - 1].path, separator));
                        if sent(source, earlier, other, d) {
                            let i = choose|i: int|
                                0 <= i < earlier.len() && (#[trigger] earlier[i]).path == d
                                    && copies(source, earlier[i], other);
                            assert(is_ancestor(own[i].path, own[own.len() - 1].path, separator));
                        }
                    }
                    assert(can_apply(middle, create, separator));
                    let made = apply(middle, create, separator);
                    assert(made.side(target).directories.contains(directory));
                    assert(!made.side(target).directories.contains(last.path));
                    assert(can_apply(made, copy, separator));
                },
                None => {
                    assert(steps + steps_for(source, last.path, separator) =~= steps.push(copy));
                    lemma_run_push(trees, steps, copy, separator);
                    assert(can_apply(middle, copy, separator));
                },
            }
        }
    }
}

/// Every copy of a pass leaves its own side, and is of a file that the pass
/// sends.
pub proof fn lemma_pass_copies_sent(
    source: Side,
    own: Seq<FileRecord>,
    other: Map<Seq<char>, FileRecord>,
    separator: char,
    at: int,
)
    requires
        0 <= at < pass(source, own, other, separator).len(),
        pass(source, own, other, separator)[at] is CopyFile,
    ensures
        pass(source, own, other, separator)[at]->from == source,
        sent(source, own, other, pass(source, own, other, separator)[at]->CopyFile_path),
    decreases own.len(),
{
    if own.len() > 0 {
        let earlier = own.drop_last();
        let before = pass(source, earlier, other, separator);
        if at < before.len() {
            lemma_pass_copies_sent(source, earlier, other, separator, at);
            let path = before[at]->CopyFile_path;
            let i = choose|i: int|
                0 <= i < earlier.len() && (#[trigger] earlier[i]).path == path && copies(
                    source,
                    earlier[i],
                    other,
                );
            assert(own[i] == earlier[i]);
        } else {
            assert(own[own.len() - 1] == own.last());
        }
    }
}

/// A file that a pass sends has its copy among the steps of the pass.
pub proof fn lemma_sent_is_copied(
    source: Side,
    own: Seq<FileRecord>,
    other: Map<Seq<char>, FileRecord>,
    separator: char,
    path: Seq<char>,
)
    requires
        sent(source, own, other, path),
    ensures
        exists|at: int|
            0 <= at < pass(source, own, other, separator).len() && #[trigger] pass(
                source,
                own,
                other,
                separator,
            )[at] == (Step::CopyFile { from: source, path }),
    decreases own.len(),
{
    let i = choose|i: int|
        0 <= i < own.len() && (#[trigger] own[i]).path == path && copies(source, own[i], other);
    let earlier = own.drop_last();
    let before = pass(source, earlier, other, separator);
    let steps = pass(source, own, other, separator);
    if i < earlier.len() {
        assert(earlier[i] == own[i]);
        lemma_sent_is_copied(source, earlier, other, separator, path);
        let at = choose|at: int|
            0 <= at < before.len() && #[trigger] before[at] == (Step::CopyFile {
                from: source,
                path,
            });
        assert(steps[at] == before[at]);
    } else {
        assert(own[i] == own.last());
        assert(steps[steps.len() - 1] == (Step::CopyFile { from: source, path }));
    }
}

/// A pass over distinct paths copies no path twice.
pub proof fn lemma_pass_copies_once(
    source: Side,
    own: Seq<FileRecord>,
    other: Map<Seq<char>, FileRecord>,
    separator: char,
    at: int,
    again: int,
)
    requires
        distinct_paths(own),
        0 <= at < again < pass(source, own, other, separator).len(),
        pass(source, own, other, separator)[at] is CopyFile,
        pass(source, own, other, separator)[again] is CopyFile,
    ensures
        pass(source, own, other, separator)[at]->CopyFile_path != pass(
            source,
            own,
            other,
            separator,
        )[again]->CopyFile_path,
    decreases own.len(),
{
    if own.len() > 0 {
        let earlier = own.drop_last();
        let before = pass(source, earlier, other, separator);
        assert forall|i: int, j: int| 0 <= i < j < earlier.len() implies #[trigger] earlier[i].path
            != #[trigger] earlier[j].path by {
            assert(earlier[i] == own[i] && earlier[j] == own[j]);
        }
        if again < before.len() {
            lemma_pass_copies_once(source, earlier, other, separator, at, again);
        } else if at < before.len() {
            lemma_pass_copies_sent(source, earlier, other, separator, at);
            let path = before[at]->CopyFile_path;
            let i = choose|i: int|
                0 <= i < earlier.len() && (#[trigger] earlier[i]).path == path && copies(
                    source,
                    earlier[i],
                    other,
                );
            assert(own[i].path != own[own.len() - 1].path);
        }
    }
}

/// A pass over files of which none is to be copied plans nothing.
pub proof fn lemma_idle_pass(
    source: Side,
    own: Seq<FileRecord>,
    other: Map<Seq<char>, FileRecord>,
    separator: char,
)
    requires
        forall|i: int| 0 <= i < own.len() ==> !copies(source, #[trigger] own[i], other),
    ensures
        pass(source, own, other, separator) == Seq::<Step>::empty(),
    decreases own.len(),
{
    if own.len() > 0 {
        assert forall|i: int| 0 <= i < own.drop_last().len() implies !copies(
            source,
            #[trigger] own.drop_last()[i],
            other,
        ) by {
            assert(own.drop_last()[i] == own[i]);
        }
        lemma_idle_pass(source, own.drop_last(), other, separator);
        assert(own[own.len() - 1] == own.last());
    }
}

/// Steps in a row are carried out one run after the other.
pub proof fn lemma_run_concat(trees: Trees, head: Seq<Step>, tail: Seq<Step>, separator: char)
    ensures
        run(trees, head + tail, separator) == run(run(trees, head, separator), tail, separator),
        ready(trees, head + tail, separator) == (ready(trees, head, separator) && ready(
            run(trees, head, separator),
            tail,
            separator,
        )),
    decreases tail.len(),
{
    if tail.len() == 0 {
        assert(head + tail =~= head);
    } else {
        lemma_run_concat(trees, head, tail.drop_last(), separator);
        assert((head + tail).drop_last() =~= head + tail.drop_last());
    }
}

/// A scan lists each file of the tree once, as the tree holds it.
pub proof fn lemma_scan_lists(records: Seq<FileRecord>, trees: Trees, side: Side)
    requires
        scans(records, trees.side(side)),
    ensures
        forall|i: int|
            0 <= i < records.len() ==> {
                &&& trees.side(side).files.contains_key((#[trigger] records[i]).path)
                &&& records[i] == record_at(trees.side(side), records[i].path)
            },
        forall|path: Seq<char>| #[trigger]
            trees.side(side).files.contains_key(path) ==> has_path(records, path),
{
    let tree = trees.side(side);
    assert forall|i: int| 0 <= i < records.len() implies {
        &&& tree.files.contains_key((#[trigger] records[i]).path)
        &&& records[i] == record_at(tree, records[i].path)
    } by {
        lemma_map_of_holds(records, i);
        assert(scan_of(tree).contains_key(records[i].path));
    }
    assert forall|path: Seq<char>| #[trigger] tree.files.contains_key(path) implies has_path(
        records,
        path,
    ) by {
        assert(scan_of(tree).contains_key(path));
        assert(map_of(records).contains_key(path));
    }
}

/// A pass sends exactly the files that the rule awards to its side.
pub proof fn lemma_sent_is_verdict(
    trees: Trees,
    first: Seq<FileRecord>,
    second: Seq<FileRecord>,
    path: Seq<char>,
)
    requires
        scans(first, trees.first),
        scans(second, trees.second),
    ensures
        sent(Side::First, first, map_of(second), path) == (verdict(trees, path) == Some(
            Side::First,
        )),
        sent(Side::Second, second, map_of(first), path) == (verdict(trees, path) == Some(
            Side::Second,
        )),
{
    lemma_scan_lists(first, trees, Side::First);
    lemma_scan_lists(second, trees, Side::Second);
    if verdict(trees, path) == Some(Side::First) {
        let i = index_of(first, path);
        assert(has_path(first, path));
        assert(first[i].path == path);
        assert(copies(Side::First, first[i], map_of(second)));
    }
    if verdict(trees, path) == Some(Side::Second) {
        let i = index_of(second, path);
        assert(has_path(second, path));
        assert(second[i].path == path);
        assert(copies(Side::Second, second[i], map_of(first)));
    }
}

/// A pass makes exactly the directories above the files that the rule
/// awards to its side.
pub proof fn lemma_sent_below_is_received(
    trees: Trees,
    first: Seq<FileRecord>,
    second: Seq<FileRecord>,
    directory: Seq<char>,
    separator: char,
)
    requires
        scans(first, trees.first),
        scans(second, trees.second),
    ensures
        sent_below(Side::First, first, map_of(second), directory, separator) == receives_below(
            trees,
            Side::Second,
            directory,
            separator,
        ),
        sent_below(Side::Second, second, map_of(first), directory, separator) == receives_below(
            trees,
            Side::First,
            directory,
            separator,
        ),
{
    lemma_scan_lists(first, trees, Side::First);
    lemma_scan_lists(second, trees, Side::Second);
    if sent_below(Side::First, first, map_of(second), directory, separator) {
        let i = choose|i: int|
            0 <= i < first.len() && copies(Side::First, #[trigger] first[i], map_of(second))
                && is_ancestor(directory, first[i].path, separator);
        lemma_sent_is_verdict(trees, first, second, first[i].path);
        assert(verdict(trees, first[i].path) == Some(Side::First));
    }
    if receives_below(trees, Side::Second, directory, separator) {
        let path = choose|path: Seq<char>| #[trigger]
            verdict(trees, path) == Some(Side::First) && is_ancestor(directory, path, separator);
        lemma_sent_is_verdict(trees, first, second, path);
        let i = choose|i: int|
            0 <= i < first.len() && (#[trigger] first[i]).path == path && copies(
                Side::First,
                first[i],
                map_of(second),
            );
        assert(copies(Side::First, first[i], map_of(second)) && is_ancestor(
            directory,
            first[i].path,
            separator,
        ));
    }
    if sent_below(Side::Second, second, map_of(first), directory, separator) {
        let i = choose|i: int|
            0 <= i < second.len() && copies(Side::Second, #[trigger] second[i], map_of(first))
                && is_ancestor(directory, second[i].path, separator);
        lemma_sent_is_verdict(trees, first, second, second[i].path);
        assert(verdict(trees, second[i].path) == Some(Side::Second));
    }
    if receives_below(trees, Side::First, directory, separator) {
        let path = choose|path: Seq<char>| #[trigger]
            verdict(trees, path) == Some(Side::Second) && is_ancestor(directory, path, separator);
        lemma_sent_is_verdict(trees, first, second, path);
        let i = choose|i: int|
            0 <= i < second.len() && (#[trigger] second[i]).path == path && copies(
                Side::Second,
                second[i],
                map_of(first),
            );
        assert(copies(Side::Second, second[i], map_of(first)) && is_ancestor(
            directory,
            second[i].path,
            separator,
        ));
    }
}

/// The plan for two scanned trees leaves both trees as the reconciliation
/// rule wants them. The order in which the scans list the files makes no
/// difference.
pub proof fn lemma_plan_reconciles(
    trees: Trees,
    first: Seq<FileRecord>,
    second: Seq<FileRecord>,
    separator: char,
)
    requires
        scans(first, trees.first),
        scans(second, trees.second),
    ensures
        run(trees, planned(first, second, separator), separator) == reconciled(trees, separator),
{
    let forth = pass(Side::First, first, map_of(second), separator);
    let back = pass(Side::Second, second, map_of(first), separator);
    lemma_scan_lists(first, trees, Side::First);
    lemma_scan_lists(second, trees, Side::Second);
    lemma_pass(trees, Side::First, first, map_of(second), separator);
    let middle = after_pass(trees, Side::First, first, map_of(second), separator);
    lemma_pass(middle, Side::Second, second, map_of(first), separator);
    let after = after_pass(middle, Side::Second, second, map_of(first), separator);
    lemma_run_concat(trees, forth, back, separator);
    let wanted = reconciled(trees, separator);
    assert forall|path: Seq<char>|
        #![trigger sent(Side::First, first, map_of(second), path)]
        #![trigger sent(Side::Second, second, map_of(first), path)]
        {
            &&& sent(Side::First, first, map_of(second), path) == (verdict(trees, path) == Some(
                Side::First,
            ))
            &&& sent(Side::Second, second, map_of(first), path) == (verdict(trees, path) == Some(
                Side::Second,
            ))
        } by {
        lemma_sent_is_verdict(trees, first, second, path);
    }
    assert forall|d: Seq<char>|
        #![trigger sent_below(Side::First, first, map_of(second), d, separator)]
        #![trigger sent_below(Side::Second, second, map_of(first), d, separator)]
        {
            &&& sent_below(Side::First, first, map_of(second), d, separator) == receives_below(
                trees,
                Side::Second,
                d,
                separator,
            )
            &&& sent_below(Side::Second, second, map_of(first), d, separator) == receives_below(
                trees,
                Side::First,
                d,
                separator,
            )
        } by {
        lemma_sent_below_is_received(trees, first, second, d, separator);
    }
    assert(after.first.files =~= wanted.first.files);
    assert(after.first.directories =~= wanted.first.directories);
    assert(after.second.files =~= wanted.second.files);
    assert(after.second.directories =~= wanted.second.directories);
    assert(after =~= wanted);
}

/// Where each tree is one that a filesystem can hold, and no path is a file
/// in one tree and a directory in the other, the plan can be carried out
/// from its first step to its last: every copy finds its source and the
/// directory to put it in, and nothing is in the way.
pub proof fn lemma_plan_is_ready(
    trees: Trees,
    first: Seq<FileRecord>,
    second: Seq<FileRecord>,
    separator: char,
)
    requires
        scans(first, trees.first),
        scans(second, trees.second),
        sound(trees.first, separator),
        sound(trees.second, separator),
        agree(trees),
    ensures
        ready(trees, planned(first, second, separator), separator),
{
    let forth = pass(Side::First, first, map_of(second), separator);
    let back = pass(Side::Second, second, map_of(first), separator);
    lemma_scan_lists(first, trees, Side::First);
    lemma_scan_lists(second, trees, Side::Second);
    assert(unhindered(first, trees.second, separator)) by {
        assert forall|i: int| 0 <= i < first.len() implies !trees.second.directories.contains(
            (#[trigger] first[i]).path,
        ) by {
            assert(trees.side(Side::First).files.contains_key(first[i].path));
        }
        assert forall|i: int, d: Seq<char>|
            0 <= i < first.len() && #[trigger] is_ancestor(
                d,
                (#[trigger] first[i]).path,
                separator,
            ) implies !trees.second.files.contains_key(d) by {
            assert(trees.first.directories.contains(d));
            assert(!(trees.side(Side::Second).files.contains_key(d) && trees.side(
                Side::Second.other(),
            ).directories.contains(d)));
        }
    }
    lemma_pass_ready(trees, Side::First, first, map_of(second), separator);
    lemma_pass(trees, Side::First, first, map_of(second), separator);
    let middle = after_pass(trees, Side::First, first, map_of(second), separator);
    assert(middle.first == trees.first);
    assert(unhindered(second, middle.first, separator)) by {
        assert forall|i: int| 0 <= i < second.len() implies !trees.first.directories.contains(
            (#[trigger] second[i]).path,
        ) by {
            assert(trees.side(Side::Second).files.contains_key(second[i].path));
        }
        assert forall|i: int, d: Seq<char>|
            0 <= i < second.len() && #[trigger] is_ancestor(
                d,
                (#[trigger] second[i]).path,
                separator,
            ) implies !trees.first.files.contains_key(d) by {
            assert(trees.second.directories.contains(d));
            assert(!(trees.side(Side::First).files.contains_key(d) && trees.side(
                Side::First.other(),
            ).directories.contains(d)));
        }
    }
    lemma_pass_ready(middle, Side::Second, second, map_of(first), separator);
    lemma_run_concat(trees, forth, back, separator);
}

} // verus!
