//! Paths as character sequences: the prefix that a root contributes, the
//! remainder below it, and the directories above a file.

use vstd::prelude::*;

verus! {

/// Whether a name of `path` ends just before the place `at`.
pub open spec fn name_ends(path: Seq<char>, separator: char, at: int) -> bool {
    at == path.len() || (0 <= at < path.len() && path[at] == separator)
}

/// Whether a name of `path` starts at the place `at` and is `.` or `..`:
/// the names that stand for a directory itself and for the one above it.
pub open spec fn dots_at(path: Seq<char>, separator: char, at: int) -> bool {
    &&& 0 <= at < path.len()
    &&& at == 0 || path[at - 1] == separator
    &&& path[at] == '.'
    &&& {
        ||| name_ends(path, separator, at + 1)
        ||| at + 1 < path.len() && path[at + 1] == '.' && name_ends(path, separator, at + 2)
    }
}

/// Whether one of the names of `path` is `.` or `..`.
pub open spec fn has_dots(path: Seq<char>, separator: char) -> bool {
    exists|at: int| dots_at(path, separator, at)
}

/// A path that can stand below a root and stays below it: not empty, not
/// starting at the filesystem's top, and with no name that is `.` or `..`.
pub open spec fn is_relative(path: Seq<char>, separator: char) -> bool {
    path.len() > 0 && path[0] != separator && !has_dots(path, separator)
}

/// Whether a name appended to `base` needs no separator in between.
pub open spec fn ends_open(base: Seq<char>, separator: char) -> bool {
    base.len() == 0 || base.last() == separator
}

/// `relative` placed below `base`.
pub open spec fn joined(base: Seq<char>, relative: Seq<char>, separator: char) -> Seq<char> {
    if ends_open(base, separator) {
        base + relative
    } else {
        base.push(separator) + relative
    }
}

/// What is left of `path` once `base` and the separator after it are taken
/// away; `None` where `path` does not lie below `base`.
pub open spec fn relative_to(path: Seq<char>, base: Seq<char>, separator: char) -> Option<
    Seq<char>,
> {
    if !base.is_prefix_of(path) {
        None
    } else {
        let rest = path.skip(base.len() as int);
        let tail = if ends_open(base, separator) {
            rest
        } else if rest.len() > 0 && rest[0] == separator {
            rest.skip(1)
        } else {
            Seq::empty()
        };
        if is_relative(tail, separator) {
            Some(tail)
        } else {
            None
        }
    }
}

/// The directory that holds `path`: everything before its last separator.
/// A separator at the very start names the filesystem's top and opens no
/// directory of its own, so a path with no other separator has no parent.
pub open spec fn parent_of(path: Seq<char>, separator: char) -> Option<Seq<char>>
    decreases path.len(),
{
    if path.len() <= 1 {
        None
    } else if path.last() == separator {
        Some(path.drop_last())
    } else {
        parent_of(path.drop_last(), separator)
    }
}

/// Whether `directory` is one of the directories that must exist for a file
/// at `path` to exist: a proper prefix of `path` that ends just before a
/// separator.
pub open spec fn is_ancestor(directory: Seq<char>, path: Seq<char>, separator: char) -> bool {
    &&& 0 < directory.len() < path.len()
    &&& path[directory.len() as int] == separator
    &&& directory == path.take(directory.len() as int)
}

/// The characters of a string, one by one.
fn chars_of(s: &str) -> (chars: Vec<char>)
    ensures
        chars@ == s@,
{
    let mut chars: Vec<char> = Vec::new();
    let source = s.chars();
    for c in it: source
        invariant
            it.seq() == s@,
            chars@ == s@.take(it.index()),
    {
        chars.push(c);
    }
    chars
}

/// Appends one character to a string, by `String::push`: afterwards the
/// string is what it was, followed by `c`.
#[verifier::external_body]
fn push_char(s: &mut String, c: char)
    ensures
        final(s)@ == old(s)@.push(c),
{
    s.push(c);
}

/// Places `relative` below `base`, with one separator in between unless
/// `base` is empty or already ends in one.
pub fn join(base: &str, relative: &str, separator: char) -> (path: String)
    ensures
        path@ == joined(base@, relative@, separator),
{
    let head = chars_of(base);
    let mut path = String::from_str(base);
    if head.len() > 0 && head[head.len() - 1] != separator {
        push_char(&mut path, separator);
    }
    path.append(relative);
    path
}

/// Whether one of the names of `chars`, from the place `start` on, is `.` or
/// `..`.
fn names_dots(chars: &Vec<char>, start: usize, separator: char) -> (found: bool)
    requires
        start <= chars.len(),
    ensures
        found == has_dots(chars@.skip(start as int), separator),
{
    let ghost tail = chars@.skip(start as int);
    let mut at: usize = start;
    while at < chars.len()
        invariant
            start <= at <= chars.len(),
            tail == chars@.skip(start as int),
            forall|k: int| 0 <= k < at - start ==> !dots_at(tail, separator, k),
        decreases chars.len() - at,
    {
        let starts = at == start || chars[at - 1] == separator;
        if starts && chars[at] == '.' {
            let after = at + 1;
            let single = after == chars.len() || chars[after] == separator;
            let double = after < chars.len() && chars[after] == '.' && (after + 1 == chars.len()
                || chars[after + 1] == separator);
            if single || double {
                assert(dots_at(tail, separator, at - start));
                return true;
            }
        }
        at += 1;
    }
    false
}

/// Takes `base` and the separator after it away from `path`. Returns `None`
/// where `path` does not start with `base`, where `base` ends in the middle
/// of a name of `path`, where nothing relative is left, and where a name of
/// what is left is `.` or `..`.
pub fn strip_prefix(path: &str, base: &str, separator: char) -> (relative: Option<String>)
    ensures
        match relative {
            Some(r) => relative_to(path@, base@, separator) == Some(r@),
            None => relative_to(path@, base@, separator) is None,
        },
{
    let full = chars_of(path);
    let head = chars_of(base);
    if head.len() > full.len() {
        return None;
    }
    let mut i: usize = 0;
    while i < head.len()
        invariant
            i <= head.len() <= full.len(),
            full@ == path@,
            head@ == base@,
            forall|j: int| 0 <= j < i ==> full@[j] == head@[j],
        decreases head.len() - i,
    {
        if full[i] != head[i] {
            return None;
        }
        i += 1;
    }
    assert(base@ =~= path@.subrange(0, base@.len() as int));
    let start: usize = if head.len() == 0 || head[head.len() - 1] == separator {
        head.len()
    } else if head.len() < full.len() && full[head.len()] == separator {
        head.len() + 1
    } else {
        return None;
    };
    let ghost rest = path@.skip(base@.len() as int);
    let ghost left = if ends_open(base@, separator) {
        rest
    } else {
        rest.skip(1)
    };
    assert(left =~= full@.skip(start as int));
    if start >= full.len() || full[start] == separator {
        return None;
    }
    if names_dots(&full, start, separator) {
        return None;
    }
    let tail = path.substring_char(start, full.len());
    assert(tail@ =~= left);
    Some(String::from_str(tail))
}

/// The directory that holds `path`, where it has one.
pub fn parent(path: &str, separator: char) -> (directory: Option<String>)
    ensures
        match directory {
            Some(d) => parent_of(path@, separator) == Some(d@),
            None => parent_of(path@, separator) is None,
        },
{
    let full = chars_of(path);
    let mut end: usize = full.len();
    assert(path@.take(end as int) =~= path@);
    while end > 1
        invariant
            end <= full.len(),
            full@ == path@,
            parent_of(path@, separator) == parent_of(path@.take(end as int), separator),
        decreases end,
    {
        end -= 1;
        if full[end] == separator {
            let directory = path.substring_char(0, end);
            assert(path@.take(end + 1).drop_last() =~= directory@);
            return Some(String::from_str(directory));
        }
        assert(path@.take(end + 1).drop_last() =~= path@.take(end as int));
    }
    None
}

/// A path taken apart at its root goes together again.
pub proof fn lemma_join_restores(path: Seq<char>, base: Seq<char>, separator: char)
    requires
        relative_to(path, base, separator) is Some,
    ensures
        joined(base, relative_to(path, base, separator).unwrap(), separator) == path,
{
    let relative = relative_to(path, base, separator).unwrap();
    assert(joined(base, relative, separator) =~= path);
}

/// A relative path placed below a root is found again when the root is taken
/// away.
pub proof fn lemma_join_strips(base: Seq<char>, relative: Seq<char>, separator: char)
    requires
        is_relative(relative, separator),
    ensures
        relative_to(joined(base, relative, separator), base, separator) == Some(relative),
{
    let path = joined(base, relative, separator);
    assert(base =~= path.subrange(0, base.len() as int));
    if ends_open(base, separator) {
        assert(path.skip(base.len() as int) =~= relative);
    } else {
        assert(path.skip(base.len() as int).skip(1) =~= relative);
    }
}

/// What lies above an ancestor lies above the path itself.
pub proof fn lemma_ancestor_chain(
    upper: Seq<char>,
    directory: Seq<char>,
    path: Seq<char>,
    separator: char,
)
    requires
        is_ancestor(upper, directory, separator),
        is_ancestor(directory, path, separator),
    ensures
        is_ancestor(upper, path, separator),
{
    assert(directory[upper.len() as int] == path.take(directory.len() as int)[upper.len() as int]);
    assert(upper =~= path.take(upper.len() as int));
}

/// The parent is an ancestor, and every other ancestor lies above it.
pub proof fn lemma_parent_is_nearest(path: Seq<char>, separator: char)
    ensures
        match parent_of(path, separator) {
            Some(d) => {
                &&& is_ancestor(d, path, separator)
                &&& forall|e: Seq<char>| #[trigger]
                    is_ancestor(e, path, separator) ==> e == d || is_ancestor(e, d, separator)
            },
            None => forall|e: Seq<char>| !#[trigger] is_ancestor(e, path, separator),
        },
    decreases path.len(),
{
    if path.len() <= 1 {
    } else if path.last() == separator {
        let d = path.drop_last();
        assert(d =~= path.take(d.len() as int));
        assert forall|e: Seq<char>| #[trigger]
            is_ancestor(e, path, separator) implies e == d || is_ancestor(e, d, separator) by {
            if e.len() < d.len() {
                assert(e =~= d.take(e.len() as int));
            } else {
                assert(e =~= d);
            }
        }
    } else {
        let shorter = path.drop_last();
        lemma_parent_is_nearest(shorter, separator);
        assert forall|e: Seq<char>| #[trigger]
            is_ancestor(e, path, separator) implies is_ancestor(e, shorter, separator) by {
            assert(e =~= shorter.take(e.len() as int));
        }
        match parent_of(shorter, separator) {
            Some(d) => {
                assert(d =~= path.take(d.len() as int));
            },
            None => {},
        }
    }
}

} // verus!
