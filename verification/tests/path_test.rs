use syncr::path::{join, parent, strip_prefix};

#[test]
fn join_puts_one_separator_between() {
    assert_eq!(join("/tmp/a", "x.txt", '/'), "/tmp/a/x.txt");
    assert_eq!(join("/tmp/a", "sub/x.txt", '/'), "/tmp/a/sub/x.txt");
    assert_eq!(join("C:\\data", "x.txt", '\\'), "C:\\data\\x.txt");
}

#[test]
fn join_adds_no_separator_after_an_open_base() {
    assert_eq!(join("/tmp/a/", "x.txt", '/'), "/tmp/a/x.txt");
    assert_eq!(join("/", "x.txt", '/'), "/x.txt");
    assert_eq!(join("", "x.txt", '/'), "x.txt");
}

#[test]
fn strip_prefix_gives_the_path_below_the_base() {
    assert_eq!(strip_prefix("/tmp/a/x.txt", "/tmp/a", '/'), Some("x.txt".to_string()));
    assert_eq!(strip_prefix("/tmp/a/sub/x.txt", "/tmp/a", '/'), Some("sub/x.txt".to_string()));
    assert_eq!(strip_prefix("/tmp/a/x.txt", "/tmp/a/", '/'), Some("x.txt".to_string()));
    assert_eq!(strip_prefix("x.txt", "", '/'), Some("x.txt".to_string()));
    assert_eq!(strip_prefix("/x.txt", "/", '/'), Some("x.txt".to_string()));
    assert_eq!(strip_prefix("dir\\x.txt", "dir", '\\'), Some("x.txt".to_string()));
    assert_eq!(strip_prefix("/tmp/ä/ö.txt", "/tmp/ä", '/'), Some("ö.txt".to_string()));
}

#[test]
fn strip_prefix_refuses_what_is_not_below_the_base() {
    assert_eq!(strip_prefix("/tmp/b/x.txt", "/tmp/a", '/'), None);
    assert_eq!(strip_prefix("/tmp/ab/x.txt", "/tmp/a", '/'), None);
    assert_eq!(strip_prefix("/tmp", "/tmp/a", '/'), None);
    assert_eq!(strip_prefix("/tmp/a", "/tmp/a", '/'), None);
    assert_eq!(strip_prefix("/tmp/a/", "/tmp/a", '/'), None);
    assert_eq!(strip_prefix("/tmp/a//x.txt", "/tmp/a", '/'), None);
    assert_eq!(strip_prefix("/x.txt", "", '/'), None);
    assert_eq!(strip_prefix("", "", '/'), None);
}

#[test]
fn strip_prefix_refuses_names_that_are_dots() {
    assert_eq!(strip_prefix("/a/../x", "/a", '/'), None);
    assert_eq!(strip_prefix("/a/./x", "/a", '/'), None);
    assert_eq!(strip_prefix("/a/x/..", "/a", '/'), None);
    assert_eq!(strip_prefix("/a/x/.", "/a", '/'), None);
    assert_eq!(strip_prefix("/a/x/../y", "/a", '/'), None);
    assert_eq!(strip_prefix("/a/x/./y", "/a", '/'), None);
    assert_eq!(strip_prefix("/a/..", "/a", '/'), None);
    assert_eq!(strip_prefix("/a/.", "/a", '/'), None);
    assert_eq!(strip_prefix("a\\..\\x", "a", '\\'), None);
}

#[test]
fn strip_prefix_keeps_names_that_only_hold_dots() {
    assert_eq!(strip_prefix("/a/.hidden", "/a", '/'), Some(".hidden".to_string()));
    assert_eq!(strip_prefix("/a/..hidden", "/a", '/'), Some("..hidden".to_string()));
    assert_eq!(strip_prefix("/a/...", "/a", '/'), Some("...".to_string()));
    assert_eq!(strip_prefix("/a/x./y..", "/a", '/'), Some("x./y..".to_string()));
    assert_eq!(strip_prefix("/a/x/.y/z", "/a", '/'), Some("x/.y/z".to_string()));
    assert_eq!(strip_prefix("./x", ".", '/'), Some("x".to_string()));
    assert_eq!(strip_prefix("../x", "..", '/'), Some("x".to_string()));
}

#[test]
fn strip_prefix_undoes_join() {
    for base in ["/tmp/a", "/tmp/a/", "", "/", "rel"] {
        for relative in ["x", "sub/x.txt", ".hidden", "a/b/c/d"] {
            let path = join(base, relative, '/');
            assert_eq!(strip_prefix(&path, base, '/'), Some(relative.to_string()));
        }
    }
}

#[test]
fn parent_is_what_stands_before_the_last_separator() {
    assert_eq!(parent("subdir/test.txt", '/'), Some("subdir".to_string()));
    assert_eq!(
        parent("level1/level2/level3/deep.txt", '/'),
        Some("level1/level2/level3".to_string())
    );
    assert_eq!(parent("level1/level2/level3", '/'), Some("level1/level2".to_string()));
    assert_eq!(parent("a\\b", '\\'), Some("a".to_string()));
    assert_eq!(parent("a/", '/'), Some("a".to_string()));
}

#[test]
fn parent_of_a_single_name_is_none() {
    assert_eq!(parent("test.txt", '/'), None);
    assert_eq!(parent("", '/'), None);
    assert_eq!(parent("/", '/'), None);
    assert_eq!(parent("/x", '/'), None);
    assert_eq!(parent("a/b", '\\'), None);
}
