//! Paths as text.

use tsr::path::{absolute, join, parts, rel_to_slash, render, to_slash, under};

#[test]
fn relative_paths_join_with_slashes() {
    assert_eq!(to_slash(&join("dist", "a.js")), "dist/a.js");
    assert_eq!(to_slash("one.js"), "one.js");
    assert_eq!(to_slash(""), "");
}

#[test]
fn a_root_is_not_doubled() {
    assert_eq!(to_slash(&join(&join("/", "a"), "b")), "/a/b");
}

#[test]
fn a_backslash_inside_a_unix_filename_is_kept() {
    assert_eq!(to_slash("dir/we\\ird.js"), "dir/we\\ird.js");
}

#[test]
fn redundant_separators_collapse() {
    assert_eq!(to_slash("a//b/"), "a/b");
}

#[test]
fn rel_to_slash_strips_the_base_when_it_applies() {
    let base = "/work/repo";
    assert_eq!(
        rel_to_slash(base, &join(&join(base, "apps"), "web")),
        "apps/web"
    );
    assert_eq!(rel_to_slash(base, "/elsewhere/pkg"), "/elsewhere/pkg");
}

#[test]
fn rebuilding_twice_changes_nothing() {
    for p in ["", "/", "//", ".", "./a", "a/./b", "/a/./", "a//b///c/", "/..", "../x/"] {
        let once = to_slash(p);
        assert_eq!(to_slash(&once), once, "{p:?}");
        assert_eq!(parts(&once), parts(p), "{p:?}");
        assert_eq!(render(absolute(p), &parts(p)), once, "{p:?}");
    }
}

#[test]
fn a_directory_prefix_is_no_parent() {
    assert!(under("/a/b", "/a/b/c"));
    assert!(under("/a/b", "/a/b"));
    assert!(!under("/a/b", "/a/bc"));
    assert!(!under("/a/b", "a/b/c"));
}

#[test]
fn joining_an_absolute_path_gives_that_path() {
    assert_eq!(join("/a", "/b"), "/b");
    assert_eq!(join("/a/", "b"), "/a/b");
    assert_eq!(join("", "b"), "b");
}
