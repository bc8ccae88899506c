use rget::paths::{is_portable, join_path};
use std::path::Path;

#[test]
fn portable_paths_are_told_apart() {
    for yes in ["", "/", "a", "a/b", "/a/b/", "1:x", "a/C:b", "ab:c", ":a", "../x"] {
        assert!(is_portable(yes), "{}", yes);
    }
    for no in ["C:", "c:/x", "Z:x", "//a", "a\\b", "\\\\?\\C:\\a"] {
        assert!(!is_portable(no), "{}", no);
    }
}

#[test]
fn names_are_put_into_directories() {
    assert_eq!(join_path("a", "b"), "a/b");
    assert_eq!(join_path("a/", "b"), "a/b");
    assert_eq!(join_path("/", "b"), "/b");
    assert_eq!(join_path("", "b"), "b");
    assert_eq!(join_path("a", "b/c"), "a/b/c");
}

#[test]
fn paths_are_joined_as_std_does() {
    for dir in ["", "/", ".", "a", "a/", "../a", "//a", "a\\b", "C:", "C:/x"] {
        for name in ["b", ".b", "C:b", "/b", "b\\c", "b/c", ""] {
            let mine = join_path(dir, name);
            assert_eq!(Path::new(&mine), Path::new(dir).join(name));
        }
    }
}
