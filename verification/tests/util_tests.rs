use hloc::util::{display_name, longest_common_subpath, merge_options, truncate_beginning, try_display_name};

fn paths(v: &[&str]) -> Vec<String> {
    v.iter().map(|s| s.to_string()).collect()
}

#[test]
fn test_truncate_graphemes() {
    assert_eq!(truncate_beginning("abc", 0, "..."), "...");
    assert_eq!(truncate_beginning("abc", 2, "..."), "...bc");
    assert_eq!(truncate_beginning("abc", 3, "..."), "abc");
    assert_eq!(truncate_beginning("abcd", 3, "..."), "...bcd");
}

#[test]
fn test_longest_common_subpath() {
    assert_eq!(longest_common_subpath(&paths(&["/a/b/c"])), "/a/b/c");
    assert_eq!(longest_common_subpath(&paths(&["/a/b", "/a/b"])), "/a/b");
    assert_eq!(longest_common_subpath(&paths(&["/a/b/c", "/a/b/d"])), "/a/b");
    assert_eq!(longest_common_subpath(&paths(&["/a/b", "/c/d"])), "/");
    assert_eq!(longest_common_subpath(&paths(&["/a/b", "/a/b/c"])), "/a/b");
    assert_eq!(longest_common_subpath(&paths(&["/a/b/c", "/a/b/d", "/a/b/e"])), "/a/b");
}

#[test]
fn truncate_keeps_whole_grapheme_clusters() {
    // "e" followed by a combining acute accent is one grapheme cluster
    let s = "xe\u{301}";
    assert_eq!(truncate_beginning(s, 1, "..."), "...e\u{301}");
    assert_eq!(truncate_beginning(s, 2, "..."), s);
    assert_eq!(truncate_beginning("", 0, "..."), "");
}

#[test]
fn truncate_with_longer_limit_is_identity() {
    assert_eq!(truncate_beginning("repo/name", 35, "..."), "repo/name");
    let long = "a".repeat(40);
    let expected = format!("...{}", "a".repeat(35));
    assert_eq!(truncate_beginning(&long, 35, "..."), expected);
}

#[test]
fn common_subpath_ignores_redundant_separators() {
    assert_eq!(longest_common_subpath(&paths(&["/a//b/c", "/a/b/d"])), "/a/b");
    assert_eq!(longest_common_subpath(&paths(&["a/b", "c/d"])), "");
}

#[test]
fn merge_options_combines_or_keeps() {
    let max = |a: i32, b: i32| if a >= b { a } else { b };
    assert_eq!(merge_options(Some(3), Some(7), max), Some(7));
    assert_eq!(merge_options(Some(3), None, max), Some(3));
    assert_eq!(merge_options(None, Some(7), max), Some(7));
    assert_eq!(merge_options(None::<i32>, None, max), None);
}

#[test]
fn display_name_is_relative_to_base() {
    assert_eq!(display_name("/work", "/work/team/repo"), "team/repo");
    assert_eq!(display_name("/work/repo", "/work/repo"), "repo");
    assert_eq!(try_display_name("/", "/"), None);
    assert_eq!(try_display_name("/work", "/work/repo"), Some("repo".to_string()));
}
