use hloc::paths::same_path;

#[test]
fn paths_compare_by_components() {
    assert!(same_path("a/b", "a//b"));
    assert!(same_path("/a/b/", "/a/b"));
    assert!(same_path("a/./b", "a/b"));
    assert!(!same_path("a/b", "a/c"));
    assert!(!same_path("/a", "a"));
}
