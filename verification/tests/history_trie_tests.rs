use hloc::git::CommitId;
use hloc::history_trie::HistoryTrie;
use std::collections::HashMap;

fn do_test(repos: &HashMap<(&str, i32), Vec<CommitId>>, expected: &HashMap<String, Vec<CommitId>>) {
    let mut trie = HistoryTrie::new();
    for ((repo, priority), commits) in repos {
        trie.insert(repo, *priority, commits);
    }
    let result: HashMap<String, Vec<CommitId>> = trie.get_all_sequences_iterative().into_iter().collect();
    assert_eq!(&result, expected);
}

fn do_test_no_priority(repos: &HashMap<String, Vec<CommitId>>, expected: &HashMap<String, Vec<CommitId>>) {
    let mut trie = HistoryTrie::new();
    for (repo, commits) in repos {
        trie.insert(repo, 0, commits);
    }
    let result: HashMap<String, Vec<CommitId>> = trie.get_all_sequences_iterative().into_iter().collect();
    assert_eq!(&result, expected);
}

fn commits() -> [CommitId; 5] {
    [
        CommitId::from_hex_string("1").unwrap(),
        CommitId::from_hex_string("2").unwrap(),
        CommitId::from_hex_string("3").unwrap(),
        CommitId::from_hex_string("4").unwrap(),
        CommitId::from_hex_string("5").unwrap(),
    ]
}

#[test]
fn history_trie_test() {
    let [commit1, commit2, commit3, commit4, commit5] = commits();
    let repo1 = "repo1".to_string();
    let repo2 = "repo2".to_string();

    // Unrelated histories
    do_test(
        &HashMap::from_iter([
            (("repo1", 0), vec![commit1, commit2, commit3]),
            (("repo2", 1), vec![commit4, commit5]),
        ]),
        &HashMap::from_iter([
            (repo1.clone(), vec![commit1, commit2, commit3]),
            (repo2.clone(), vec![commit4, commit5]),
        ]),
    );

    // Fork is a strict superset
    do_test(
        &HashMap::from_iter([
            (("repo1", 0), vec![commit1, commit2, commit3]),
            (("repo2", 1), vec![commit1, commit2, commit3, commit4]),
        ]),
        &HashMap::from_iter([(repo1.clone(), vec![commit1, commit2, commit3]), (repo2.clone(), vec![commit4])]),
    );

    // "Fork" is a strict subset
    do_test(
        &HashMap::from_iter([
            (("repo1", 0), vec![commit1, commit2, commit3, commit4]),
            (("repo2", 1), vec![commit1, commit2, commit3]),
        ]),
        &HashMap::from_iter([(repo1.clone(), vec![commit1, commit2, commit3, commit4]), (repo2.clone(), vec![])]),
    );

    // Identical histories
    do_test(
        &HashMap::from_iter([
            (("repo1", 0), vec![commit1, commit2, commit3]),
            (("repo2", 1), vec![commit1, commit2, commit3]),
        ]),
        &HashMap::from_iter([(repo1.clone(), vec![commit1, commit2, commit3]), (repo2.clone(), vec![])]),
    );

    // Diverging histories - Shorter is kept
    do_test(
        &HashMap::from_iter([
            (("repo1", 0), vec![commit1, commit2, commit3]),
            (("repo2", 1), vec![commit1, commit2, commit4, commit5]),
        ]),
        &HashMap::from_iter([(repo1.clone(), vec![commit1, commit2, commit3]), (repo2.clone(), vec![commit4, commit5])]),
    );

    // Diverging histories - Longer is kept
    do_test(
        &HashMap::from_iter([
            (("repo1", 0), vec![commit1, commit2, commit4, commit5]),
            (("repo2", 1), vec![commit1, commit2, commit3]),
        ]),
        &HashMap::from_iter([(repo1.clone(), vec![commit1, commit2, commit4, commit5]), (repo2.clone(), vec![commit3])]),
    );
}

#[test]
fn commit_trie_test() {
    let [commit1, commit2, commit3, commit4, commit5] = commits();
    let repo1 = "repo1".to_string();
    let repo2 = "repo2".to_string();

    // Unrelated histories
    do_test_no_priority(
        &HashMap::from_iter([(repo1.clone(), vec![commit1, commit2, commit3]), (repo2.clone(), vec![commit4, commit5])]),
        &HashMap::from_iter([(repo1.clone(), vec![commit1, commit2, commit3]), (repo2.clone(), vec![commit4, commit5])]),
    );

    // Fork is a strict superset
    do_test_no_priority(
        &HashMap::from_iter([
            (repo1.clone(), vec![commit1, commit2, commit3]),
            (repo2.clone(), vec![commit1, commit2, commit3, commit4]),
        ]),
        &HashMap::from_iter([(repo1.clone(), vec![commit1, commit2, commit3]), (repo2.clone(), vec![commit4])]),
    );

    // "Fork" is a strict subset
    do_test_no_priority(
        &HashMap::from_iter([
            (repo1.clone(), vec![commit1, commit2, commit3, commit4]),
            (repo2.clone(), vec![commit1, commit2, commit3]),
        ]),
        &HashMap::from_iter([(repo1.clone(), vec![commit1, commit2, commit3, commit4]), (repo2.clone(), vec![])]),
    );

    // Identical histories
    do_test_no_priority(
        &HashMap::from_iter([(repo1.clone(), vec![commit1, commit2, commit3]), (repo2.clone(), vec![commit1, commit2, commit3])]),
        &HashMap::from_iter([(repo1.clone(), vec![commit1, commit2, commit3]), (repo2.clone(), vec![])]),
    );

    // Diverging histories - Shorter is kept
    do_test_no_priority(
        &HashMap::from_iter([
            (repo1.clone(), vec![commit1, commit2, commit3]),
            (repo2.clone(), vec![commit1, commit2, commit4, commit5]),
        ]),
        &HashMap::from_iter([(repo1.clone(), vec![commit1, commit2, commit3]), (repo2.clone(), vec![commit4, commit5])]),
    );

    // Diverging histories - Longer is kept
    do_test_no_priority(
        &HashMap::from_iter([
            (repo1.clone(), vec![commit1, commit2, commit4, commit5]),
            (repo2.clone(), vec![commit1, commit2, commit3]),
        ]),
        &HashMap::from_iter([(repo1.clone(), vec![commit1, commit2, commit4, commit5]), (repo2.clone(), vec![commit3])]),
    );
}

#[test]
fn lower_priority_value_keeps_shared_history() {
    let [commit1, commit2, commit3, _, _] = commits();
    // "zzz" sorts after "aaa" but has the lower fork priority, so it keeps the shared commits
    do_test(
        &HashMap::from_iter([(("aaa", 5), vec![commit1, commit2]), (("zzz", -1), vec![commit1, commit2, commit3])]),
        &HashMap::from_iter([("aaa".to_string(), vec![]), ("zzz".to_string(), vec![commit1, commit2, commit3])]),
    );
}

#[test]
fn priority_ties_are_broken_by_path() {
    let [commit1, commit2, _, _, _] = commits();
    do_test(
        &HashMap::from_iter([(("b", 0), vec![commit1, commit2]), (("a", 0), vec![commit1, commit2])]),
        &HashMap::from_iter([("a".to_string(), vec![commit1, commit2]), ("b".to_string(), vec![])]),
    );
}

#[test]
fn every_shared_commit_is_kept_once() {
    let [c1, c2, c3, c4, c5] = commits();
    let mut trie = HistoryTrie::new();
    trie.insert("x", 2, &[c1, c2, c3]);
    trie.insert("y", 1, &[c1, c2, c4]);
    trie.insert("z", 3, &[c1, c5]);
    let result: HashMap<String, Vec<CommitId>> = trie.get_all_sequences_iterative().into_iter().collect();
    assert_eq!(result["y"], vec![c1, c2, c4]);
    assert_eq!(result["x"], vec![c3]);
    assert_eq!(result["z"], vec![c5]);
    let mut all: Vec<CommitId> = result.values().flatten().copied().collect();
    all.sort_by_key(|c| c.to_bytes());
    let mut expected = vec![c1, c2, c3, c4, c5];
    expected.sort_by_key(|c| c.to_bytes());
    assert_eq!(all, expected);
}

#[test]
fn single_repository_keeps_everything() {
    let [c1, c2, _, _, _] = commits();
    let mut trie = HistoryTrie::new();
    trie.insert("only", 0, &[c1, c2]);
    assert_eq!(trie.get_all_sequences_iterative(), vec![("only".to_string(), vec![c1, c2])]);
    assert_eq!(HistoryTrie::new().get_all_sequences_iterative(), vec![]);
}

#[test]
fn a_repository_is_inserted_once() {
    let [c1, c2, c3, _, _] = commits();
    let mut trie = HistoryTrie::new();
    assert!(trie.try_insert("team/repo", 0, &[c1, c2]));
    assert!(!trie.try_insert("team//repo", 1, &[c3]));
    assert!(trie.try_insert("team/fork", 1, &[c1, c2, c3]));
    let result: HashMap<String, Vec<CommitId>> = trie.get_all_sequences_iterative().into_iter().collect();
    assert_eq!(result.len(), 2);
    assert_eq!(result["team/repo"], vec![c1, c2]);
    assert_eq!(result["team/fork"], vec![c3]);
}

#[test]
fn insertion_order_does_not_matter() {
    let [c1, c2, c3, c4, c5] = commits();
    let histories: Vec<(&str, i32, Vec<CommitId>)> =
        vec![("x", 2, vec![c1, c2, c3]), ("y", 1, vec![c1, c2, c4]), ("z", 1, vec![c1, c5]), ("w", 0, vec![c4])];
    let mut forward = HistoryTrie::new();
    for (path, priority, commits) in &histories {
        forward.insert(path, *priority, commits);
    }
    let mut backward = HistoryTrie::new();
    for (path, priority, commits) in histories.iter().rev() {
        backward.insert(path, *priority, commits);
    }
    let a: HashMap<String, Vec<CommitId>> = forward.get_all_sequences_iterative().into_iter().collect();
    let b: HashMap<String, Vec<CommitId>> = backward.get_all_sequences_iterative().into_iter().collect();
    assert_eq!(a, b);
    assert_eq!(a["y"], vec![c1, c2, c4]);
    assert_eq!(a["z"], vec![c5]);
}
