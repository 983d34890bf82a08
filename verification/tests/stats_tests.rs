use hloc::stats::{CodeStats, code_stats_from_files};

#[test]
fn counts_add_up_per_language() {
    let mut s = CodeStats::new();
    s.add("Rust".to_string(), 10);
    s.add("C".to_string(), 3);
    s.add("Rust".to_string(), 5);
    assert_eq!(s.lines("Rust"), 15);
    assert_eq!(s.lines("C"), 3);
    assert_eq!(s.lines("Go"), 0);
    assert_eq!(s.total_lines(), 18);
    assert!(s.reaches(15));
    assert!(!s.reaches(16));
    assert_eq!(s.duplicate().languages, s.languages);
}

#[test]
fn file_counts_are_aggregated() {
    let files = vec![Some(("Rust".to_string(), 4)), None, Some(("Rust".to_string(), 6)), Some(("TOML".to_string(), 2))];
    let s = code_stats_from_files(&files).unwrap();
    assert_eq!(s.lines("Rust"), 10);
    assert_eq!(s.lines("TOML"), 2);
    let too_many = vec![Some(("Rust".to_string(), usize::MAX)), Some(("Rust".to_string(), 1))];
    assert!(code_stats_from_files(&too_many).is_none());
}

#[test]
fn every_counted_language_is_a_key() {
    let files = vec![Some(("Rust".to_string(), 0)), None, Some(("TOML".to_string(), 2))];
    let s = code_stats_from_files(&files).unwrap();
    let mut keys: Vec<String> = s.languages.iter().map(|(l, _)| l.clone()).collect();
    keys.sort();
    assert_eq!(keys, vec!["Rust".to_string(), "TOML".to_string()]);
    assert_eq!(s.lines("Rust"), 0);
    assert!(code_stats_from_files(&vec![None, None]).unwrap().languages.is_empty());
}
