use hloc::config::RepoConfig;
use hloc::count::{
    count_file_lines, count_lines_impl, fill_gaps, finish_stats, remove_commits_from_forks, remove_commits_from_forks_checked, remove_min_lines_repos, sample_commits,
    should_count,
};
use hloc::dates::CalendarDate;
use hloc::git::CommitId;
use hloc::stats::{CodeStats, HistoricStats, Stats};
use hloc::time_period::YearMonth;

fn ym(year: i32, month: u32) -> YearMonth {
    YearMonth { year, month }
}

fn counts(v: &[(&str, usize)]) -> CodeStats {
    CodeStats { languages: v.iter().map(|(l, n)| (l.to_string(), *n)).collect() }
}

fn config(archived: bool, min_lines: u32) -> RepoConfig {
    let mut c = RepoConfig::default();
    c.archived = archived;
    c.min_lines = min_lines;
    c
}

fn commit(n: u8) -> CommitId {
    let mut bytes = [0u8; 20];
    bytes[19] = n;
    CommitId::from_bytes(&bytes)
}

fn view(h: &HistoricStats<YearMonth>) -> Vec<(YearMonth, Vec<(String, usize)>)> {
    h.periods.iter().map(|(p, c)| (*p, c.languages.clone())).collect()
}

#[test]
fn gaps_are_filled_with_the_last_known_counts() {
    let mut stats = Stats {
        from: ym(2024, 1),
        to: ym(2024, 5),
        repositories: vec![(
            "repo".to_string(),
            HistoricStats { periods: vec![(ym(2024, 2), counts(&[("Rust", 10)])), (ym(2024, 4), counts(&[("Rust", 30)]))] },
        )],
    };
    let configs = vec![("repo".to_string(), config(false, 1))];
    fill_gaps(&mut stats, &configs, ym(2024, 1), ym(2024, 5));
    assert_eq!(
        view(&stats.repositories[0].1),
        vec![
            (ym(2024, 1), vec![]),
            (ym(2024, 2), vec![("Rust".to_string(), 10)]),
            (ym(2024, 3), vec![("Rust".to_string(), 10)]),
            (ym(2024, 4), vec![("Rust".to_string(), 30)]),
            (ym(2024, 5), vec![("Rust".to_string(), 30)]),
        ]
    );
}

#[test]
fn archived_history_stops_at_its_last_commit() {
    let mut stats = Stats {
        from: ym(2024, 1),
        to: ym(2024, 6),
        repositories: vec![(
            "old".to_string(),
            HistoricStats { periods: vec![(ym(2024, 1), counts(&[("C", 5)])), (ym(2024, 3), counts(&[("C", 7)]))] },
        )],
    };
    let configs = vec![("old".to_string(), config(true, 1))];
    fill_gaps(&mut stats, &configs, ym(2024, 1), ym(2024, 6));
    let periods: Vec<YearMonth> = stats.repositories[0].1.periods.iter().map(|(p, _)| *p).collect();
    assert_eq!(periods, vec![ym(2024, 1), ym(2024, 2), ym(2024, 3)]);
    assert_eq!(stats.repositories[0].1.periods[1].1.languages, vec![("C".to_string(), 5)]);
}

#[test]
fn small_repositories_are_removed() {
    let mut stats = Stats {
        from: ym(2024, 1),
        to: ym(2024, 1),
        repositories: vec![
            ("big".to_string(), HistoricStats { periods: vec![(ym(2024, 1), counts(&[("Go", 100), ("C", 3)]))] }),
            ("small".to_string(), HistoricStats { periods: vec![(ym(2024, 1), counts(&[("Go", 40), ("C", 40)]))] }),
        ],
    };
    let configs = vec![("big".to_string(), config(false, 50)), ("small".to_string(), config(false, 50))];
    remove_min_lines_repos(&mut stats, &configs);
    let names: Vec<&str> = stats.repositories.iter().map(|(n, _)| n.as_str()).collect();
    assert_eq!(names, vec!["big"]);
}

#[test]
fn post_processing_starts_at_the_earliest_period() {
    let repositories = vec![
        ("a".to_string(), HistoricStats { periods: vec![(ym(2024, 3), counts(&[("Rust", 2)]))] }),
        ("b".to_string(), HistoricStats { periods: vec![(ym(2024, 2), counts(&[("Rust", 1)]))] }),
    ];
    let configs = vec![("a".to_string(), config(false, 2)), ("b".to_string(), config(false, 2))];
    let (stats, min, this) = finish_stats(repositories, &configs, ym(2024, 4));
    assert_eq!(min, ym(2024, 2));
    assert_eq!(this, ym(2024, 4));
    assert_eq!(stats.from, ym(2024, 2));
    assert_eq!(stats.to, ym(2024, 4));
    // "b" never reaches 2 lines
    assert_eq!(stats.repositories.len(), 1);
    assert_eq!(stats.repositories[0].0, "a");
    let periods: Vec<YearMonth> = stats.repositories[0].1.periods.iter().map(|(p, _)| *p).collect();
    assert_eq!(periods, vec![ym(2024, 2), ym(2024, 3), ym(2024, 4)]);
    assert_eq!(stats.repositories[0].1.periods[0].1.languages, vec![]);
}

#[test]
fn samples_keep_the_last_commit_of_each_period() {
    // 2024-01-10, 2024-01-20, 2024-02-05 (UTC)
    let commits = vec![(1_704_844_800, commit(1)), (1_705_708_800, commit(2)), (1_707_091_200, commit(3))];
    let samples: Vec<(YearMonth, CommitId)> = sample_commits(&commits, None);
    assert_eq!(samples, vec![(ym(2024, 1), commit(2)), (ym(2024, 2), commit(3))]);
    let from = Some(CalendarDate { year: 2024, month: 1, day: 15 });
    let samples: Vec<(YearMonth, CommitId)> = sample_commits(&commits, from);
    assert_eq!(samples, vec![(ym(2024, 1), commit(2)), (ym(2024, 2), commit(3))]);
    let from = Some(CalendarDate { year: 2024, month: 2, day: 1 });
    let samples: Vec<(YearMonth, CommitId)> = sample_commits(&commits, from);
    assert_eq!(samples, vec![(ym(2024, 2), commit(3))]);
}

#[test]
fn samples_follow_period_order_whatever_the_commit_order() {
    let commits = vec![(1_707_091_200, commit(3)), (1_704_844_800, commit(1))];
    let samples: Vec<(YearMonth, CommitId)> = sample_commits(&commits, None);
    assert_eq!(samples, vec![(ym(2024, 1), commit(1)), (ym(2024, 2), commit(3))]);
}

#[test]
fn forks_lose_the_shared_commits() {
    let mut samples = vec![
        ("upstream".to_string(), vec![(ym(2024, 1), commit(1)), (ym(2024, 2), commit(2))]),
        ("fork".to_string(), vec![(ym(2024, 1), commit(1)), (ym(2024, 2), commit(2)), (ym(2024, 3), commit(3))]),
    ];
    remove_commits_from_forks(&mut samples, &vec![0, 1]);
    assert_eq!(samples[0].1, vec![(ym(2024, 1), commit(1)), (ym(2024, 2), commit(2))]);
    assert_eq!(samples[1].1, vec![(ym(2024, 3), commit(3))]);
}

#[test]
fn fork_detection_wants_each_repository_once() {
    let given = vec![
        ("team/repo".to_string(), vec![(ym(2024, 1), commit(1))]),
        ("team//repo".to_string(), vec![(ym(2024, 1), commit(1)), (ym(2024, 2), commit(2))]),
    ];
    let mut samples = given.clone();
    assert!(!remove_commits_from_forks_checked(&mut samples, &vec![0, 1]));
    assert_eq!(samples, given);
    let mut samples = vec![
        ("upstream".to_string(), vec![(ym(2024, 1), commit(1)), (ym(2024, 2), commit(2))]),
        ("fork".to_string(), vec![(ym(2024, 1), commit(1)), (ym(2024, 3), commit(3))]),
    ];
    assert!(remove_commits_from_forks_checked(&mut samples, &vec![0, 1]));
    assert_eq!(samples[0].1, vec![(ym(2024, 1), commit(1)), (ym(2024, 2), commit(2))]);
    assert_eq!(samples[1].1, vec![(ym(2024, 3), commit(3))]);
}

#[test]
fn a_file_is_counted_by_its_language() {
    let none: Vec<String> = vec![];
    assert_eq!(count_file_lines("main.rs", b"fn main() {}\n\n// end\n", &none), Some(("Rust".to_string(), 1)));
    assert_eq!(
        count_file_lines("run", b"#!/usr/bin/env python3\nprint(1)\n", &none),
        Some(("Python".to_string(), 1))
    );
    assert_eq!(count_file_lines("main.rs", b"fn main() {}\n", &vec!["Rust".to_string()]), None);
    assert_eq!(count_file_lines("README", b"hello\n", &none), None);
    assert_eq!(count_file_lines("photo.nosuchextension", b"x", &none), None);
    assert_eq!(count_file_lines("Makefile", b"all:\n\techo hi\n", &none), Some(("Makefile".to_string(), 2)));
}

#[test]
fn counting_decisions() {
    let skip = vec!["Json".to_string()];
    assert!(should_count(&Some("Rust".to_string()), &skip));
    assert!(!should_count(&Some("Json".to_string()), &skip));
    assert!(!should_count(&None, &skip));
    assert_eq!(count_lines_impl("Rust".to_string(), b"// comment\nfn main() {}\n\n"), Some(("Rust".to_string(), 1)));
    assert_eq!(count_lines_impl("No Such Language".to_string(), b"x"), None);
}
