use hloc::charts::{get_by_lang_chart, get_by_repo_chart, get_by_repo_chart_checked, get_sorted_languages, get_sorted_repos};
use hloc::stats::{CodeStats, HistoricStats, Stats};
use hloc::time_period::YearMonth;

fn ym(year: i32, month: u32) -> YearMonth {
    YearMonth { year, month }
}

fn counts(v: &[(&str, usize)]) -> CodeStats {
    CodeStats { languages: v.iter().map(|(l, n)| (l.to_string(), *n)).collect() }
}

fn sample_stats() -> Stats<YearMonth> {
    Stats {
        from: ym(2024, 1),
        to: ym(2024, 3),
        repositories: vec![
            (
                "/work/big".to_string(),
                HistoricStats {
                    periods: vec![
                        (ym(2024, 1), counts(&[("Rust", 50)])),
                        (ym(2024, 2), counts(&[("Rust", 60), ("C", 5)])),
                        (ym(2024, 3), counts(&[("Rust", 70), ("C", 5)])),
                    ],
                },
            ),
            (
                "/work/small".to_string(),
                HistoricStats { periods: vec![(ym(2024, 2), counts(&[("C", 1), ("Go", 20)]))] },
            ),
        ],
    }
}

#[test]
fn languages_sorted_by_popularity() {
    // last periods: big {Rust 70, C 5}, small {C 1, Go 20}: C 6, Go 20, Rust 70
    assert_eq!(get_sorted_languages(&sample_stats()), vec!["C".to_string(), "Go".to_string(), "Rust".to_string()]);
}

#[test]
fn repositories_sorted_by_size() {
    assert_eq!(get_sorted_repos(&sample_stats()), vec!["/work/small".to_string(), "/work/big".to_string()]);
}

#[test]
fn chart_per_repository() {
    let chart = get_by_repo_chart("/work", &sample_stats());
    assert_eq!(chart.labels, vec!["2024-01".to_string(), "2024-02".to_string(), "2024-03".to_string()]);
    assert_eq!(chart.datasets.len(), 2);
    assert_eq!(chart.datasets[0].label, "small");
    assert_eq!(chart.datasets[0].data, vec![21]);
    assert_eq!(chart.datasets[1].label, "big");
    assert_eq!(chart.datasets[1].data, vec![50, 65, 75]);
    assert!(get_by_repo_chart_checked("/work", &sample_stats()).is_some());
}

#[test]
fn long_repository_names_are_truncated() {
    let mut stats = sample_stats();
    stats.repositories[0].0 = format!("/work/{}", "x".repeat(40));
    let chart = get_by_repo_chart("/work", &stats);
    assert_eq!(chart.datasets[1].label, format!("...{}", "x".repeat(35)));
}

#[test]
fn chart_per_language() {
    let chart = get_by_lang_chart(&sample_stats());
    assert_eq!(chart.labels.len(), 3);
    let labels: Vec<&str> = chart.datasets.iter().map(|d| d.label.as_str()).collect();
    assert_eq!(labels, vec!["C", "Go", "Rust"]);
    // periods present in some repository: 2024-01, 2024-02, 2024-03
    assert_eq!(chart.datasets[0].data, vec![0, 6, 5]);
    assert_eq!(chart.datasets[1].data, vec![0, 20, 0]);
    assert_eq!(chart.datasets[2].data, vec![50, 60, 70]);
}

#[test]
fn repository_without_a_name_has_no_chart() {
    let mut stats = sample_stats();
    stats.repositories.truncate(1);
    stats.repositories[0].0 = "/".to_string();
    assert!(get_by_repo_chart_checked("/", &stats).is_none());
}
