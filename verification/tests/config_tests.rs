use hloc::config::{MAX_GLOB_NESTING, RepoConfig, configure_repo, in_limits, languages_from_names, parse_config};
use hloc::dates::CalendarDate;

fn date(year: i32, month: u32, day: u32) -> CalendarDate {
    CalendarDate { year, month, day }
}

#[test]
fn default_settings() {
    let c = RepoConfig::default();
    assert!(!c.ignore);
    assert!(c.skip_languages.is_empty());
    assert_eq!(c.min_lines, 1);
    assert_eq!(RepoConfig::default_min_lines(), 1);
    assert_eq!(c.from_time, None);
    assert!(!c.archived);
    assert_eq!(c.fork_priority, None);
}

#[test]
fn merging_combines_each_setting() {
    let a = RepoConfig {
        ignore: false,
        skip_languages: vec!["Xml".to_string()],
        min_lines: 100,
        from_time: Some(date(2020, 1, 1)),
        archived: true,
        fork_priority: Some(5),
    };
    let b = RepoConfig {
        ignore: true,
        skip_languages: vec!["Json".to_string()],
        min_lines: 50,
        from_time: Some(date(2021, 6, 1)),
        archived: false,
        fork_priority: None,
    };
    let m = a.merge(&b);
    assert!(m.ignore);
    assert_eq!(m.skip_languages, vec!["Xml".to_string(), "Json".to_string()]);
    assert_eq!(m.min_lines, 100);
    assert_eq!(m.from_time, Some(date(2021, 6, 1)));
    assert!(m.archived);
    assert_eq!(m.fork_priority, Some(5));
    let c = RepoConfig { fork_priority: Some(-2), ..RepoConfig::default() };
    assert_eq!(m.merge(&c).fork_priority, Some(-2));
}

#[test]
fn matching_patterns_are_merged_in_order() {
    let all = RepoConfig { min_lines: 5000, skip_languages: vec!["Xml".to_string()], ..RepoConfig::default() };
    let one = RepoConfig { ignore: true, ..RepoConfig::default() };
    let config = vec![("**/*".to_string(), all), ("**/generated-sdk".to_string(), one)];
    let c = configure_repo("/work/generated-sdk", &config);
    assert!(c.ignore);
    assert_eq!(c.min_lines, 5000);
    assert_eq!(c.skip_languages, vec!["Xml".to_string()]);
    let c = configure_repo("/work/service", &config);
    assert!(!c.ignore);
    assert_eq!(c.min_lines, 5000);
    let none: Vec<(String, RepoConfig)> = vec![];
    let c = configure_repo("/work/service", &none);
    assert_eq!(c.min_lines, 1);
}

#[test]
fn glob_separators_are_literal() {
    let config = vec![("*/repo".to_string(), RepoConfig { archived: true, ..RepoConfig::default() })];
    assert!(configure_repo("team/repo", &config).archived);
    assert!(!configure_repo("a/team/repo", &config).archived);
}

#[test]
fn invalid_patterns_are_reported() {
    let config = vec![("**/*".to_string(), RepoConfig::default()), ("[".to_string(), RepoConfig::default())];
    assert_eq!(parse_config(config).err(), Some("[".to_string()));
    let config = vec![("**/*".to_string(), RepoConfig::default())];
    assert_eq!(parse_config(config).map(|v| v.len()), Ok(1));
}

#[test]
fn patterns_past_the_regex_limits_are_refused() {
    let deep = format!("{}a{}", "{".repeat(300), "}".repeat(300));
    let config = vec![("**/*".to_string(), RepoConfig::default()), (deep.clone(), RepoConfig::default())];
    assert_eq!(parse_config(config).err(), Some(deep.clone()));
    let config = vec![(deep, RepoConfig { ignore: true, ..RepoConfig::default() })];
    assert!(!configure_repo("a", &config).ignore);
}

#[test]
fn long_patterns_are_accepted() {
    let long = "a".repeat(10_000);
    let config = vec![(long.clone(), RepoConfig { ignore: true, ..RepoConfig::default() })];
    assert!(configure_repo(&long, &config).ignore);
    assert_eq!(parse_config(config).map(|v| v.len()), Ok(1));
    let groups = "{a,b}".repeat(2000);
    let config = vec![(groups, RepoConfig::default())];
    assert_eq!(parse_config(config).map(|v| v.len()), Ok(1));
}

#[test]
fn nesting_is_limited() {
    let deepest = format!("x{}{}", "{".repeat(MAX_GLOB_NESTING), "}".repeat(MAX_GLOB_NESTING));
    let config = vec![(deepest.clone(), RepoConfig { ignore: true, ..RepoConfig::default() })];
    assert!(configure_repo("x", &config).ignore);
    assert_eq!(parse_config(config).map(|v| v.len()), Ok(1));
    let deeper = format!("x{}{}", "{".repeat(MAX_GLOB_NESTING + 1), "}".repeat(MAX_GLOB_NESTING + 1));
    assert!(!in_limits(&deeper));
    let config = vec![(deeper.clone(), RepoConfig { ignore: true, ..RepoConfig::default() })];
    assert!(!configure_repo("x", &config).ignore);
    assert_eq!(parse_config(config).err(), Some(deeper));
    let escaped = format!("x{}", "\\{".repeat(MAX_GLOB_NESTING + 1));
    assert!(in_limits(&escaped));
    let in_class = format!("x[{}]", "{".repeat(MAX_GLOB_NESTING + 1));
    assert!(in_limits(&in_class));
}

#[test]
fn language_names_are_resolved() {
    let names = vec!["Rust".to_string(), "Bash".to_string()];
    assert_eq!(languages_from_names(&names), Ok(vec!["Rust".to_string(), "BASH".to_string()]));
    let names = vec!["Rust".to_string(), "Nope".to_string(), "Alsonope".to_string()];
    assert_eq!(languages_from_names(&names), Err("Nope".to_string()));
}
