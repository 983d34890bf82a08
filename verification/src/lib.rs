//! Historical lines of code: the verified core of a tool that samples the history of Git
//! repositories once per period, counts their lines of code per language, avoids counting the
//! shared history of forks twice, and prepares the data of a report over time.
pub mod charts;
pub mod config;
pub mod count;
pub mod dates;
pub mod git;
pub mod history_trie;
pub mod languages;
pub mod paths;
pub mod setup;
pub mod stats;
pub mod text;
pub mod time_period;
pub mod util;
pub mod year_month;
