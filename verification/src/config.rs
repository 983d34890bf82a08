//! Per-repository settings, and how the settings of several matching patterns combine.
use vstd::prelude::*;

use crate::dates::{CalendarDate, min_date};
use crate::text::texts;
use crate::util::merge_options;

verus! {

/// The settings of one repository (or of one glob pattern of the configuration file).
#[derive(Debug)]
pub struct RepoConfig {
    /// Exclude the repository from the report.
    pub ignore: bool,
    /// Languages (by their tokei names) left out of the line count.
    pub skip_languages: Vec<String>,
    /// The line count that the repository must reach at some point to be reported.
    pub min_lines: u32,
    /// Commits before this date are ignored.
    pub from_time: Option<CalendarDate>,
    /// The history ends at the last commit instead of running to the present.
    pub archived: bool,
    /// Fork detection priority: the lower, the more likely the repository is the source of the
    /// others. An option so that merging keeps the smallest value that was actually given.
    pub fork_priority: Option<i32>,
}

/// The later of two dates.
pub open spec fn max_date(a: CalendarDate, b: CalendarDate) -> CalendarDate {
    if a.spec_before(b) { b } else { a }
}

/// What merging two optional values yields: the combination of both, or whichever is present.
pub open spec fn merged_option<T>(a: Option<T>, b: Option<T>, f: spec_fn(T, T) -> T) -> Option<T> {
    match (a, b) {
        (Some(x), Some(y)) => Some(f(x, y)),
        (Some(x), None) => Some(x),
        (None, _) => b,
    }
}

impl RepoConfig {
    /// The default minimum line count.
    pub fn default_min_lines() -> (r: u32)
        ensures
            r == 1,
    {
        1
    }

    /// A copy of the settings.
    pub fn duplicate(&self) -> (r: RepoConfig)
        ensures
            r.ignore == self.ignore,
            texts(r.skip_languages@) == texts(self.skip_languages@),
            r.min_lines == self.min_lines,
            r.from_time == self.from_time,
            r.archived == self.archived,
            r.fork_priority == self.fork_priority,
    {
        RepoConfig {
            ignore: self.ignore,
            skip_languages: copy_strings(&self.skip_languages),
            min_lines: self.min_lines,
            from_time: self.from_time,
            archived: self.archived,
            fork_priority: self.fork_priority,
        }
    }

    /// Merges the settings of two matching patterns: `ignore` and `archived` are or-ed,
    /// `min_lines` takes the maximum, `skip_languages` are concatenated, `from_time` takes the
    /// latest date and `fork_priority` the minimum of those given.
    pub fn merge(self, other: &Self) -> (r: Self)
        ensures
            r.ignore == (self.ignore || other.ignore),
            texts(r.skip_languages@) == texts(self.skip_languages@) + texts(other.skip_languages@),
            r.min_lines == if self.min_lines >= other.min_lines { self.min_lines } else { other.min_lines },
            r.from_time == merged_option(self.from_time, other.from_time, |a: CalendarDate, b: CalendarDate| max_date(a, b)),
            r.archived == (self.archived || other.archived),
            r.fork_priority == merged_option(self.fork_priority, other.fork_priority, |a: i32, b: i32| if a <= b { a } else { b }),
    {
        let mut skip_languages = self.skip_languages;
        let ghost first = skip_languages@;
        let mut i: usize = 0;
        while i < other.skip_languages.len()
            invariant
                i <= other.skip_languages@.len(),
                texts(skip_languages@) == texts(first) + texts(other.skip_languages@.take(i as int)),
            decreases other.skip_languages@.len() - i,
        {
            let c = other.skip_languages[i].clone();
            proof {
                lemma_texts_push(skip_languages@, c);
                lemma_texts_push(other.skip_languages@.take(i as int), other.skip_languages@[i as int]);
                assert(other.skip_languages@.take(i + 1) =~= other.skip_languages@.take(i as int).push(other.skip_languages@[i as int]));
            }
            skip_languages.push(c);
            i = i + 1;
        }
        assert(other.skip_languages@.take(i as int) =~= other.skip_languages@);
        let later = |a: CalendarDate, b: CalendarDate| -> (c: CalendarDate)
            ensures
                c == max_date(a, b),
            {
                if a.before(&b) {
                    b
                } else {
                    a
                }
            };
        let lower = |a: i32, b: i32| -> (c: i32)
            ensures
                c == (if a <= b { a } else { b }),
            {
                if a <= b {
                    a
                } else {
                    b
                }
            };
        let from_time = merge_options(self.from_time, other.from_time, later);
        let fork_priority = merge_options(self.fork_priority, other.fork_priority, lower);
        RepoConfig {
            ignore: self.ignore || other.ignore,
            skip_languages,
            min_lines: if self.min_lines >= other.min_lines {
                self.min_lines
            } else {
                other.min_lines
            },
            from_time,
            archived: self.archived || other.archived,
            fork_priority,
        }
    }
}

impl Default for RepoConfig {
    fn default() -> (r: Self)
        ensures
            !r.ignore,
            r.skip_languages@.len() == 0,
            r.min_lines == 1,
            r.from_time is None,
            !r.archived,
            r.fork_priority is None,
    {
        RepoConfig {
            ignore: false,
            skip_languages: Vec::new(),
            min_lines: RepoConfig::default_min_lines(),
            from_time: None,
            archived: false,
            fork_priority: None,
        }
    }
}

proof fn lemma_texts_push(v: Seq<String>, s: String)
    ensures
        texts(v.push(s)) == texts(v).push(s@),
{
    assert(texts(v.push(s)) =~= texts(v).push(s@));
}

/// A copy of a list of strings.
pub fn copy_strings(v: &Vec<String>) -> (r: Vec<String>)
    ensures
        texts(r@) == texts(v@),
{
    let mut r: Vec<String> = Vec::new();
    let mut i: usize = 0;
    while i < v.len()
        invariant
            i <= v@.len(),
            texts(r@) == texts(v@.take(i as int)),
        decreases v@.len() - i,
    {
        let c = v[i].clone();
        proof {
            lemma_texts_push(r@, c);
            lemma_texts_push(v@.take(i as int), v@[i as int]);
            assert(v@.take(i + 1) =~= v@.take(i as int).push(v@[i as int]));
        }
        r.push(c);
        i = i + 1;
    }
    assert(v@.take(i as int) =~= v@);
    r
}

/// The canonical tokei name of the language that `tokei::LanguageType::from_name` finds for a
/// name, if any.
pub uninterp spec fn tokei_language_named(name: Seq<char>) -> Option<Seq<char>>;

/// Looks a language up by name with `tokei::LanguageType::from_name` and gives its canonical name
/// (`LanguageType::name`). Trusted: the result is named `tokei_language_named`.
#[verifier::external_body]
pub(crate) fn language_named(name: &str) -> (r: Option<String>)
    ensures
        r matches Some(s) ==> tokei_language_named(name@) == Some(s@),
        r is None ==> tokei_language_named(name@) is None,
{
    tokei::LanguageType::from_name(name).map(|l| l.name().to_string())
}

/// Resolves configured language names to tokei's canonical names; the first unknown name is the
/// error.
pub fn languages_from_names(names: &Vec<String>) -> (r: Result<Vec<String>, String>)
    ensures
        match r {
            Ok(v) => v@.len() == names@.len() && forall|i: int| 0 <= i < names@.len()
                ==> tokei_language_named(#[trigger] names@[i]@) == Some(v@[i]@),
            Err(e) => exists|i: int| 0 <= i < names@.len() && #[trigger] names@[i]@ == e@
                && tokei_language_named(names@[i]@) is None
                && forall|j: int| 0 <= j < i ==> tokei_language_named(#[trigger] names@[j]@) is Some,
        },
{
    let mut out: Vec<String> = Vec::new();
    let mut i: usize = 0;
    while i < names.len()
        invariant
            i <= names@.len(),
            out@.len() == i,
            forall|j: int| 0 <= j < i ==> tokei_language_named(#[trigger] names@[j]@) == Some(out@[j]@),
        decreases names@.len() - i,
    {
        match language_named(names[i].as_str()) {
            Some(l) => out.push(l),
            None => {
                return Err(names[i].clone());
            },
        }
        i = i + 1;
    }
    Ok(out)
}

/// The deepest nesting of `{...}` groups in a glob pattern that the configuration accepts.
/// Turning a glob into a regex recurses once per level of nested groups, and this depth keeps
/// that recursion well within a thread's stack.
pub const MAX_GLOB_NESTING: usize = 1000;

/// The largest glob pattern, in bytes, that the configuration accepts. The automaton that matches
/// a glob's literal prefix or suffix numbers its states with 31-bit ids, one state per byte of
/// the literal; this size keeps them in range.
pub const MAX_PATTERN_BYTES: usize = 0x7000_0000;

/// One step of a scan of a glob pattern's bytes, for the nesting of its `{...}` groups. The state
/// holds the groups open so far, the deepest nesting seen, and where the scan stands: 0 in plain
/// text, 1 after a backslash (the next character is taken literally), 2 just after a `[`, 3 after
/// `[!` or `[^`, 4 inside a character class, which runs to the next `]` after its first member.
/// Braces inside a class or after a backslash are literal characters.
pub open spec fn brace_step(st: (nat, nat, u8), b: u8) -> (nat, nat, u8) {
    let (open, deepest, mode) = st;
    if mode == 1 {
        (open, deepest, 0)
    } else if mode == 2 {
        if b == 33u8 || b == 94u8 { (open, deepest, 3) } else { (open, deepest, 4) }
    } else if mode == 3 {
        (open, deepest, 4)
    } else if mode == 4 {
        if b == 93u8 { (open, deepest, 0) } else { st }
    } else if b == 92u8 {
        (open, deepest, 1)
    } else if b == 91u8 {
        (open, deepest, 2)
    } else if b == 123u8 {
        (open + 1, if deepest < open + 1 { open + 1 } else { deepest }, 0)
    } else if b == 125u8 {
        (if open > 0 { (open - 1) as nat } else { 0 }, deepest, 0)
    } else {
        st
    }
}

/// The state of the scan after the bytes `b`.
pub open spec fn brace_scan(b: Seq<u8>) -> (nat, nat, u8)
    decreases b.len(),
{
    if b.len() == 0 {
        (0, 0, 0)
    } else {
        brace_step(brace_scan(b.drop_last()), b.last())
    }
}

/// The deepest nesting of `{...}` groups in a glob pattern (in its UTF-8 text; the bytes of a
/// character beyond ASCII are never braces, brackets or backslashes).
pub open spec fn glob_nesting(pattern: Seq<char>) -> nat {
    brace_scan(vstd::utf8::encode_utf8(pattern)).1
}

/// A glob pattern that the glob builders can take: within `MAX_PATTERN_BYTES` and nested at most
/// `MAX_GLOB_NESTING` deep.
pub open spec fn pattern_in_limits(pattern: Seq<char>) -> bool {
    vstd::utf8::encode_utf8(pattern).len() <= MAX_PATTERN_BYTES && glob_nesting(pattern) <= MAX_GLOB_NESTING
}

/// Whether a glob pattern is within the limits of the glob builders.
pub fn in_limits(pattern: &str) -> (r: bool)
    ensures
        r == pattern_in_limits(pattern@),
{
    let b = pattern.as_bytes();
    if b.len() > MAX_PATTERN_BYTES {
        return false;
    }
    let mut open: usize = 0;
    let mut deepest: usize = 0;
    let mut mode: u8 = 0;
    let mut i: usize = 0;
    while i < b.len()
        invariant
            b@ == vstd::utf8::encode_utf8(pattern@),
            i <= b@.len(),
            open <= i,
            deepest <= i,
            mode <= 4,
            brace_scan(b@.take(i as int)) == (open as nat, deepest as nat, mode),
        decreases b@.len() - i,
    {
        proof {
            assert(b@.take(i + 1).drop_last() =~= b@.take(i as int));
            assert(b@.take(i + 1).last() == b@[i as int]);
            assert(brace_scan(b@.take(i + 1)) == brace_step(brace_scan(b@.take(i as int)), b@[i as int]));
        }
        let c = b[i];
        if mode == 1 {
            mode = 0;
        } else if mode == 2 {
            mode = if c == 33u8 || c == 94u8 { 3 } else { 4 };
        } else if mode == 3 {
            mode = 4;
        } else if mode == 4 {
            if c == 93u8 {
                mode = 0;
            }
        } else if c == 92u8 {
            mode = 1;
        } else if c == 91u8 {
            mode = 2;
        } else if c == 123u8 {
            open = open + 1;
            if deepest < open {
                deepest = open;
            }
        } else if c == 125u8 {
            if open > 0 {
                open = open - 1;
            }
        }
        i = i + 1;
    }
    assert(b@.take(i as int) =~= b@);
    deepest <= MAX_GLOB_NESTING
}

/// Whether `path` matches the glob `pattern` (built with `literal_separator`), `None` when the
/// pattern does not build into a matcher.
pub uninterp spec fn glob_outcome(pattern: Seq<char>, path: Seq<char>) -> Option<bool>;

/// Builds `pattern` with `globset::GlobBuilder` (`literal_separator(true)`), puts it alone in a
/// `globset::GlobSet` (`GlobSetBuilder::add`, `build`) and matches `path` against the set. Both
/// builds report their failures (a syntax error, or a regex past its nesting or size limits) as
/// errors, which come out as `None`. Trusted: the result is named `glob_outcome`, and it is
/// `Some` exactly when the same two builds, as `glob_parses` makes them, succeed.
#[verifier::external_body]
pub(crate) fn glob_match(pattern: &str, path: &str) -> (r: Option<bool>)
    requires
        pattern_in_limits(pattern@),
    ensures
        r == glob_outcome(pattern@, path@),
        r is Some == glob_valid(pattern@),
{
    match globset::GlobBuilder::new(pattern).literal_separator(true).build() {
        Ok(glob) => match globset::GlobSetBuilder::new().add(glob).build() {
            Ok(set) => Some(set.is_match(path)),
            Err(_) => None,
        },
        Err(_) => None,
    }
}

/// Whether `pattern` builds into a glob matcher (with `literal_separator`).
pub uninterp spec fn glob_valid(pattern: Seq<char>) -> bool;

/// Builds `pattern` with `globset::GlobBuilder` (`literal_separator(true)`) and then a
/// `globset::GlobSet` holding it, and reports whether both builds succeed. Trusted: the answer is
/// named `glob_valid`.
#[verifier::external_body]
pub(crate) fn glob_parses(pattern: &str) -> (r: bool)
    requires
        pattern_in_limits(pattern@),
    ensures
        r == glob_valid(pattern@),
{
    match globset::GlobBuilder::new(pattern).literal_separator(true).build() {
        Ok(glob) => globset::GlobSetBuilder::new().add(glob).build().is_ok(),
        Err(_) => false,
    }
}

/// Whether the configuration accepts `pattern`: it is within the limits of the glob builders and
/// builds into a glob matcher.
pub open spec fn pattern_accepted(pattern: Seq<char>) -> bool {
    pattern_in_limits(pattern) && glob_valid(pattern)
}

/// Checks the glob patterns of a configuration (pattern, settings); the first one that is not
/// accepted (past the limits of the glob builders, or not building into a matcher) is the error, and otherwise the
/// configuration is handed back.
pub fn parse_config(config: Vec<(String, RepoConfig)>) -> (r: Result<Vec<(String, RepoConfig)>, String>)
    ensures
        r matches Ok(v) ==> v@ == config@ && forall|i: int| 0 <= i < config@.len() ==> pattern_accepted(#[trigger] config@[i].0@),
        r matches Err(e) ==> exists|i: int| 0 <= i < config@.len() && #[trigger] config@[i].0@ == e@
            && !pattern_accepted(e@)
            && forall|j: int| 0 <= j < i ==> pattern_accepted(#[trigger] config@[j].0@),
{
    let mut i: usize = 0;
    while i < config.len()
        invariant
            i <= config@.len(),
            forall|j: int| 0 <= j < i ==> pattern_accepted(#[trigger] config@[j].0@),
        decreases config@.len() - i,
    {
        let pattern = config[i].0.as_str();
        if !in_limits(pattern) || !glob_parses(pattern) {
            return Err(config[i].0.clone());
        }
        i = i + 1;
    }
    Ok(config)
}

/// The configuration that applies to a repository: the default settings merged, in order, with
/// those of every pattern that matches its path.
pub open spec fn applies(pattern: Seq<char>, repo: Seq<char>) -> bool {
    pattern_in_limits(pattern) && glob_outcome(pattern, repo) == Some(true)
}

/// The settings of the matching patterns among the first `n`, in order.
pub open spec fn matching_upto(config: Seq<(String, RepoConfig)>, repo: Seq<char>, n: int) -> Seq<int>
    decreases n,
{
    if n <= 0 {
        Seq::empty()
    } else if applies(config[n - 1].0@, repo) {
        matching_upto(config, repo, n - 1).push(n - 1)
    } else {
        matching_upto(config, repo, n - 1)
    }
}

/// Resolves the settings of a repository: the default settings merged, in the configuration's
/// order, with those of every pattern that matches the repository's path.
pub fn configure_repo(repo: &str, config: &Vec<(String, RepoConfig)>) -> (r: RepoConfig)
    ensures
        ({
            let m = matching_upto(config@, repo@, config@.len() as int);
            &&& r.ignore == exists|k: int| 0 <= k < m.len() && config@[#[trigger] m[k]].1.ignore
            &&& r.archived == exists|k: int| 0 <= k < m.len() && config@[#[trigger] m[k]].1.archived
            &&& r.min_lines >= 1
            &&& forall|k: int| 0 <= k < m.len() ==> r.min_lines >= config@[#[trigger] m[k]].1.min_lines
            &&& (r.min_lines == 1 || exists|k: int| 0 <= k < m.len() && r.min_lines == config@[#[trigger] m[k]].1.min_lines)
            &&& texts(r.skip_languages@) == m.map_values(|k: int| texts(config@[k].1.skip_languages@)).flatten()
            &&& (r.fork_priority is None <==> forall|k: int| 0 <= k < m.len() ==> config@[#[trigger] m[k]].1.fork_priority is None)
            &&& (r.fork_priority matches Some(p) ==> (forall|k: int| 0 <= k < m.len() && config@[#[trigger] m[k]].1.fork_priority is Some
                ==> p <= config@[m[k]].1.fork_priority->0) && exists|k: int| 0 <= k < m.len() && config@[#[trigger] m[k]].1.fork_priority == Some(p))
            &&& (r.from_time is None <==> forall|k: int| 0 <= k < m.len() ==> config@[#[trigger] m[k]].1.from_time is None)
            &&& (r.from_time matches Some(d) ==> (forall|k: int| 0 <= k < m.len() && config@[#[trigger] m[k]].1.from_time is Some
                ==> !d.spec_before(config@[m[k]].1.from_time->0)) && exists|k: int| 0 <= k < m.len() && config@[#[trigger] m[k]].1.from_time == Some(d))
        }),
{
    let mut acc = RepoConfig::default();
    let mut i: usize = 0;
    while i < config.len()
        invariant
            i <= config@.len(),
            ({
                let m = matching_upto(config@, repo@, i as int);
                &&& forall|k: int| 0 <= k < m.len() ==> 0 <= #[trigger] m[k] < i
                &&& acc.ignore == exists|k: int| 0 <= k < m.len() && config@[#[trigger] m[k]].1.ignore
                &&& acc.archived == exists|k: int| 0 <= k < m.len() && config@[#[trigger] m[k]].1.archived
                &&& acc.min_lines >= 1
                &&& forall|k: int| 0 <= k < m.len() ==> acc.min_lines >= config@[#[trigger] m[k]].1.min_lines
                &&& (acc.min_lines == 1 || exists|k: int| 0 <= k < m.len() && acc.min_lines == config@[#[trigger] m[k]].1.min_lines)
                &&& texts(acc.skip_languages@) == m.map_values(|k: int| texts(config@[k].1.skip_languages@)).flatten()
                &&& (acc.fork_priority is None <==> forall|k: int| 0 <= k < m.len() ==> config@[#[trigger] m[k]].1.fork_priority is None)
                &&& (acc.fork_priority matches Some(p) ==> (forall|k: int| 0 <= k < m.len() && config@[#[trigger] m[k]].1.fork_priority is Some
                    ==> p <= config@[m[k]].1.fork_priority->0) && exists|k: int| 0 <= k < m.len() && config@[#[trigger] m[k]].1.fork_priority == Some(p))
                &&& (acc.from_time is None <==> forall|k: int| 0 <= k < m.len() ==> config@[#[trigger] m[k]].1.from_time is None)
                &&& (acc.from_time matches Some(d) ==> (forall|k: int| 0 <= k < m.len() && config@[#[trigger] m[k]].1.from_time is Some
                    ==> !d.spec_before(config@[m[k]].1.from_time->0)) && exists|k: int| 0 <= k < m.len() && config@[#[trigger] m[k]].1.from_time == Some(d))
            }),
        decreases config@.len() - i,
    {
        let ghost m0 = matching_upto(config@, repo@, i as int);
        let pattern = config[i].0.as_str();
        let matched = if in_limits(pattern) {
            glob_match(pattern, repo)
        } else {
            None
        };
        if matched == Some(true) {
            let ghost prev = acc;
            acc = acc.merge(&config[i].1);
            proof {
                let m1 = matching_upto(config@, repo@, i + 1);
                assert(m1 == m0.push(i as int));
                let c = config@[i as int].1;
                assert(m1.map_values(|k: int| texts(config@[k].1.skip_languages@)) =~= m0.map_values(
                    |k: int| texts(config@[k].1.skip_languages@),
                ).push(texts(c.skip_languages@)));
                m0.map_values(|k: int| texts(config@[k].1.skip_languages@)).lemma_flatten_push(texts(c.skip_languages@));
                assert(m1[m0.len() as int] == i as int);
                assert forall|k: int| 0 <= k < m1.len() implies 0 <= #[trigger] m1[k] < i + 1 by {
                    if k < m0.len() {
                        assert(m1[k] == m0[k]);
                    }
                }
                if acc.ignore {
                    if !c.ignore {
                        let k = choose|k: int| 0 <= k < m0.len() && config@[#[trigger] m0[k]].1.ignore;
                        assert(m1[k] == m0[k]);
                    }
                } else {
                    assert forall|k: int| 0 <= k < m1.len() implies !config@[#[trigger] m1[k]].1.ignore by {
                        if k < m0.len() {
                            assert(m1[k] == m0[k]);
                        }
                    }
                }
                if acc.archived {
                    if !c.archived {
                        let k = choose|k: int| 0 <= k < m0.len() && config@[#[trigger] m0[k]].1.archived;
                        assert(m1[k] == m0[k]);
                    }
                } else {
                    assert forall|k: int| 0 <= k < m1.len() implies !config@[#[trigger] m1[k]].1.archived by {
                        if k < m0.len() {
                            assert(m1[k] == m0[k]);
                        }
                    }
                }
                assert forall|k: int| 0 <= k < m1.len() implies acc.min_lines >= config@[#[trigger] m1[k]].1.min_lines by {
                    if k < m0.len() {
                        assert(m1[k] == m0[k]);
                    }
                }
                if acc.min_lines != 1 {
                    if acc.min_lines == c.min_lines {
                    } else {
                        let k = choose|k: int| 0 <= k < m0.len() && prev.min_lines == config@[#[trigger] m0[k]].1.min_lines;
                        assert(m1[k] == m0[k]);
                    }
                }
                assert forall|k: int| 0 <= k < m1.len() && config@[#[trigger] m1[k]].1.fork_priority is Some
                    implies acc.fork_priority is Some && acc.fork_priority->0 <= config@[m1[k]].1.fork_priority->0 by {
                    if k < m0.len() {
                        assert(m1[k] == m0[k]);
                    }
                }
                if acc.fork_priority is None {
                    assert forall|k: int| 0 <= k < m1.len() implies config@[#[trigger] m1[k]].1.fork_priority is None by {
                        if k < m0.len() {
                            assert(m1[k] == m0[k]);
                        }
                    }
                } else if prev.fork_priority is Some && acc.fork_priority == prev.fork_priority {
                    let k = choose|k: int| 0 <= k < m0.len() && config@[#[trigger] m0[k]].1.fork_priority == prev.fork_priority;
                    assert(m1[k] == m0[k]);
                } else {
                    assert(config@[m1[m0.len() as int]].1.fork_priority == acc.fork_priority);
                }
                assert forall|k: int| 0 <= k < m1.len() && config@[#[trigger] m1[k]].1.from_time is Some
                    implies acc.from_time is Some && !acc.from_time->0.spec_before(config@[m1[k]].1.from_time->0) by {
                    if k < m0.len() {
                        assert(m1[k] == m0[k]);
                    }
                }
                if acc.from_time is None {
                    assert forall|k: int| 0 <= k < m1.len() implies config@[#[trigger] m1[k]].1.from_time is None by {
                        if k < m0.len() {
                            assert(m1[k] == m0[k]);
                        }
                    }
                } else if prev.from_time is Some && acc.from_time == prev.from_time {
                    let k = choose|k: int| 0 <= k < m0.len() && config@[#[trigger] m0[k]].1.from_time == prev.from_time;
                    assert(m1[k] == m0[k]);
                } else {
                    assert(config@[m1[m0.len() as int]].1.from_time == acc.from_time);
                }
            }
        } else {
            proof {
                assert(matching_upto(config@, repo@, i + 1) == m0);
            }
        }
        i = i + 1;
    }
    acc
}

} // verus!
