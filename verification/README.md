# hloc

**hloc** (Historical Lines of Code) scans a directory tree for Git repositories and reports how
their lines of code evolved over time, sampling one commit per week, month or quarter.

This crate is written in Verus: `src/` is the verified library, whose functions carry
`requires`/`ensures` contracts that Verus proves; `app/` is the command line program around it
(argument parsing, Git access, parallel counting, progress display and report files).

Layout of `src/`:

- `history_trie.rs`: fork detection. Repositories' sampled histories go into a trie; each commit
  shared by several repositories is kept by exactly one of them, the best ranked (lowest fork
  priority, then path order).
- `count.rs`: sampling commits per period, removing the commits of forks, filling the gaps of
  each history and dropping repositories under their minimum line count.
- `time_period.rs`, `year_month.rs`, `dates.rs`: ISO weeks, months and quarters, their ordering,
  succession and inclusive iteration; calendar dates.
- `stats.rs`, `charts.rs`: line counts per language and the data of the report's two charts.
- `config.rs`: per-repository settings and how matching glob patterns merge them.
- `languages.rs`: language detection by file name, extension or shebang line.
- `util.rs`, `paths.rs`, `text.rs`, `git.rs`, `setup.rs`: helpers on paths, strings, object ids
  and the automatic choice of the sampling period.

The report's page, script and style are read at run time from a `templates/` directory.
