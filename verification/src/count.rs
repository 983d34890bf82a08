//! The post-processing of the counts: sampling commits per period, fork detection, filling the
//! gaps of each history and dropping repositories that stay too small.
use vstd::prelude::*;

use crate::config::RepoConfig;
use crate::dates::{CalendarDate, MAX_EPOCH_SECONDS, datetime_from_epoch_seconds, utc_date_of};
use crate::languages::{
    LanguageGuess, code_lines, detect_language, detect_language_from_shebang, guess_of, language_of_shebang, tokei_code_lines,
};
use crate::text::{str_eq, texts};
use crate::git::CommitId;
use crate::history_trie::{
    HistoryTrie, Insertion, distinct_repos, entry_answered, key_lt, lemma_identical_history_keeps_nothing,
    lemma_priority_of_distinct, entry_matches, insertion_answered, kept_commits,
    lemma_first_path_names,
};
use crate::paths::{path_components_of, same_path};
use crate::stats::{CodeStats, CountsView, HistoricStats, Stats, sorted_periods};
use crate::time_period::{TimePeriod, iter_to, key_before, lemma_periods_from, period_le, periods_from};

verus! {

/// The counts of the last period of `s` that does not come after `p`; no counts when there is
/// none.
pub open spec fn floor_view<P: TimePeriod>(s: Seq<(P, CodeStats)>, p: P) -> CountsView
    decreases s.len(),
{
    if s.len() == 0 {
        Seq::empty()
    } else if period_le(s.last().0, p) {
        s.last().1@
    } else {
        floor_view(s.drop_last(), p)
    }
}

/// `s` has an entry for period `p`.
pub open spec fn has_period<P: TimePeriod>(s: Seq<(P, CodeStats)>, p: P) -> bool {
    exists|i: int| 0 <= i < s.len() && (#[trigger] s[i]).0 == p
}

/// `r` has an entry for period `p` with counts `v`.
pub open spec fn holds_entry<P: TimePeriod>(r: Seq<(P, CodeStats)>, p: P, v: CountsView) -> bool {
    exists|j: int| 0 <= j < r.len() && (#[trigger] r[j]).0 == p && r[j].1@ == v
}

/// `r` is `s` with a gap filled at each period of `visit` that `s` lacks: the entries of `s`
/// are kept as they are, every period of `visit` is present, and an added period holds the
/// counts of the last period of `s` before it (none when there is no such period).
pub open spec fn gaps_filled<P: TimePeriod>(s: Seq<(P, CodeStats)>, visit: Seq<P>, r: Seq<(P, CodeStats)>) -> bool {
    &&& sorted_periods(r)
    &&& forall|i: int| 0 <= i < s.len() ==> holds_entry(r, (#[trigger] s[i]).0, s[i].1@)
    &&& forall|k: int| 0 <= k < visit.len() ==> has_period(r, #[trigger] visit[k])
    &&& forall|j: int| 0 <= j < r.len() ==> {
        ||| holds_entry(s, (#[trigger] r[j]).0, r[j].1@)
        ||| visit.contains(r[j].0) && !has_period(s, r[j].0) && r[j].1@ == floor_view(s, r[j].0)
    }
    &&& forall|j: int| 0 <= j < r.len() ==> (#[trigger] r[j]).1.wf()
}

proof fn lemma_floor_at<P: TimePeriod>(s: Seq<(P, CodeStats)>, p: P, i: int)
    requires
        0 <= i <= s.len(),
        forall|j: int| 0 <= j < i ==> period_le((#[trigger] s[j]).0, p),
        forall|j: int| i <= j < s.len() ==> key_before(p.key(), (#[trigger] s[j]).0.key()),
    ensures
        floor_view(s, p) == if i > 0 { s[i - 1].1@ } else { Seq::empty() },
    decreases s.len(),
{
    if s.len() > 0 {
        if i == s.len() {
            assert(period_le(s[i - 1].0, p));
        } else {
            assert(key_before(p.key(), s[s.len() - 1].0.key()));
            assert forall|j: int| 0 <= j < i implies period_le((#[trigger] s.drop_last()[j]).0, p) by {
                assert(s.drop_last()[j] == s[j]);
            }
            assert forall|j: int| i <= j < s.len() - 1 implies key_before(p.key(), (#[trigger] s.drop_last()[j]).0.key()) by {
                assert(s.drop_last()[j] == s[j]);
            }
            lemma_floor_at(s.drop_last(), p, i);
            if i > 0 {
                assert(s.drop_last()[i - 1] == s[i - 1]);
            }
        }
    }
}

/// Merges the periods of a history with the periods to visit, filling each gap with the counts
/// of the last period before it.
fn fill_periods<P: TimePeriod>(old: &Vec<(P, CodeStats)>, visit: &Vec<P>) -> (r: Vec<(P, CodeStats)>)
    requires
        sorted_periods(old@),
        forall|i: int| 0 <= i < old@.len() ==> (#[trigger] old@[i]).1.wf(),
        forall|k: int| 0 <= k < visit@.len() ==> (#[trigger] visit@[k]).well_formed() && visit@[k].has_successor(),
        forall|k: int, l: int| 0 <= k < l < visit@.len() ==> key_before((#[trigger] visit@[k]).key(), (#[trigger] visit@[l]).key()),
    ensures
        gaps_filled(old@, visit@, r@),
{
    let mut r: Vec<(P, CodeStats)> = Vec::new();
    let mut i: usize = 0;
    let mut k: usize = 0;
    while i < old.len() || k < visit.len()
        invariant
            i <= old@.len(),
            k <= visit@.len(),
            sorted_periods(old@),
            forall|i2: int| 0 <= i2 < old@.len() ==> (#[trigger] old@[i2]).1.wf(),
            forall|k2: int| 0 <= k2 < visit@.len() ==> (#[trigger] visit@[k2]).well_formed() && visit@[k2].has_successor(),
            forall|k2: int, l: int| 0 <= k2 < l < visit@.len() ==> key_before((#[trigger] visit@[k2]).key(), (#[trigger] visit@[l]).key()),
            sorted_periods(r@),
            forall|j: int| 0 <= j < r@.len() ==> (#[trigger] r@[j]).1.wf(),
            i < old@.len() ==> forall|j: int| 0 <= j < r@.len() ==> key_before((#[trigger] r@[j]).0.key(), old@[i as int].0.key()),
            k < visit@.len() ==> forall|j: int| 0 <= j < r@.len() ==> key_before((#[trigger] r@[j]).0.key(), visit@[k as int].key()),
            forall|i2: int| 0 <= i2 < i ==> holds_entry(r@, (#[trigger] old@[i2]).0, old@[i2].1@),
            forall|k2: int| 0 <= k2 < k ==> has_period(r@, #[trigger] visit@[k2]),
            forall|j: int| 0 <= j < r@.len() ==> {
                ||| holds_entry(old@, (#[trigger] r@[j]).0, r@[j].1@)
                ||| visit@.contains(r@[j].0) && !has_period(old@, r@[j].0) && r@[j].1@ == floor_view(old@, r@[j].0)
            },
        decreases old@.len() - i + visit@.len() - k,
    {
        let ghost r0 = r@;
        let take_old = i < old.len() && (k >= visit.len() || !visit[k].precedes(&old[i].0));
        if take_old {
            let same = k < visit.len() && visit[k].same(&old[i].0);
            let entry = (old[i].0, old[i].1.duplicate());
            r.push(entry);
            proof {
                let p = old@[i as int].0;
                let e = r@[r0.len() as int];
                assert(e.0 == p && e.1@ == old@[i as int].1@);
                assert forall|j: int| 0 <= j < r@.len() implies (#[trigger] r@[j]).0.well_formed() && r@[j].0.has_successor() by {
                    if j < r0.len() {
                        assert(r@[j] == r0[j]);
                    }
                }
                assert forall|j: int, l: int| 0 <= j < l < r@.len() implies key_before((#[trigger] r@[j]).0.key(), (#[trigger] r@[l]).0.key()) by {
                    assert(r@[j] == r0[j]);
                    if l < r0.len() {
                        assert(r@[l] == r0[l]);
                    }
                }
                if i + 1 < old@.len() {
                    assert forall|j: int| 0 <= j < r@.len() implies key_before((#[trigger] r@[j]).0.key(), old@[i + 1].0.key()) by {
                        if j < r0.len() {
                            assert(r@[j] == r0[j]);
                        }
                    }
                }
                let k1: int = if same { k + 1 } else { k as int };
                if k1 < visit@.len() {
                    assert forall|j: int| 0 <= j < r@.len() implies key_before((#[trigger] r@[j]).0.key(), visit@[k1].key()) by {
                        if j < r0.len() {
                            assert(r@[j] == r0[j]);
                            if same {
                                assert(key_before(visit@[k as int].key(), visit@[k1].key()));
                            }
                        } else if !same {
                            P::lemma_order(visit@[k as int], p);
                        }
                    }
                }
                assert forall|i2: int| 0 <= i2 < i + 1 implies holds_entry(r@, (#[trigger] old@[i2]).0, old@[i2].1@) by {
                    if i2 < i {
                        let j = choose|j: int| 0 <= j < r0.len() && (#[trigger] r0[j]).0 == old@[i2].0 && r0[j].1@ == old@[i2].1@;
                        assert(r@[j].0 == old@[i2].0 && r@[j].1@ == old@[i2].1@);
                        assert(r@[j] == r0[j]);
                    } else {
                        assert(r@[r0.len() as int].0 == old@[i2].0 && r@[r0.len() as int].1@ == old@[i2].1@);
                    }
                }
                assert forall|k2: int| 0 <= k2 < k1 implies has_period(r@, #[trigger] visit@[k2]) by {
                    if k2 < k {
                        let j = choose|j: int| 0 <= j < r0.len() && (#[trigger] r0[j]).0 == visit@[k2];
                        assert(r@[j] == r0[j]);
                    } else {
                        assert(r@[r0.len() as int].0 == visit@[k2]);
                    }
                }
                assert forall|j: int| 0 <= j < r@.len() implies {
                    ||| holds_entry(old@, (#[trigger] r@[j]).0, r@[j].1@)
                    ||| visit@.contains(r@[j].0) && !has_period(old@, r@[j].0) && r@[j].1@ == floor_view(old@, r@[j].0)
                } by {
                    if j < r0.len() {
                        assert(r@[j] == r0[j]);
                    } else {
                        assert(old@[i as int].0 == r@[j].0 && old@[i as int].1@ == r@[j].1@);
                    }
                }
                assert forall|j: int| 0 <= j < r@.len() implies (#[trigger] r@[j]).1.wf() by {
                    if j < r0.len() {
                        assert(r@[j] == r0[j]);
                    }
                }
            }
            i = i + 1;
            if same {
                k = k + 1;
            }
        } else {
            let p = visit[k];
            let floor = if i > 0 {
                old[i - 1].1.duplicate()
            } else {
                CodeStats::new()
            };
            proof {
                assert forall|j: int| 0 <= j < i implies period_le((#[trigger] old@[j]).0, p) by {
                    let jr = choose|jr: int| 0 <= jr < r0.len() && (#[trigger] r0[jr]).0 == old@[j].0 && r0[jr].1@ == old@[j].1@;
                    assert(key_before(r0[jr].0.key(), p.key()));
                }
                if i < old@.len() {
                    P::lemma_order(p, old@[i as int].0);
                    assert forall|j: int| i <= j < old@.len() implies key_before(p.key(), (#[trigger] old@[j]).0.key()) by {
                        if j > i {
                            assert(key_before(old@[i as int].0.key(), old@[j].0.key()));
                        }
                    }
                }
                lemma_floor_at(old@, p, i as int);
                assert(!has_period(old@, p)) by {
                    if has_period(old@, p) {
                        let j = choose|j: int| 0 <= j < old@.len() && (#[trigger] old@[j]).0 == p;
                        if j < i {
                            let jr = choose|jr: int| 0 <= jr < r0.len() && (#[trigger] r0[jr]).0 == old@[j].0 && r0[jr].1@ == old@[j].1@;
                            assert(key_before(r0[jr].0.key(), p.key()));
                        }
                    }
                }
                if i > 0 {
                    assert(old@[i - 1].1.wf());
                }
            }
            r.push((p, floor));
            proof {
                let e = r@[r0.len() as int];
                assert(visit@.contains(p)) by {
                    assert(visit@[k as int] == p);
                }
                assert forall|j: int| 0 <= j < r@.len() implies (#[trigger] r@[j]).0.well_formed() && r@[j].0.has_successor() by {
                    if j < r0.len() {
                        assert(r@[j] == r0[j]);
                    }
                }
                assert forall|j: int, l: int| 0 <= j < l < r@.len() implies key_before((#[trigger] r@[j]).0.key(), (#[trigger] r@[l]).0.key()) by {
                    assert(r@[j] == r0[j]);
                    if l < r0.len() {
                        assert(r@[l] == r0[l]);
                    }
                }
                if i < old@.len() {
                    P::lemma_order(p, old@[i as int].0);
                    assert forall|j: int| 0 <= j < r@.len() implies key_before((#[trigger] r@[j]).0.key(), old@[i as int].0.key()) by {
                        if j < r0.len() {
                            assert(r@[j] == r0[j]);
                        }
                    }
                }
                if k + 1 < visit@.len() {
                    assert forall|j: int| 0 <= j < r@.len() implies key_before((#[trigger] r@[j]).0.key(), visit@[k + 1].key()) by {
                        if j < r0.len() {
                            assert(r@[j] == r0[j]);
                            assert(key_before(visit@[k as int].key(), visit@[k + 1].key()));
                        }
                    }
                }
                assert forall|i2: int| 0 <= i2 < i implies holds_entry(r@, (#[trigger] old@[i2]).0, old@[i2].1@) by {
                    let j = choose|j: int| 0 <= j < r0.len() && (#[trigger] r0[j]).0 == old@[i2].0 && r0[j].1@ == old@[i2].1@;
                        assert(r@[j].0 == old@[i2].0 && r@[j].1@ == old@[i2].1@);
                    assert(r@[j] == r0[j]);
                }
                assert forall|k2: int| 0 <= k2 < k + 1 implies has_period(r@, #[trigger] visit@[k2]) by {
                    if k2 < k {
                        let j = choose|j: int| 0 <= j < r0.len() && (#[trigger] r0[j]).0 == visit@[k2];
                        assert(r@[j] == r0[j]);
                    } else {
                        assert(r@[r0.len() as int].0 == visit@[k2]);
                    }
                }
                assert forall|j: int| 0 <= j < r@.len() implies {
                    ||| holds_entry(old@, (#[trigger] r@[j]).0, r@[j].1@)
                    ||| visit@.contains(r@[j].0) && !has_period(old@, r@[j].0) && r@[j].1@ == floor_view(old@, r@[j].0)
                } by {
                    if j < r0.len() {
                        assert(r@[j] == r0[j]);
                    }
                }
                assert forall|j: int| 0 <= j < r@.len() implies (#[trigger] r@[j]).1.wf() by {
                    if j < r0.len() {
                        assert(r@[j] == r0[j]);
                    }
                }
            }
            k = k + 1;
        }
    }
    r
}

} // verus!

verus! {

/// The settings of the first configuration entry for a repository path, if any.
pub open spec fn config_of(configs: Seq<(String, RepoConfig)>, path: Seq<char>) -> Option<RepoConfig>
    decreases configs.len(),
{
    if configs.len() == 0 {
        None
    } else if configs[0].0@ == path {
        Some(configs[0].1)
    } else {
        config_of(configs.drop_first(), path)
    }
}

/// Finds the settings of a repository (the first entry with the same path).
fn find_config(configs: &Vec<(String, RepoConfig)>, path: &String) -> (r: Option<usize>)
    ensures
        match r {
            Some(i) => i < configs@.len() && config_of(configs@, path@) == Some(configs@[i as int].1),
            None => config_of(configs@, path@) is None,
        },
{
    let mut i: usize = 0;
    assert(configs@.skip(0) =~= configs@);
    while i < configs.len()
        invariant
            i <= configs@.len(),
            config_of(configs@, path@) == config_of(configs@.skip(i as int), path@),
        decreases configs@.len() - i,
    {
        assert(configs@.skip(i as int)[0] == configs@[i as int]);
        if configs[i].0 == *path {
            return Some(i);
        }
        assert(configs@.skip(i as int).drop_first() =~= configs@.skip(i + 1));
        i = i + 1;
    }
    None
}

/// The last period up to which the history of a repository is filled: its last commit's period
/// when it is archived, the present one otherwise.
pub open spec fn fill_end<P: TimePeriod>(archived: bool, periods: Seq<(P, CodeStats)>, this_period: P) -> P {
    if archived {
        periods.last().0
    } else {
        this_period
    }
}

/// Each history's periods are well formed and sorted, with well-formed counts.
pub open spec fn histories_ok<P: TimePeriod>(repos: Seq<(String, HistoricStats<P>)>) -> bool {
    forall|i: int| 0 <= i < repos.len() ==> {
        &&& sorted_periods((#[trigger] repos[i]).1.periods@)
        &&& forall|j: int| 0 <= j < repos[i].1.periods@.len() ==> (#[trigger] repos[i].1.periods@[j]).1.wf()
    }
}

/// Every repository has its settings, and an archived one has at least one period.
pub open spec fn configured<P: TimePeriod>(repos: Seq<(String, HistoricStats<P>)>, configs: Seq<(String, RepoConfig)>) -> bool {
    forall|i: int| 0 <= i < repos.len() ==> {
        &&& config_of(configs, (#[trigger] repos[i]).0@) is Some
        &&& config_of(configs, repos[i].0@)->0.archived ==> repos[i].1.periods@.len() > 0
    }
}

/// Fills the gaps of every history from `min_period` to the present period (to its last commit
/// for an archived repository): a missing period takes the counts of the last known period
/// before it, the stale repository being assumed unchanged.
pub fn fill_gaps<P: TimePeriod>(
    stats: &mut Stats<P>,
    configs: &Vec<(String, RepoConfig)>,
    min_period: P,
    this_period: P,
)
    requires
        min_period.well_formed(),
        this_period.well_formed(),
        this_period.has_successor(),
        histories_ok(old(stats).repositories@),
        configured(old(stats).repositories@, configs@),
    ensures
        final(stats).from == old(stats).from,
        final(stats).to == old(stats).to,
        final(stats).repositories@.len() == old(stats).repositories@.len(),
        histories_ok(final(stats).repositories@),
        forall|i: int| 0 <= i < old(stats).repositories@.len() ==> {
            let before = (#[trigger] old(stats).repositories@[i]);
            let after = final(stats).repositories@[i];
            let archived = config_of(configs@, before.0@)->0.archived;
            &&& after.0 == before.0
            &&& gaps_filled(
                before.1.periods@,
                periods_from(min_period, fill_end(archived, before.1.periods@, this_period)),
                after.1.periods@,
            )
        },
{
    let ghost orig = stats.repositories@;
    let mut old_repos: Vec<(String, HistoricStats<P>)> = Vec::new();
    std::mem::swap(&mut old_repos, &mut stats.repositories);
    let mut new_repos: Vec<(String, HistoricStats<P>)> = Vec::new();
    let ghost mut n: int = 0;
    while old_repos.len() > 0
        invariant
            0 <= n <= orig.len(),
            old_repos@ == orig.skip(n),
            new_repos@.len() == n,
            min_period.well_formed(),
            this_period.well_formed(),
            this_period.has_successor(),
            histories_ok(orig),
            configured(orig, configs@),
            histories_ok(new_repos@),
            forall|i: int| 0 <= i < n ==> {
                let before = (#[trigger] orig[i]);
                let after = new_repos@[i];
                let archived = config_of(configs@, before.0@)->0.archived;
                &&& after.0 == before.0
                &&& gaps_filled(
                    before.1.periods@,
                    periods_from(min_period, fill_end(archived, before.1.periods@, this_period)),
                    after.1.periods@,
                )
            },
        decreases old_repos@.len(),
    {
        let ghost rest = old_repos@;
        let (path, historic) = old_repos.remove(0);
        proof {
            assert(rest[0] == orig[n]);
            assert(old_repos@ =~= orig.skip(n + 1));
        }
        let ci = find_config(configs, &path).unwrap();
        let archived = configs[ci].1.archived;
        let end = if archived {
            historic.periods[historic.periods.len() - 1].0
        } else {
            this_period
        };
        proof {
            assert(end == fill_end(archived, historic.periods@, this_period));
        }
        let visit = iter_to(min_period, end).collect_all();
        proof {
            lemma_periods_from(min_period, end);
        }
        let filled = fill_periods(&historic.periods, &visit);
        let ghost new_before = new_repos@;
        new_repos.push((path, HistoricStats { periods: filled }));
        proof {
            assert forall|i: int| 0 <= i < n + 1 implies {
                let before = (#[trigger] orig[i]);
                let after = new_repos@[i];
                let archived = config_of(configs@, before.0@)->0.archived;
                &&& after.0 == before.0
                &&& gaps_filled(
                    before.1.periods@,
                    periods_from(min_period, fill_end(archived, before.1.periods@, this_period)),
                    after.1.periods@,
                )
            } by {
                if i < n {
                    assert(new_repos@[i] == new_before[i]);
                }
            }
            assert forall|i: int| 0 <= i < new_repos@.len() implies {
                &&& sorted_periods((#[trigger] new_repos@[i]).1.periods@)
                &&& forall|j: int| 0 <= j < new_repos@[i].1.periods@.len() ==> (#[trigger] new_repos@[i].1.periods@[j]).1.wf()
            } by {
                if i < n {
                    assert(new_repos@[i] == new_before[i]);
                }
            }
            n = n + 1;
        }
    }
    stats.repositories = new_repos;
}

} // verus!

verus! {

/// Some period of a history has, for some language, at least `min_lines` lines.
pub open spec fn reaches_min<P: TimePeriod>(periods: Seq<(P, CodeStats)>, min_lines: u32) -> bool {
    exists|i: int, k: int| 0 <= i < periods.len() && 0 <= k < periods[i].1@.len() && (#[trigger] periods[i].1@[k]).1 >= min_lines
}

/// The repositories that reached their configured minimum line count, in order.
pub open spec fn retained<P: TimePeriod>(repos: Seq<(String, HistoricStats<P>)>, configs: Seq<(String, RepoConfig)>) -> Seq<(String, HistoricStats<P>)>
    decreases repos.len(),
{
    if repos.len() == 0 {
        Seq::empty()
    } else {
        let rest = retained(repos.drop_last(), configs);
        let e = repos.last();
        if reaches_min(e.1.periods@, config_of(configs, e.0@)->0.min_lines) {
            rest.push(e)
        } else {
            rest
        }
    }
}

fn history_reaches<P: TimePeriod>(periods: &Vec<(P, CodeStats)>, min_lines: u32) -> (r: bool)
    ensures
        r == reaches_min(periods@, min_lines),
{
    let mut i: usize = 0;
    while i < periods.len()
        invariant
            i <= periods@.len(),
            forall|i2: int, k: int| 0 <= i2 < i && 0 <= k < periods@[i2].1@.len() ==> (#[trigger] periods@[i2].1@[k]).1 < min_lines,
        decreases periods@.len() - i,
    {
        if periods[i].1.reaches(min_lines as usize) {
            return true;
        }
        i = i + 1;
    }
    false
}

/// The repositories that remain after dropping those under their minimum line count: a
/// repository remains exactly when some period of its history (any one, not only the last) has,
/// in some language, at least its configured `min_lines`; the remaining ones keep their order
/// and are among the given ones.
pub proof fn lemma_retained<P: TimePeriod>(repos: Seq<(String, HistoricStats<P>)>, configs: Seq<(String, RepoConfig)>)
    ensures
        retained(repos, configs).len() <= repos.len(),
        forall|e: (String, HistoricStats<P>)| #[trigger] retained(repos, configs).contains(e) <==> {
            &&& repos.contains(e)
            &&& exists|i: int, k: int| 0 <= i < e.1.periods@.len() && 0 <= k < e.1.periods@[i].1.languages@.len()
                && #[trigger] e.1.periods@[i].1.languages@[k].1 >= config_of(configs, e.0@)->0.min_lines
        },
    decreases repos.len(),
{
    if repos.len() > 0 {
        let rest = repos.drop_last();
        lemma_retained(rest, configs);
        let last = repos.last();
        let m = config_of(configs, last.0@)->0.min_lines;
        let p = last.1.periods@;
        assert(reaches_min(p, m) <==> exists|i: int, k: int| 0 <= i < p.len() && 0 <= k < p[i].1.languages@.len()
            && #[trigger] p[i].1.languages@[k].1 >= m) by {
            if reaches_min(p, m) {
                let (i, k) = choose|i: int, k: int| 0 <= i < p.len() && 0 <= k < p[i].1@.len() && (#[trigger] p[i].1@[k]).1 >= m;
                assert(p[i].1@[k] == (p[i].1.languages@[k].0@, p[i].1.languages@[k].1));
            }
            if exists|i: int, k: int| 0 <= i < p.len() && 0 <= k < p[i].1.languages@.len() && #[trigger] p[i].1.languages@[k].1 >= m {
                let (i, k) = choose|i: int, k: int| 0 <= i < p.len() && 0 <= k < p[i].1.languages@.len()
                    && #[trigger] p[i].1.languages@[k].1 >= m;
                assert(p[i].1@[k] == (p[i].1.languages@[k].0@, p[i].1.languages@[k].1));
            }
        }
        assert forall|e: (String, HistoricStats<P>)| repos.contains(e) <==> (rest.contains(e) || e == last) by {
            if repos.contains(e) {
                let j = choose|j: int| 0 <= j < repos.len() && repos[j] == e;
                if j < repos.len() - 1 {
                    assert(rest[j] == e);
                }
            }
            if rest.contains(e) {
                let j = choose|j: int| 0 <= j < rest.len() && rest[j] == e;
                assert(repos[j] == e);
            }
            if e == last {
                assert(repos[repos.len() - 1] == e);
            }
        }
        let r0 = retained(rest, configs);
        if reaches_min(p, m) {
            assert forall|e: (String, HistoricStats<P>)| r0.push(last).contains(e) <==> (r0.contains(e) || e == last) by {
                if r0.push(last).contains(e) {
                    let j = choose|j: int| 0 <= j < r0.push(last).len() && r0.push(last)[j] == e;
                    if j < r0.len() {
                        assert(r0[j] == e);
                    }
                }
                if r0.contains(e) {
                    let j = choose|j: int| 0 <= j < r0.len() && r0[j] == e;
                    assert(r0.push(last)[j] == e);
                }
                if e == last {
                    assert(r0.push(last)[r0.len() as int] == e);
                }
            }
        }
        assert forall|e: (String, HistoricStats<P>)| #[trigger] retained(repos, configs).contains(e) <==> {
            &&& repos.contains(e)
            &&& exists|i: int, k: int| 0 <= i < e.1.periods@.len() && 0 <= k < e.1.periods@[i].1.languages@.len()
                && #[trigger] e.1.periods@[i].1.languages@[k].1 >= config_of(configs, e.0@)->0.min_lines
        } by {
            assert(r0.contains(e) <==> {
                &&& rest.contains(e)
                &&& exists|i: int, k: int| 0 <= i < e.1.periods@.len() && 0 <= k < e.1.periods@[i].1.languages@.len()
                    && #[trigger] e.1.periods@[i].1.languages@[k].1 >= config_of(configs, e.0@)->0.min_lines
            });
        }
    }
}

/// Removes repositories that never reached their configured `min_lines` threshold: a repository
/// is kept when at least one snapshot, in at least one language, has a line count greater than
/// or equal to it.
pub fn remove_min_lines_repos<P: TimePeriod>(stats: &mut Stats<P>, configs: &Vec<(String, RepoConfig)>)
    requires
        forall|i: int| 0 <= i < old(stats).repositories@.len() ==> config_of(configs@, (#[trigger] old(stats).repositories@[i]).0@) is Some,
    ensures
        final(stats).from == old(stats).from,
        final(stats).to == old(stats).to,
        final(stats).repositories@ == retained(old(stats).repositories@, configs@),
{
    let ghost orig = stats.repositories@;
    let mut old_repos: Vec<(String, HistoricStats<P>)> = Vec::new();
    std::mem::swap(&mut old_repos, &mut stats.repositories);
    let mut kept: Vec<(String, HistoricStats<P>)> = Vec::new();
    let ghost mut n: int = 0;
    while old_repos.len() > 0
        invariant
            0 <= n <= orig.len(),
            old_repos@ == orig.skip(n),
            kept@ == retained(orig.take(n), configs@),
            forall|i: int| 0 <= i < orig.len() ==> config_of(configs@, (#[trigger] orig[i]).0@) is Some,
        decreases old_repos@.len(),
    {
        let ghost rest = old_repos@;
        let (path, historic) = old_repos.remove(0);
        proof {
            assert(rest[0] == orig[n]);
            assert(old_repos@ =~= orig.skip(n + 1));
            assert(orig.take(n + 1).drop_last() =~= orig.take(n));
            assert(orig.take(n + 1).last() == orig[n]);
        }
        let ci = find_config(configs, &path).unwrap();
        if history_reaches(&historic.periods, configs[ci].1.min_lines) {
            kept.push((path, historic));
        }
        proof {
            n = n + 1;
        }
    }
    proof {
        assert(orig.take(n) =~= orig);
    }
    stats.repositories = kept;
}

/// The earliest period of all the histories, `None` when they have none.
pub fn earliest_period<P: TimePeriod>(repos: &Vec<(String, HistoricStats<P>)>) -> (r: Option<P>)
    requires
        histories_ok(repos@),
    ensures
        r is None <==> forall|i: int| 0 <= i < repos@.len() ==> (#[trigger] repos@[i]).1.periods@.len() == 0,
        r matches Some(m) ==> {
            &&& exists|i: int, j: int| 0 <= i < repos@.len() && 0 <= j < repos@[i].1.periods@.len() && (#[trigger] repos@[i].1.periods@[j]).0 == m
            &&& forall|i: int, j: int| 0 <= i < repos@.len() && 0 <= j < repos@[i].1.periods@.len()
                ==> !key_before((#[trigger] repos@[i].1.periods@[j]).0.key(), m.key())
        },
{
    let mut best: Option<P> = None;
    let mut i: usize = 0;
    while i < repos.len()
        invariant
            i <= repos@.len(),
            histories_ok(repos@),
            best is None <==> forall|i2: int| 0 <= i2 < i ==> (#[trigger] repos@[i2]).1.periods@.len() == 0,
            best matches Some(m) ==> {
                &&& exists|i2: int, j: int| 0 <= i2 < i && 0 <= j < repos@[i2].1.periods@.len() && (#[trigger] repos@[i2].1.periods@[j]).0 == m
                &&& forall|i2: int, j: int| 0 <= i2 < i && 0 <= j < repos@[i2].1.periods@.len()
                    ==> !key_before((#[trigger] repos@[i2].1.periods@[j]).0.key(), m.key())
            },
        decreases repos@.len() - i,
    {
        let periods = &repos[i].1.periods;
        if periods.len() > 0 {
            let first = periods[0].0;
            proof {
                assert(sorted_periods(repos@[i as int].1.periods@));
                assert forall|j: int| 0 <= j < periods@.len() implies !key_before((#[trigger] periods@[j]).0.key(), first.key()) by {
                    if j > 0 {
                        assert(key_before(periods@[0].0.key(), periods@[j].0.key()));
                    }
                }
            }
            match best {
                None => {
                    best = Some(first);
                },
                Some(m) => {
                    if first.precedes(&m) {
                        best = Some(first);
                    }
                },
            }
        }
        i = i + 1;
    }
    best
}

/// Completes the statistics counted in the repositories: finds the earliest period, fills every
/// history's gaps from it (see `fill_gaps`) and removes the repositories that stay under their
/// minimum line count. Returns the statistics, the earliest period and the present one.
pub fn finish_stats<P: TimePeriod>(
    repositories: Vec<(String, HistoricStats<P>)>,
    configs: &Vec<(String, RepoConfig)>,
    this_period: P,
) -> (r: (Stats<P>, P, P))
    requires
        this_period.well_formed(),
        this_period.has_successor(),
        histories_ok(repositories@),
        configured(repositories@, configs@),
        exists|i: int| 0 <= i < repositories@.len() && (#[trigger] repositories@[i]).1.periods@.len() > 0,
    ensures
        r.2 == this_period,
        r.0.from == r.1,
        r.0.to == this_period,
        exists|i: int, j: int| 0 <= i < repositories@.len() && 0 <= j < repositories@[i].1.periods@.len()
            && (#[trigger] repositories@[i].1.periods@[j]).0 == r.1,
        forall|i: int, j: int| 0 <= i < repositories@.len() && 0 <= j < repositories@[i].1.periods@.len()
            ==> !key_before((#[trigger] repositories@[i].1.periods@[j]).0.key(), r.1.key()),
        exists|filled: Seq<(String, HistoricStats<P>)>| {
            &&& filled.len() == repositories@.len()
            &&& forall|i: int| 0 <= i < repositories@.len() ==> {
                let before = (#[trigger] repositories@[i]);
                let after = filled[i];
                let archived = config_of(configs@, before.0@)->0.archived;
                &&& after.0 == before.0
                &&& gaps_filled(
                    before.1.periods@,
                    periods_from(r.1, fill_end(archived, before.1.periods@, this_period)),
                    after.1.periods@,
                )
            }
            &&& r.0.repositories@ == retained(filled, configs@)
        },
{
    let earliest = earliest_period(&repositories);
    proof {
        let i = choose|i: int| 0 <= i < repositories@.len() && (#[trigger] repositories@[i]).1.periods@.len() > 0;
        assert(earliest is Some);
    }
    let min_period = earliest.unwrap();
    proof {
        let (i, j) = choose|i: int, j: int| 0 <= i < repositories@.len() && 0 <= j < repositories@[i].1.periods@.len()
            && (#[trigger] repositories@[i].1.periods@[j]).0 == min_period;
        assert(sorted_periods(repositories@[i].1.periods@));
    }
    let mut stats = Stats { from: min_period, to: this_period, repositories };
    fill_gaps(&mut stats, configs, min_period, this_period);
    let ghost filled = stats.repositories@;
    proof {
        assert forall|i: int| 0 <= i < stats.repositories@.len() implies config_of(configs@, (#[trigger] stats.repositories@[i]).0@) is Some by {
            assert(stats.repositories@[i].0 == repositories@[i].0);
        }
    }
    remove_min_lines_repos(&mut stats, configs);
    (stats, min_period, this_period)
}

} // verus!

verus! {

/// The commit ids of a repository's samples, in order.
pub open spec fn sample_commit_ids<P>(s: Seq<(P, CommitId)>) -> Seq<CommitId> {
    s.map_values(|e: (P, CommitId)| e.1)
}

/// The insertions that fork detection makes into the history trie: each repository's sampled
/// commits with its priority, in order.
pub open spec fn fork_log<P>(samples: Seq<(String, Vec<(P, CommitId)>)>, priorities: Seq<i32>) -> Seq<Insertion> {
    Seq::new(
        samples.len(),
        |i: int| Insertion { path: samples[i].0@, priority: priorities[i], commits: sample_commit_ids(samples[i].1@) },
    )
}

/// The samples whose commit is among `kept`, in order.
pub open spec fn samples_kept<P>(s: Seq<(P, CommitId)>, kept: Seq<CommitId>) -> Seq<(P, CommitId)>
    decreases s.len(),
{
    if s.len() == 0 {
        Seq::empty()
    } else {
        let rest = samples_kept(s.drop_last(), kept);
        if kept.contains(s.last().1) {
            rest.push(s.last())
        } else {
            rest
        }
    }
}

/// Whether a sample's commit is among `kept`.
pub open spec fn commit_among<P>(kept: Seq<CommitId>) -> spec_fn((P, CommitId)) -> bool {
    |x: (P, CommitId)| kept.contains(x.1)
}

/// What a repository keeps of its samples, given the commits left to it: exactly the samples
/// whose commit is among them, in their order. Every kept sample was a sample with such a
/// commit, every sample with such a commit is kept, and with no commit left nothing is kept.
pub proof fn lemma_samples_kept<P>(s: Seq<(P, CommitId)>, kept: Seq<CommitId>)
    ensures
        samples_kept(s, kept) == s.filter(commit_among::<P>(kept)),
        forall|j: int| 0 <= j < samples_kept(s, kept).len() ==> kept.contains((#[trigger] samples_kept(s, kept)[j]).1)
            && s.contains(samples_kept(s, kept)[j]),
        forall|j: int| 0 <= j < s.len() && kept.contains((#[trigger] s[j]).1) ==> samples_kept(s, kept).contains(s[j]),
        samples_kept(s, kept).len() <= s.len(),
        kept.len() == 0 ==> samples_kept(s, kept).len() == 0,
    decreases s.len(),
{
    reveal(Seq::filter);
    let pred = commit_among::<P>(kept);
    if s.len() > 0 {
        lemma_samples_kept(s.drop_last(), kept);
        let sub = s.drop_last().filter(pred);
        assert(s.filter(pred) == if pred(s.last()) { sub.push(s.last()) } else { sub });
        assert(pred(s.last()) == kept.contains(s.last().1));
    } else {
        assert(s.filter(pred) == s);
    }
    assert(samples_kept(s, kept) == s.filter(pred));
    s.lemma_filter_len(pred);
    assert forall|j: int| 0 <= j < samples_kept(s, kept).len() implies kept.contains((#[trigger] samples_kept(s, kept)[j]).1)
        && s.contains(samples_kept(s, kept)[j]) by {
        s.lemma_filter_pred(pred, j);
        assert(s.filter(pred).contains(s.filter(pred)[j]));
        s.lemma_filter_contains_rev(pred, s.filter(pred)[j]);
    }
    assert forall|j: int| 0 <= j < s.len() && kept.contains((#[trigger] s[j]).1) implies samples_kept(s, kept).contains(s[j]) by {
        s.lemma_filter_contains(pred, j);
    }
    if kept.len() == 0 && samples_kept(s, kept).len() > 0 {
        assert(kept.contains(samples_kept(s, kept)[0].1));
    }
}

/// Fork detection on repositories with the same sampled history: the one with the higher fork
/// priority (the other one ranks first) keeps no sample at all, so the shared history is counted
/// once.
pub proof fn lemma_clone_keeps_no_sample<P>(
    samples: Seq<(String, Vec<(P, CommitId)>)>,
    priorities: Seq<i32>,
    t: int,
    u: int,
)
    requires
        priorities.len() == samples.len(),
        distinct_paths(samples),
        0 <= t < samples.len(),
        0 <= u < samples.len(),
        sample_commit_ids(samples[u].1@) == sample_commit_ids(samples[t].1@),
        priorities[u] < priorities[t],
    ensures
        ({
            let log = fork_log(samples, priorities);
            &&& kept_commits(log, log[t]).len() == 0
            &&& samples_kept(samples[t].1@, kept_commits(log, log[t])).len() == 0
        }),
{
    let log = fork_log(samples, priorities);
    assert forall|a: int, b: int| 0 <= a < log.len() && 0 <= b < log.len() && a != b
        implies #[trigger] log[a].id() != #[trigger] log[b].id() by {
        assert(log[a].path == samples[a].0@ && log[b].path == samples[b].0@);
    }
    assert(distinct_repos(log));
    lemma_priority_of_distinct(log, t);
    lemma_priority_of_distinct(log, u);
    assert(key_lt(log, log[u].id(), log[t].id()));
    lemma_identical_history_keeps_nothing(log, t, u);
    lemma_samples_kept(samples[t].1@, kept_commits(log, log[t]));
}

fn contains_commit(v: &Vec<CommitId>, c: CommitId) -> (r: bool)
    ensures
        r == v@.contains(c),
{
    let mut i: usize = 0;
    while i < v.len()
        invariant
            i <= v@.len(),
            forall|j: int| 0 <= j < i ==> v@[j] != c,
        decreases v@.len() - i,
    {
        if v[i] == c {
            return true;
        }
        i = i + 1;
    }
    false
}

fn commit_ids<P: TimePeriod>(s: &Vec<(P, CommitId)>) -> (r: Vec<CommitId>)
    ensures
        r@ == sample_commit_ids(s@),
{
    let mut r: Vec<CommitId> = Vec::new();
    let mut i: usize = 0;
    while i < s.len()
        invariant
            i <= s@.len(),
            r@ == sample_commit_ids(s@.take(i as int)),
        decreases s@.len() - i,
    {
        r.push(s[i].1);
        i = i + 1;
        assert(r@ =~= sample_commit_ids(s@.take(i as int)));
    }
    assert(s@.take(i as int) =~= s@);
    r
}

fn keep_samples<P: TimePeriod>(s: Vec<(P, CommitId)>, kept: &Vec<CommitId>) -> (r: Vec<(P, CommitId)>)
    ensures
        r@ == samples_kept(s@, kept@),
{
    let mut r: Vec<(P, CommitId)> = Vec::new();
    let mut i: usize = 0;
    while i < s.len()
        invariant
            i <= s@.len(),
            r@ == samples_kept(s@.take(i as int), kept@),
        decreases s@.len() - i,
    {
        proof {
            assert(s@.take(i + 1).drop_last() =~= s@.take(i as int));
            assert(s@.take(i + 1).last() == s@[i as int]);
        }
        if contains_commit(kept, s[i].1) {
            r.push(s[i]);
        }
        i = i + 1;
    }
    assert(s@.take(i as int) =~= s@);
    r
}

/// No two entries name the same repository (paths with the same components).
pub open spec fn distinct_paths<T>(samples: Seq<(String, T)>) -> bool {
    forall|a: int, b: int| 0 <= a < samples.len() && 0 <= b < samples.len() && a != b
        ==> path_components_of(#[trigger] samples[a].0@) != path_components_of(#[trigger] samples[b].0@)
}

/// Whether no two entries name the same repository.
fn paths_are_distinct<T>(samples: &Vec<(String, T)>) -> (r: bool)
    ensures
        r == distinct_paths(samples@),
{
    let mut a: usize = 0;
    while a < samples.len()
        invariant
            a <= samples@.len(),
            forall|a2: int, b: int| 0 <= a2 < a && 0 <= b < samples@.len() && a2 != b
                ==> path_components_of(#[trigger] samples@[a2].0@) != path_components_of(#[trigger] samples@[b].0@),
        decreases samples@.len() - a,
    {
        let mut b: usize = 0;
        while b < samples.len()
            invariant
                a < samples@.len(),
                b <= samples@.len(),
                forall|a2: int, b2: int| 0 <= a2 < a && 0 <= b2 < samples@.len() && a2 != b2
                    ==> path_components_of(#[trigger] samples@[a2].0@) != path_components_of(#[trigger] samples@[b2].0@),
                forall|b2: int| 0 <= b2 < b && b2 != a
                    ==> path_components_of(samples@[a as int].0@) != path_components_of(#[trigger] samples@[b2].0@),
            decreases samples@.len() - b,
        {
            if b != a && same_path(samples[a].0.as_str(), samples[b].0.as_str()) {
                return false;
            }
            b = b + 1;
        }
        a = a + 1;
    }
    true
}

/// Fork detection when each repository appears once (see `remove_commits_from_forks`); when a
/// repository appears twice, the samples are left as they are and the answer is `false`.
pub fn remove_commits_from_forks_checked<P: TimePeriod>(
    samples: &mut Vec<(String, Vec<(P, CommitId)>)>,
    priorities: &Vec<i32>,
) -> (r: bool)
    requires
        priorities@.len() == old(samples)@.len(),
        forall|i: int| 0 <= i < old(samples)@.len() ==> (#[trigger] old(samples)@[i]).1@.len() > 0,
    ensures
        r == distinct_paths(old(samples)@),
        !r ==> final(samples)@ == old(samples)@,
        r ==> final(samples)@.len() == old(samples)@.len(),
        r ==> forall|i: int| 0 <= i < old(samples)@.len() ==> {
            let log = fork_log(old(samples)@, priorities@);
            &&& (#[trigger] final(samples)@[i]).0 == old(samples)@[i].0
            &&& final(samples)@[i].1@ == samples_kept(old(samples)@[i].1@, kept_commits(log, log[i]))
            &&& final(samples)@[i].1@ == old(samples)@[i].1@.filter(commit_among::<P>(kept_commits(log, log[i])))
        },
{
    if !paths_are_distinct(samples) {
        return false;
    }
    remove_commits_from_forks(samples, priorities);
    true
}

/// Detects forks to avoid double counting. Forked repositories share identical histories up to
/// the forking point, and those commits have identical ids. Each repository's sampled commits go
/// into a history trie; the commits that fork detection leaves to it (see
/// `HistoryTrie::get_all_sequences_iterative`) are the only samples it keeps. Each repository
/// appears once.
pub fn remove_commits_from_forks<P: TimePeriod>(samples: &mut Vec<(String, Vec<(P, CommitId)>)>, priorities: &Vec<i32>)
    requires
        priorities@.len() == old(samples)@.len(),
        forall|i: int| 0 <= i < old(samples)@.len() ==> (#[trigger] old(samples)@[i]).1@.len() > 0,
        distinct_paths(old(samples)@),
    ensures
        final(samples)@.len() == old(samples)@.len(),
        forall|i: int| 0 <= i < old(samples)@.len() ==> {
            let log = fork_log(old(samples)@, priorities@);
            &&& (#[trigger] final(samples)@[i]).0 == old(samples)@[i].0
            &&& final(samples)@[i].1@ == samples_kept(old(samples)@[i].1@, kept_commits(log, log[i]))
            &&& final(samples)@[i].1@ == old(samples)@[i].1@.filter(commit_among::<P>(kept_commits(log, log[i])))
        },
{
    let ghost orig = samples@;
    let ghost log = fork_log(orig, priorities@);
    let mut trie = HistoryTrie::new();
    let mut i: usize = 0;
    while i < samples.len()
        invariant
            i <= samples@.len(),
            samples@ == orig,
            log == fork_log(orig, priorities@),
            priorities@.len() == orig.len(),
            forall|i2: int| 0 <= i2 < orig.len() ==> (#[trigger] orig[i2]).1@.len() > 0,
            distinct_paths(orig),
            trie.wf(),
            trie@ == log.take(i as int),
        decreases samples@.len() - i,
    {
        assert forall|t: int| 0 <= t < trie@.len() implies #[trigger] trie@[t].id() != path_components_of(samples@[i as int].0@) by {
            assert(trie@[t] == log[t]);
        }
        let commits = commit_ids(&samples[i].1);
        trie.insert(samples[i].0.as_str(), priorities[i], commits.as_slice());
        proof {
            assert(log.take(i + 1) =~= log.take(i as int).push(log[i as int]));
        }
        i = i + 1;
    }
    proof {
        assert(log.take(i as int) =~= log);
    }
    let result = trie.get_all_sequences_iterative();
    let mut old_samples: Vec<(String, Vec<(P, CommitId)>)> = Vec::new();
    std::mem::swap(&mut old_samples, samples);
    let ghost mut n: int = 0;
    while old_samples.len() > 0
        invariant
            0 <= n <= orig.len(),
            old_samples@ == orig.skip(n),
            samples@.len() == n,
            log == fork_log(orig, priorities@),
            log.len() == orig.len(),
            forall|e: int| 0 <= e < result@.len() ==> #[trigger] entry_answered(log, result@, e),
            forall|t: int| 0 <= t < log.len() ==> #[trigger] insertion_answered(log, result@, t),
            forall|e1: int, e2: int| 0 <= e1 < result@.len() && 0 <= e2 < result@.len() && e1 != e2
                ==> path_components_of(#[trigger] result@[e1].0@) != path_components_of(#[trigger] result@[e2].0@),
            forall|i2: int| 0 <= i2 < n ==> {
                &&& (#[trigger] samples@[i2]).0 == orig[i2].0
                &&& samples@[i2].1@ == samples_kept(orig[i2].1@, kept_commits(log, log[i2]))
            },
        decreases old_samples@.len(),
    {
        let ghost rest = old_samples@;
        let (path, repo_samples) = old_samples.remove(0);
        proof {
            assert(rest[0] == orig[n]);
            assert(old_samples@ =~= orig.skip(n + 1));
            assert(log[n].path == path@);
            assert(insertion_answered(log, result@, n));
        }
        let ghost t = n;
        let ghost e0 = choose|e: int| 0 <= e < result@.len() && #[trigger] entry_matches(log, result@[e], log[t]);
        proof {
            assert(entry_matches(log, result@[e0], log[t]));
            lemma_first_path_names(log, t);
        }
        let mut e: usize = 0;
        while e < result.len() && !same_path(result[e].0.as_str(), path.as_str())
            invariant
                e <= result@.len(),
                0 <= e0 < result@.len(),
                path_components_of(result@[e0].0@) == path_components_of(path@),
                forall|e2: int| 0 <= e2 < e ==> path_components_of(#[trigger] result@[e2].0@) != path_components_of(path@),
            decreases result@.len() - e,
        {
            e = e + 1;
        }
        proof {
            assert(e < result@.len());
            if e as int != e0 {
                assert(path_components_of(result@[e as int].0@) != path_components_of(result@[e0].0@));
            }
        }
        let kept_samples = keep_samples(repo_samples, &result[e].1);
        let ghost before = samples@;
        samples.push((path, kept_samples));
        proof {
            assert forall|i2: int| 0 <= i2 < n + 1 implies {
                &&& (#[trigger] samples@[i2]).0 == orig[i2].0
                &&& samples@[i2].1@ == samples_kept(orig[i2].1@, kept_commits(log, log[i2]))
            } by {
                if i2 < n {
                    assert(samples@[i2] == before[i2]);
                } else {
                    assert(samples@[i2].1@ == samples_kept(orig[i2].1@, result@[e as int].1@));
                    assert(result@[e as int].1@ == kept_commits(log, log[i2]));
                }
            }
            n = n + 1;
        }
    }
    proof {
        assert forall|i: int| 0 <= i < orig.len() implies {
            &&& (#[trigger] samples@[i]).0 == orig[i].0
            &&& samples@[i].1@ == samples_kept(orig[i].1@, kept_commits(log, log[i]))
            &&& samples@[i].1@ == orig[i].1@.filter(commit_among::<P>(kept_commits(log, log[i])))
        } by {
            lemma_samples_kept(orig[i].1@, kept_commits(log, log[i]));
        }
    }
}

} // verus!

verus! {

/// A commit at `seconds` since the epoch is on or after the configured start date.
pub open spec fn accepted(seconds: i64, from_time: Option<CalendarDate>) -> bool {
    match from_time {
        Some(f) => !utc_date_of(seconds).spec_before(f),
        None => true,
    }
}

/// The sample of each period: the last accepted commit (in the given order) whose date falls in
/// it.
pub open spec fn sample_map<P: TimePeriod>(commits: Seq<(i64, CommitId)>, from_time: Option<CalendarDate>) -> Map<P, CommitId>
    decreases commits.len(),
{
    if commits.len() == 0 {
        Map::empty()
    } else {
        let m = sample_map(commits.drop_last(), from_time);
        let (s, c) = commits.last();
        if accepted(s, from_time) {
            m.insert(P::period_of(utc_date_of(s)), c)
        } else {
            m
        }
    }
}

/// Samples keyed by periods, well formed, in strictly increasing order.
pub open spec fn sorted_samples<P: TimePeriod>(s: Seq<(P, CommitId)>) -> bool {
    &&& forall|i: int| 0 <= i < s.len() ==> (#[trigger] s[i]).0.well_formed() && s[i].0.has_successor()
    &&& forall|i: int, j: int| 0 <= i < j < s.len() ==> key_before((#[trigger] s[i]).0.key(), (#[trigger] s[j]).0.key())
}

/// The samples hold exactly the entries of map `m`.
pub open spec fn samples_match<P: TimePeriod>(s: Seq<(P, CommitId)>, m: Map<P, CommitId>) -> bool {
    &&& forall|i: int| 0 <= i < s.len() ==> m.contains_key((#[trigger] s[i]).0) && m[s[i].0] == s[i].1
    &&& forall|p: P| #[trigger] m.contains_key(p) ==> exists|i: int| 0 <= i < s.len() && (#[trigger] s[i]).0 == p
}

/// Records `c` as the sample of period `p`, replacing an earlier sample of that period.
fn insert_sample<P: TimePeriod>(out: &mut Vec<(P, CommitId)>, p: P, c: CommitId, Ghost(m): Ghost<Map<P, CommitId>>)
    requires
        sorted_samples(old(out)@),
        samples_match(old(out)@, m),
        p.well_formed(),
        p.has_successor(),
    ensures
        sorted_samples(final(out)@),
        samples_match(final(out)@, m.insert(p, c)),
{
    let mut idx: usize = 0;
    while idx < out.len() && out[idx].0.precedes(&p)
        invariant
            idx <= out@.len(),
            forall|j: int| 0 <= j < idx ==> key_before((#[trigger] out@[j]).0.key(), p.key()),
        decreases out@.len() - idx,
    {
        idx = idx + 1;
    }
    let ghost s0 = out@;
    let ghost m1 = m.insert(p, c);
    if idx < out.len() && out[idx].0.same(&p) {
        out.set(idx, (p, c));
        proof {
            assert forall|i: int| 0 <= i < out@.len() implies m1.contains_key((#[trigger] out@[i]).0) && m1[out@[i].0] == out@[i].1 by {
                if i != idx {
                    assert(out@[i] == s0[i]);
                    if s0[i].0 == p {
                        assert(key_before(s0[i].0.key(), s0[idx as int].0.key()) || key_before(s0[idx as int].0.key(), s0[i].0.key()));
                    }
                }
            }
            assert forall|q: P| #[trigger] m1.contains_key(q) implies exists|i: int| 0 <= i < out@.len() && (#[trigger] out@[i]).0 == q by {
                if q == p {
                    assert(out@[idx as int].0 == q);
                } else {
                    let i = choose|i: int| 0 <= i < s0.len() && (#[trigger] s0[i]).0 == q;
                    assert(out@[i].0 == q);
                }
            }
            assert forall|i: int, j: int| 0 <= i < j < out@.len() implies key_before((#[trigger] out@[i]).0.key(), (#[trigger] out@[j]).0.key()) by {
                assert(key_before(s0[i].0.key(), s0[j].0.key()));
            }
        }
    } else {
        proof {
            if idx < s0.len() {
                P::lemma_order(p, s0[idx as int].0);
            }
            assert forall|j: int| idx <= j < s0.len() implies key_before(p.key(), (#[trigger] s0[j]).0.key()) by {
                if j > idx {
                    assert(key_before(s0[idx as int].0.key(), s0[j].0.key()));
                }
            }
        }
        out.insert(idx, (p, c));
        proof {
            assert forall|i: int| 0 <= i < out@.len() implies (#[trigger] out@[i]).0.well_formed() && out@[i].0.has_successor() by {
                if i < idx {
                    assert(out@[i] == s0[i]);
                } else if i > idx {
                    assert(out@[i] == s0[i - 1]);
                }
            }
            assert forall|i: int, j: int| 0 <= i < j < out@.len() implies key_before((#[trigger] out@[i]).0.key(), (#[trigger] out@[j]).0.key()) by {
                if j < idx {
                    assert(out@[i] == s0[i] && out@[j] == s0[j]);
                } else if j == idx {
                    assert(out@[i] == s0[i]);
                } else if i < idx {
                    assert(out@[i] == s0[i] && out@[j] == s0[j - 1]);
                    assert(key_before(s0[i].0.key(), p.key()));
                } else if i == idx {
                    assert(out@[j] == s0[j - 1]);
                } else {
                    assert(out@[i] == s0[i - 1] && out@[j] == s0[j - 1]);
                }
            }
            assert forall|i: int| 0 <= i < out@.len() implies m1.contains_key((#[trigger] out@[i]).0) && m1[out@[i].0] == out@[i].1 by {
                if i < idx {
                    assert(out@[i] == s0[i]);
                } else if i > idx {
                    assert(out@[i] == s0[i - 1]);
                }
            }
            assert forall|q: P| #[trigger] m1.contains_key(q) implies exists|i: int| 0 <= i < out@.len() && (#[trigger] out@[i]).0 == q by {
                if q == p {
                    assert(out@[idx as int].0 == q);
                } else {
                    let i = choose|i: int| 0 <= i < s0.len() && (#[trigger] s0[i]).0 == q;
                    if i < idx {
                        assert(out@[i].0 == q);
                    } else {
                        assert(out@[i + 1].0 == q);
                    }
                }
            }
        }
    }
}

/// Takes one sample per period from a repository's commits (given in chronological order, with
/// their time in seconds since the epoch): the last commit of each period, ignoring commits
/// before `from_time`. Inspecting every commit would be too slow and pointless for a
/// slow-moving metric like lines of code.
pub fn sample_commits<P: TimePeriod>(commits: &Vec<(i64, CommitId)>, from_time: Option<CalendarDate>) -> (r: Vec<(P, CommitId)>)
    requires
        forall|i: int| 0 <= i < commits@.len() ==> 0 <= (#[trigger] commits@[i]).0 <= MAX_EPOCH_SECONDS,
    ensures
        sorted_samples(r@),
        samples_match(r@, sample_map::<P>(commits@, from_time)),
{
    let mut out: Vec<(P, CommitId)> = Vec::new();
    let mut i: usize = 0;
    while i < commits.len()
        invariant
            i <= commits@.len(),
            forall|j: int| 0 <= j < commits@.len() ==> 0 <= (#[trigger] commits@[j]).0 <= MAX_EPOCH_SECONDS,
            sorted_samples(out@),
            samples_match(out@, sample_map::<P>(commits@.take(i as int), from_time)),
        decreases commits@.len() - i,
    {
        let (seconds, commit_id) = commits[i];
        let date = datetime_from_epoch_seconds(seconds);
        let ghost m = sample_map::<P>(commits@.take(i as int), from_time);
        proof {
            assert(commits@.take(i + 1).drop_last() =~= commits@.take(i as int));
            assert(commits@.take(i + 1).last() == commits@[i as int]);
        }
        let skip = match from_time {
            Some(from) => date.before(&from),
            None => false,
        };
        if !skip {
            let period = P::from_date(date);
            proof {
                assert(period.key().0 <= crate::dates::MAX_YEAR + 1);
                P::lemma_has_successor(period, period);
            }
            insert_sample(&mut out, period, commit_id, Ghost(m));
        }
        i = i + 1;
    }
    assert(commits@.take(i as int) =~= commits@);
    out
}

/// Whether a file in this language is counted: it has a language and the language is not
/// skipped.
pub fn should_count(language: &Option<String>, skip_languages: &Vec<String>) -> (r: bool)
    ensures
        r == (language is Some && !texts(skip_languages@).contains(language->0@)),
{
    match language {
        Some(l) => {
            let mut i: usize = 0;
            while i < skip_languages.len()
                invariant
                    i <= skip_languages@.len(),
                    language is Some && language->0@ == l@,
                    forall|j: int| 0 <= j < i ==> skip_languages@[j]@ != l@,
                decreases skip_languages@.len() - i,
            {
                if str_eq(skip_languages[i].as_str(), l.as_str()) {
                    assert(texts(skip_languages@)[i as int] == l@);
                    assert(texts(skip_languages@).contains(l@));
                    return false;
                }
                i = i + 1;
            }
            proof {
                if texts(skip_languages@).contains(l@) {
                    let j = choose|j: int| 0 <= j < skip_languages@.len() && #[trigger] texts(skip_languages@)[j] == l@;
                    assert(skip_languages@[j]@ == l@);
                }
            }
            true
        },
        None => false,
    }
}

/// Counts the lines of code of a file's contents in a language (see `code_lines`).
pub fn count_lines_impl(language: String, content: &[u8]) -> (r: Option<(String, usize)>)
    ensures
        match tokei_code_lines(language@, content@) {
            Some(n) => r matches Some((l, m)) && l@ == language@ && m == n,
            None => r is None,
        },
{
    match code_lines(language.as_str(), content) {
        Some(n) => Some((language, n)),
        None => None,
    }
}


/// The language of a file: the one its name gives, or, for a file without an extension, the one
/// its shebang line gives.
pub open spec fn file_language(file_name: Seq<char>, content: Seq<u8>) -> Option<Seq<char>> {
    match guess_of(file_name) {
        Some(l) => l,
        None => language_of_shebang(content),
    }
}

/// What counting a file gives: its language and its lines of code, when it has a language that
/// is not skipped and that tokei counts.
pub open spec fn file_line_count(file_name: Seq<char>, content: Seq<u8>, skip_languages: Seq<Seq<char>>) -> Option<(Seq<char>, usize)> {
    match file_language(file_name, content) {
        Some(l) => if skip_languages.contains(l) {
            None
        } else {
            match tokei_code_lines(l, content) {
                Some(n) => Some((l, n)),
                None => None,
            }
        },
        None => None,
    }
}

/// Counts a file of a commit: detects its language from its name (or its shebang line), and
/// counts its lines of code unless the language is skipped.
pub fn count_file_lines(file_name: &str, content: &[u8], skip_languages: &Vec<String>) -> (r: Option<(String, usize)>)
    ensures
        match file_line_count(file_name@, content@, texts(skip_languages@)) {
            Some((l, n)) => r matches Some((s, m)) && s@ == l && m == n,
            None => r is None,
        },
{
    let language = match detect_language(file_name) {
        LanguageGuess::Detected(language) => Some(language),
        LanguageGuess::Unknown => None,
        LanguageGuess::NeedsContent => detect_language_from_shebang(content),
    };
    if should_count(&language, skip_languages) {
        match language {
            Some(l) => count_lines_impl(l, content),
            None => None,
        }
    } else {
        None
    }
}

} // verus!
