//! The data of the report's two charts: lines per repository over time, and lines per language
//! over time. Turning it into JSON and writing the report's files is left to the caller.
use vstd::prelude::*;

use crate::count::has_period;
use crate::stats::{
    CodeStats, CountsView, HistoricStats, Stats, distinct_languages, has_language, lines_of, total_of,
};
use crate::time_period::{PeriodIter, TimePeriod, iter_to, key_before, lemma_periods_from, periods_from};
use crate::util::{display_name, display_name_of, display_name_ok, last_graphemes, truncate_beginning};

verus! {

/// One series of a chart: its label and one value per period.
pub struct Dataset {
    pub label: String,
    pub data: Vec<usize>,
}

/// A chart: the labels of the x axis and the series.
pub struct ChartData {
    pub labels: Vec<String>,
    pub datasets: Vec<Dataset>,
}

/// A list of indices as integers.
pub open spec fn as_ints(s: Seq<usize>) -> Seq<int> {
    s.map_values(|y: usize| y as int)
}

/// `x` occurs in `s`.
pub open spec fn occurs(s: Seq<int>, x: int) -> bool {
    exists|j: int| 0 <= j < s.len() && s[j] == x
}

/// `perm` lists each index below `n` exactly once.
pub open spec fn is_permutation(perm: Seq<int>, n: int) -> bool {
    &&& perm.len() == n
    &&& forall|j: int| 0 <= j < n ==> 0 <= #[trigger] perm[j] < n
    &&& forall|j1: int, j2: int| 0 <= j1 < n && 0 <= j2 < n && j1 != j2 ==> #[trigger] perm[j1] != #[trigger] perm[j2]
    &&& forall|x: int| 0 <= x < n ==> #[trigger] occurs(perm, x)
}

/// The indices of `keys`, ordered by non-decreasing key (equal keys keep their order).
fn sort_indices_by_key(keys: &Vec<usize>) -> (r: Vec<usize>)
    ensures
        is_permutation(as_ints(r@), keys@.len() as int),
        forall|j1: int, j2: int| 0 <= j1 < j2 < r@.len() ==> keys@[#[trigger] r@[j1] as int] <= keys@[#[trigger] r@[j2] as int],
{
    let n = keys.len();
    let mut r: Vec<usize> = Vec::new();
    let mut i: usize = 0;
    while i < n
        invariant
            n == keys@.len(),
            i <= n,
            r@.len() == i,
            forall|j: int| 0 <= j < i ==> (#[trigger] r@[j]) < i,
            forall|j1: int, j2: int| 0 <= j1 < i && 0 <= j2 < i && j1 != j2 ==> #[trigger] r@[j1] != #[trigger] r@[j2],
            forall|x: int| 0 <= x < i ==> #[trigger] occurs(as_ints(r@), x),
            forall|j1: int, j2: int| 0 <= j1 < j2 < r@.len() ==> keys@[#[trigger] r@[j1] as int] <= keys@[#[trigger] r@[j2] as int],
        decreases n - i,
    {
        let mut pos: usize = 0;
        while pos < r.len() && keys[r[pos]] <= keys[i]
            invariant
                n == keys@.len(),
                i < n,
                pos <= r@.len(),
                forall|j: int| 0 <= j < r@.len() ==> (#[trigger] r@[j]) < i,
                forall|j: int| 0 <= j < pos ==> keys@[#[trigger] r@[j] as int] <= keys@[i as int],
            decreases r@.len() - pos,
        {
            pos = pos + 1;
        }
        let ghost r0 = r@;
        r.insert(pos, i);
        proof {
            assert forall|j: int| 0 <= j < i + 1 implies (#[trigger] r@[j]) < i + 1 by {
                if j < pos {
                    assert(r@[j] == r0[j]);
                } else if j > pos {
                    assert(r@[j] == r0[j - 1]);
                }
            }
            assert forall|j1: int, j2: int| 0 <= j1 < i + 1 && 0 <= j2 < i + 1 && j1 != j2 implies #[trigger] r@[j1] != #[trigger] r@[j2] by {
                let a = if j1 < pos { j1 } else { j1 - 1 };
                let b = if j2 < pos { j2 } else { j2 - 1 };
                if j1 != pos && j2 != pos {
                    assert(r@[j1] == r0[a] && r@[j2] == r0[b]);
                } else if j1 == pos {
                    assert(r@[j2] == r0[b]);
                } else {
                    assert(r@[j1] == r0[a]);
                }
            }
            assert forall|x: int| 0 <= x < i + 1 implies #[trigger] occurs(as_ints(r@), x) by {
                let m = as_ints(r@);
                if x == i {
                    assert(m[pos as int] == x);
                } else {
                    let m0 = as_ints(r0);
                    assert(occurs(m0, x));
                    let j = choose|j: int| 0 <= j < m0.len() && m0[j] == x;
                    if j < pos {
                        assert(r@[j] == r0[j]);
                        assert(m[j] == x);
                    } else {
                        assert(r@[j + 1] == r0[j]);
                        assert(m[j + 1] == x);
                    }
                }
            }
            assert forall|j1: int, j2: int| 0 <= j1 < j2 < r@.len() implies keys@[#[trigger] r@[j1] as int] <= keys@[#[trigger] r@[j2] as int] by {
                if j2 < pos {
                    assert(r@[j1] == r0[j1] && r@[j2] == r0[j2]);
                } else if j2 == pos {
                    assert(r@[j1] == r0[j1]);
                } else if j1 < pos {
                    assert(r@[j1] == r0[j1] && r@[j2] == r0[j2 - 1]);
                } else if j1 == pos {
                    assert(r@[j2] == r0[j2 - 1]);
                    assert(keys@[r0[pos as int] as int] > keys@[i as int]);
                    if j2 - 1 > pos {
                        assert(keys@[r0[pos as int] as int] <= keys@[r0[j2 - 1] as int]);
                    }
                } else {
                    assert(r@[j1] == r0[j1 - 1] && r@[j2] == r0[j2 - 1]);
                }
            }
        }
        i = i + 1;
    }
    proof {
        let m = as_ints(r@);
        assert forall|j1: int, j2: int| 0 <= j1 < n && 0 <= j2 < n && j1 != j2 implies #[trigger] m[j1] != #[trigger] m[j2] by {
            assert(r@[j1] != r@[j2]);
        }
    }
    r
}

/// The counts of the last period of a history.
pub open spec fn last_counts<P>(h: HistoricStats<P>) -> CountsView {
    h.periods@.last().1@
}

/// Every history has at least one period, and its counts name each language once.
pub open spec fn nonempty_histories<P>(repos: Seq<(String, HistoricStats<P>)>) -> bool {
    forall|i: int| 0 <= i < repos.len() ==> {
        &&& (#[trigger] repos[i]).1.periods@.len() > 0
        &&& forall|j: int| 0 <= j < repos[i].1.periods@.len() ==> (#[trigger] repos[i].1.periods@[j]).1.wf()
    }
}

/// The lines of a language in the last period of every repository, added up.
pub open spec fn lang_total<P>(repos: Seq<(String, HistoricStats<P>)>, lang: Seq<char>) -> int
    decreases repos.len(),
{
    if repos.len() == 0 {
        0
    } else {
        lang_total(repos.drop_last(), lang) + lines_of(last_counts(repos.last().1), lang)
    }
}

/// A language occurs in the last period of some repository.
pub open spec fn lang_present<P>(repos: Seq<(String, HistoricStats<P>)>, lang: Seq<char>) -> bool {
    exists|i: int| 0 <= i < repos.len() && has_language(last_counts((#[trigger] repos[i]).1), lang)
}

proof fn lemma_lines_of_nonneg(s: CountsView, l: Seq<char>)
    ensures
        lines_of(s, l) >= 0,
    decreases s.len(),
{
    if s.len() > 0 {
        lemma_lines_of_nonneg(s.drop_first(), l);
    }
}

proof fn lemma_lang_total_prefix<P>(repos: Seq<(String, HistoricStats<P>)>, n: int, lang: Seq<char>)
    requires
        0 <= n <= repos.len(),
    ensures
        0 <= lang_total(repos.take(n), lang) <= lang_total(repos, lang),
    decreases repos.len() - n,
{
    if n < repos.len() {
        lemma_lang_total_prefix(repos, n + 1, lang);
        assert(repos.take(n + 1).drop_last() =~= repos.take(n));
        assert(repos.take(n + 1).last() == repos[n]);
        lemma_lines_of_nonneg(last_counts(repos[n].1), lang);
        lemma_lang_total_nonneg(repos.take(n), lang);
    } else {
        assert(repos.take(n) =~= repos);
        lemma_lang_total_nonneg(repos, lang);
    }
}

proof fn lemma_lang_total_nonneg<P>(repos: Seq<(String, HistoricStats<P>)>, lang: Seq<char>)
    ensures
        lang_total(repos, lang) >= 0,
    decreases repos.len(),
{
    if repos.len() > 0 {
        lemma_lang_total_nonneg(repos.drop_last(), lang);
        lemma_lines_of_nonneg(last_counts(repos.last().1), lang);
    }
}

proof fn lemma_lines_of_prefix(s: CountsView, k: int, l: Seq<char>)
    requires
        distinct_languages(s),
        0 <= k < s.len(),
    ensures
        lines_of(s.take(k + 1), l) == lines_of(s.take(k), l) + if l == s[k].0 { s[k].1 as int } else { 0 },
        l == s[k].0 ==> lines_of(s, l) == s[k].1,
        l == s[k].0 ==> lines_of(s.take(k), l) == 0,
        has_language(s.take(k + 1), l) <==> (has_language(s.take(k), l) || l == s[k].0),
{
    assert(s.take(k + 1) =~= s.take(k).push(s[k]));
    assert forall|i: int| 0 <= i < s.take(k).len() implies #[trigger] s.take(k)[i].0 != s[k].0 by {
        assert(s.take(k)[i] == s[i]);
    }
    crate::stats::lemma_lines_of_push(s.take(k), s[k], l);
    if l == s[k].0 {
        crate::stats::lemma_lines_of_absent(s.take(k), l);
        crate::stats::lemma_lines_of_index(s, k);
    }
    if has_language(s.take(k + 1), l) {
        let i = choose|i: int| 0 <= i < s.take(k + 1).len() && (#[trigger] s.take(k + 1)[i]).0 == l;
        if i < k {
            assert(s.take(k)[i] == s.take(k + 1)[i]);
        }
    }
    if has_language(s.take(k), l) {
        let i = choose|i: int| 0 <= i < s.take(k).len() && (#[trigger] s.take(k)[i]).0 == l;
        assert(s.take(k + 1)[i] == s.take(k)[i]);
    }
    if l == s[k].0 {
        assert(s.take(k + 1)[k] == s[k]);
    }
}

/// Adds the languages of the last period of every repository.
fn language_totals<P: TimePeriod>(repos: &Vec<(String, HistoricStats<P>)>) -> (r: CodeStats)
    requires
        nonempty_histories(repos@),
        forall|l: Seq<char>| #[trigger] lang_total(repos@, l) <= usize::MAX,
    ensures
        r.wf(),
        forall|l: Seq<char>| #[trigger] lines_of(r@, l) == lang_total(repos@, l),
        forall|l: Seq<char>| #[trigger] has_language(r@, l) <==> lang_present(repos@, l),
{
    let mut acc = CodeStats::new();
    let mut i: usize = 0;
    while i < repos.len()
        invariant
            i <= repos@.len(),
            nonempty_histories(repos@),
            forall|l: Seq<char>| #[trigger] lang_total(repos@, l) <= usize::MAX,
            acc.wf(),
            forall|l: Seq<char>| #[trigger] lines_of(acc@, l) == lang_total(repos@.take(i as int), l),
            forall|l: Seq<char>| #[trigger] has_language(acc@, l) <==> lang_present(repos@.take(i as int), l),
        decreases repos@.len() - i,
    {
        let periods = &repos[i].1.periods;
        let counts = &periods[periods.len() - 1].1;
        let ghost cv = counts@;
        proof {
            assert(cv == last_counts(repos@[i as int].1));
            assert(counts.wf());
            assert(repos@.take(i + 1).drop_last() =~= repos@.take(i as int));
            assert(repos@.take(i + 1).last() == repos@[i as int]);
            assert forall|l: Seq<char>| #[trigger] lang_total(repos@.take(i + 1), l) == lang_total(repos@.take(i as int), l) + lines_of(cv, l) by {
            }
            assert(cv.take(0) =~= Seq::<(Seq<char>, usize)>::empty());
        }
        let mut k: usize = 0;
        while k < counts.languages.len()
            invariant
                k <= cv.len(),
                cv == counts@,
                distinct_languages(cv),
                i < repos@.len(),
                cv == last_counts(repos@[i as int].1),
                forall|l: Seq<char>| #[trigger] lang_total(repos@, l) <= usize::MAX,
                forall|l: Seq<char>| #[trigger] lang_total(repos@.take(i + 1), l) == lang_total(repos@.take(i as int), l) + lines_of(cv, l),
                acc.wf(),
                forall|l: Seq<char>| #[trigger] lines_of(acc@, l) == lang_total(repos@.take(i as int), l) + lines_of(cv.take(k as int), l),
                forall|l: Seq<char>| #[trigger] has_language(acc@, l) <==> (lang_present(repos@.take(i as int), l) || has_language(cv.take(k as int), l)),
            decreases cv.len() - k,
        {
            let ghost l0 = cv[k as int].0;
            proof {
                lemma_lines_of_prefix(cv, k as int, l0);
                assert(lang_total(repos@.take(i + 1), l0) == lang_total(repos@.take(i as int), l0) + lines_of(cv, l0));
                lemma_lang_total_prefix(repos@, i + 1, l0);
                assert(lines_of(acc@, l0) + cv[k as int].1 <= usize::MAX);
                assert forall|l: Seq<char>| #[trigger] lines_of(cv.take(k + 1), l) == lines_of(cv.take(k as int), l) + if l == l0 { cv[k as int].1 as int } else { 0 } by {
                    lemma_lines_of_prefix(cv, k as int, l);
                }
                assert forall|l: Seq<char>| #[trigger] has_language(cv.take(k + 1), l) <==> (has_language(cv.take(k as int), l) || l == l0) by {
                    lemma_lines_of_prefix(cv, k as int, l);
                }
            }
            let name = counts.languages[k].0.clone();
            acc.add(name, counts.languages[k].1);
            k = k + 1;
        }
        proof {
            assert(cv.take(cv.len() as int) =~= cv);
            assert forall|l: Seq<char>| #[trigger] has_language(acc@, l) <==> lang_present(repos@.take(i + 1), l) by {
                let t = repos@.take(i + 1);
                if lang_present(repos@.take(i as int), l) {
                    let j = choose|j: int| 0 <= j < i && has_language(last_counts((#[trigger] repos@.take(i as int)[j]).1), l);
                    assert(t[j] == repos@.take(i as int)[j]);
                }
                if has_language(cv, l) {
                    assert(t[i as int] == repos@[i as int]);
                }
                if lang_present(t, l) {
                    let j = choose|j: int| 0 <= j < t.len() && has_language(last_counts((#[trigger] t[j]).1), l);
                    if j < i {
                        assert(repos@.take(i as int)[j] == t[j]);
                    }
                }
            }
        }
        i = i + 1;
    }
    assert(repos@.take(i as int) =~= repos@);
    acc
}

/// All the languages present in the stats, sorted by increasing popularity (lines in the last
/// period of every repository, added up).
pub fn get_sorted_languages<P: TimePeriod>(global_stats: &Stats<P>) -> (r: Vec<String>)
    requires
        nonempty_histories(global_stats.repositories@),
        forall|l: Seq<char>| #[trigger] lang_total(global_stats.repositories@, l) <= usize::MAX,
    ensures
        forall|i: int, j: int| 0 <= i < r@.len() && 0 <= j < r@.len() && i != j ==> (#[trigger] r@[i])@ != (#[trigger] r@[j])@,
        forall|i: int| 0 <= i < r@.len() ==> lang_present(global_stats.repositories@, (#[trigger] r@[i])@),
        forall|l: Seq<char>| lang_present(global_stats.repositories@, l) ==> exists|i: int| 0 <= i < r@.len() && (#[trigger] r@[i])@ == l,
        forall|i: int, j: int| 0 <= i < j < r@.len() ==> lang_total(global_stats.repositories@, (#[trigger] r@[i])@)
            <= lang_total(global_stats.repositories@, (#[trigger] r@[j])@),
{
    let repos = &global_stats.repositories;
    let totals = language_totals(repos);
    let mut keys: Vec<usize> = Vec::new();
    let mut k: usize = 0;
    while k < totals.languages.len()
        invariant
            k <= totals@.len(),
            keys@.len() == k,
            forall|j: int| 0 <= j < k ==> #[trigger] keys@[j] == totals@[j].1,
        decreases totals@.len() - k,
    {
        keys.push(totals.languages[k].1);
        k = k + 1;
    }
    let order = sort_indices_by_key(&keys);
    let ghost perm = as_ints(order@);
    let mut r: Vec<String> = Vec::new();
    let mut j: usize = 0;
    while j < order.len()
        invariant
            j <= order@.len(),
            order@.len() == totals@.len(),
            keys@.len() == totals@.len(),
            perm == as_ints(order@),
            is_permutation(perm, totals@.len() as int),
            r@.len() == j,
            forall|j2: int| 0 <= j2 < j ==> (#[trigger] r@[j2])@ == totals@[order@[j2] as int].0,
        decreases order@.len() - j,
    {
        assert(perm[j as int] == order@[j as int] as int);
        r.push(totals.languages[order[j]].0.clone());
        j = j + 1;
    }
    proof {
        assert forall|i: int| 0 <= i < totals@.len() implies #[trigger] totals@[i].1 == lang_total(repos@, totals@[i].0) by {
            crate::stats::lemma_lines_of_index(totals@, i);
        }
        assert forall|i: int, j2: int| 0 <= i < r@.len() && 0 <= j2 < r@.len() && i != j2 implies (#[trigger] r@[i])@ != (#[trigger] r@[j2])@ by {
            assert(perm[i] != perm[j2]);
            assert(perm[i] == order@[i] as int && perm[j2] == order@[j2] as int);
        }
        assert forall|i: int| 0 <= i < r@.len() implies lang_present(repos@, (#[trigger] r@[i])@) by {
            assert(perm[i] == order@[i] as int);
            assert(has_language(totals@, totals@[order@[i] as int].0));
        }
        assert forall|l: Seq<char>| lang_present(repos@, l) implies exists|i: int| 0 <= i < r@.len() && (#[trigger] r@[i])@ == l by {
            assert(has_language(totals@, l));
            let x = choose|x: int| 0 <= x < totals@.len() && (#[trigger] totals@[x]).0 == l;
            assert(occurs(perm, x));
            let i = choose|i: int| 0 <= i < perm.len() && perm[i] == x;
            assert(order@[i] as int == x);
            assert(r@[i]@ == l);
        }
        assert forall|i: int, j2: int| 0 <= i < j2 < r@.len() implies lang_total(repos@, (#[trigger] r@[i])@) <= lang_total(repos@, (#[trigger] r@[j2])@) by {
            assert(keys@[order@[i] as int] <= keys@[order@[j2] as int]);
            assert(perm[i] == order@[i] as int && perm[j2] == order@[j2] as int);
        }
    }
    r
}

/// The total lines of the last period of a history.
pub open spec fn last_total<P>(h: HistoricStats<P>) -> int {
    total_of(last_counts(h))
}

/// Each history has periods whose totals fit the machine.
pub open spec fn totals_fit<P>(repos: Seq<(String, HistoricStats<P>)>) -> bool {
    forall|i: int, j: int| 0 <= i < repos.len() && 0 <= j < repos[i].1.periods@.len()
        ==> total_of((#[trigger] repos[i].1.periods@[j]).1@) <= usize::MAX
}

/// The order of the repositories by increasing size (total lines of their last period).
fn sorted_repo_order<P: TimePeriod>(repos: &Vec<(String, HistoricStats<P>)>) -> (r: Vec<usize>)
    requires
        nonempty_histories(repos@),
        totals_fit(repos@),
    ensures
        is_permutation(as_ints(r@), repos@.len() as int),
        forall|j1: int, j2: int| 0 <= j1 < j2 < r@.len() ==> last_total(repos@[#[trigger] r@[j1] as int].1)
            <= last_total(repos@[#[trigger] r@[j2] as int].1),
{
    let mut keys: Vec<usize> = Vec::new();
    let mut i: usize = 0;
    while i < repos.len()
        invariant
            i <= repos@.len(),
            nonempty_histories(repos@),
            totals_fit(repos@),
            keys@.len() == i,
            forall|j: int| 0 <= j < i ==> #[trigger] keys@[j] == last_total(repos@[j].1),
        decreases repos@.len() - i,
    {
        let periods = &repos[i].1.periods;
        proof {
            assert(total_of(repos@[i as int].1.periods@[periods@.len() - 1].1@) <= usize::MAX);
        }
        keys.push(periods[periods.len() - 1].1.total_lines());
        i = i + 1;
    }
    let order = sort_indices_by_key(&keys);
    proof {
        let perm = as_ints(order@);
        assert forall|j1: int, j2: int| 0 <= j1 < j2 < order@.len() implies last_total(repos@[#[trigger] order@[j1] as int].1)
            <= last_total(repos@[#[trigger] order@[j2] as int].1) by {
            assert(perm[j1] == order@[j1] as int && perm[j2] == order@[j2] as int);
            assert(keys@[order@[j1] as int] <= keys@[order@[j2] as int]);
        }
    }
    order
}

/// The repositories present in the stats, sorted by increasing size (total lines of their last
/// period).
pub fn get_sorted_repos<P: TimePeriod>(global_stats: &Stats<P>) -> (r: Vec<String>)
    requires
        nonempty_histories(global_stats.repositories@),
        totals_fit(global_stats.repositories@),
    ensures
        r@.len() == global_stats.repositories@.len(),
        exists|perm: Seq<int>| {
            &&& is_permutation(perm, global_stats.repositories@.len() as int)
            &&& forall|j: int| 0 <= j < r@.len() ==> (#[trigger] r@[j])@ == global_stats.repositories@[perm[j]].0@
            &&& forall|j1: int, j2: int| 0 <= j1 < j2 < r@.len() ==> last_total(global_stats.repositories@[#[trigger] perm[j1]].1)
                <= last_total(global_stats.repositories@[#[trigger] perm[j2]].1)
        },
{
    let repos = &global_stats.repositories;
    let order = sorted_repo_order(repos);
    let ghost perm = as_ints(order@);
    let mut r: Vec<String> = Vec::new();
    let mut j: usize = 0;
    while j < order.len()
        invariant
            j <= order@.len(),
            perm == as_ints(order@),
            is_permutation(perm, repos@.len() as int),
            r@.len() == j,
            forall|j2: int| 0 <= j2 < j ==> (#[trigger] r@[j2])@ == repos@[perm[j2]].0@,
        decreases order@.len() - j,
    {
        assert(perm[j as int] == order@[j as int] as int);
        r.push(repos[order[j]].0.clone());
        j = j + 1;
    }
    proof {
        assert forall|j1: int, j2: int| 0 <= j1 < j2 < r@.len() implies last_total(repos@[#[trigger] perm[j1]].1)
            <= last_total(repos@[#[trigger] perm[j2]].1) by {
            assert(perm[j1] == order@[j1] as int && perm[j2] == order@[j2] as int);
        }
    }
    r
}

} // verus!

verus! {

/// The label of a repository in the chart: its display name, keeping its last 35 grapheme
/// clusters behind "..." when it is longer.
pub open spec fn repo_label(name: Seq<char>) -> Seq<char> {
    if last_graphemes(name, 35).len() < name.len() {
        "..."@ + last_graphemes(name, 35)
    } else {
        name
    }
}

/// The labels of the periods from `from` to `to`.
pub open spec fn period_labels<P: TimePeriod>(from: P, to: P) -> Seq<Seq<char>> {
    periods_from(from, to).map_values(|p: P| p.label_text())
}

/// The totals of every period of a history, in order.
pub open spec fn period_totals<P>(h: Seq<(P, CodeStats)>) -> Seq<int> {
    h.map_values(|e: (P, CodeStats)| total_of(e.1@))
}

fn x_labels<P: TimePeriod>(from: P, to: P) -> (r: Vec<String>)
    requires
        from.well_formed(),
        to.well_formed(),
        to.has_successor(),
    ensures
        crate::text::texts(r@) == period_labels(from, to),
{
    let periods = iter_to(from, to).collect_all();
    let mut r: Vec<String> = Vec::new();
    let mut k: usize = 0;
    while k < periods.len()
        invariant
            k <= periods@.len(),
            periods@ == periods_from(from, to),
            crate::text::texts(r@) == period_labels(from, to).take(k as int),
        decreases periods@.len() - k,
    {
        let label = periods[k].label();
        let ghost before = r@;
        r.push(label);
        proof {
            assert(r@ == before.push(label));
            assert(crate::text::texts(r@) =~= crate::text::texts(before).push(label@));
            assert(period_labels(from, to).take(k + 1) =~= period_labels(from, to).take(k as int).push(periods@[k as int].label_text()));
        }
        k = k + 1;
    }
    assert(period_labels(from, to).take(k as int) =~= period_labels(from, to));
    r
}

fn totals_of<P: TimePeriod>(periods: &Vec<(P, CodeStats)>) -> (r: Vec<usize>)
    requires
        forall|j: int| 0 <= j < periods@.len() ==> total_of((#[trigger] periods@[j]).1@) <= usize::MAX,
    ensures
        r@.map_values(|x: usize| x as int) == period_totals(periods@),
{
    let mut r: Vec<usize> = Vec::new();
    let mut k: usize = 0;
    while k < periods.len()
        invariant
            k <= periods@.len(),
            forall|j: int| 0 <= j < periods@.len() ==> total_of((#[trigger] periods@[j]).1@) <= usize::MAX,
            r@.len() == k,
            forall|j: int| 0 <= j < k ==> #[trigger] r@[j] as int == total_of(periods@[j].1@),
        decreases periods@.len() - k,
    {
        assert(total_of(periods@[k as int].1@) <= usize::MAX);
        r.push(periods[k].1.total_lines());
        k = k + 1;
    }
    assert(r@.map_values(|x: usize| x as int) =~= period_totals(periods@));
    r
}

/// `c` is the chart of lines per repository of `stats`.
pub open spec fn is_repo_chart<P: TimePeriod>(base_dir: Seq<char>, stats: &Stats<P>, c: ChartData) -> bool {
    &&& crate::text::texts(c.labels@) == period_labels(stats.from, stats.to)
    &&& exists|perm: Seq<int>| {
        &&& is_permutation(perm, stats.repositories@.len() as int)
        &&& c.datasets@.len() == perm.len()
        &&& forall|j1: int, j2: int| 0 <= j1 < j2 < perm.len() ==> last_total(stats.repositories@[#[trigger] perm[j1]].1)
            <= last_total(stats.repositories@[#[trigger] perm[j2]].1)
        &&& forall|j: int| 0 <= j < perm.len() ==> {
            let repo = stats.repositories@[#[trigger] perm[j]];
            &&& c.datasets@[j].label@ == repo_label(display_name_of(base_dir, repo.0@))
            &&& c.datasets@[j].data@.map_values(|x: usize| x as int) == period_totals(repo.1.periods@)
        }
    }
}

/// Every repository has a display name.
pub open spec fn all_named<P>(base_dir: Seq<char>, repos: Seq<(String, HistoricStats<P>)>) -> bool {
    forall|i: int| 0 <= i < repos.len() ==> display_name_ok(base_dir, (#[trigger] repos[i]).0@)
}

/// The chart of lines per repository: one series per repository, from the smallest to the
/// largest (by the total of its last period), labelled with its display name and holding its
/// total for each of its periods. For an archived repository the gaps are filled only up to its
/// last commit, so its series may be shorter than the axis: the line ends at the last commit.
pub fn get_by_repo_chart<P: TimePeriod>(base_dir: &str, stats: &Stats<P>) -> (r: ChartData)
    requires
        stats.from.well_formed(),
        stats.to.well_formed(),
        stats.to.has_successor(),
        nonempty_histories(stats.repositories@),
        totals_fit(stats.repositories@),
        all_named(base_dir@, stats.repositories@),
    ensures
        is_repo_chart(base_dir@, stats, r),
{
    let repos = &stats.repositories;
    let labels = x_labels(stats.from, stats.to);
    let order = sorted_repo_order(repos);
    let ghost perm = as_ints(order@);
    let mut datasets: Vec<Dataset> = Vec::new();
    let mut j: usize = 0;
    while j < order.len()
        invariant
            j <= order@.len(),
            perm == as_ints(order@),
            is_permutation(perm, repos@.len() as int),
            totals_fit(repos@),
            all_named(base_dir@, repos@),
            datasets@.len() == j,
            forall|j2: int| 0 <= j2 < j ==> {
                let repo = repos@[#[trigger] perm[j2]];
                &&& datasets@[j2].label@ == repo_label(display_name_of(base_dir@, repo.0@))
                &&& datasets@[j2].data@.map_values(|x: usize| x as int) == period_totals(repo.1.periods@)
            },
        decreases order@.len() - j,
    {
        let idx = order[j];
        assert(perm[j as int] == idx as int);
        let name = display_name(base_dir, repos[idx].0.as_str());
        let label = truncate_beginning(name.as_str(), 35, "...");
        proof {
            reveal_strlit("...");
            assert forall|k: int| 0 <= k < repos@[idx as int].1.periods@.len() implies total_of((#[trigger] repos@[idx as int].1.periods@[k]).1@) <= usize::MAX by {
            }
        }
        let data = totals_of(&repos[idx].1.periods);
        datasets.push(Dataset { label, data });
        j = j + 1;
    }
    ChartData { labels, datasets }
}

/// The chart of lines per repository (see `get_by_repo_chart`), `None` when some repository
/// has no display name.
pub fn get_by_repo_chart_checked<P: TimePeriod>(base_dir: &str, stats: &Stats<P>) -> (r: Option<ChartData>)
    requires
        stats.from.well_formed(),
        stats.to.well_formed(),
        stats.to.has_successor(),
        nonempty_histories(stats.repositories@),
        totals_fit(stats.repositories@),
    ensures
        r is None <==> !all_named(base_dir@, stats.repositories@),
        r matches Some(c) ==> is_repo_chart(base_dir@, stats, c),
{
    let mut i: usize = 0;
    while i < stats.repositories.len()
        invariant
            i <= stats.repositories@.len(),
            forall|i2: int| 0 <= i2 < i ==> display_name_ok(base_dir@, (#[trigger] stats.repositories@[i2]).0@),
        decreases stats.repositories@.len() - i,
    {
        if crate::util::try_display_name(base_dir, stats.repositories[i].0.as_str()).is_none() {
            return None;
        }
        i = i + 1;
    }
    Some(get_by_repo_chart(base_dir, stats))
}

} // verus!

verus! {

/// The lines of a language in period `p` of a history (the first entry for `p`), 0 when the
/// history has no such period.
pub open spec fn period_lines<P>(h: Seq<(P, CodeStats)>, p: P, lang: Seq<char>) -> int
    decreases h.len(),
{
    if h.len() == 0 {
        0
    } else if h[0].0 == p {
        lines_of(h[0].1@, lang)
    } else {
        period_lines(h.drop_first(), p, lang)
    }
}

/// The lines of a language in period `p`, added up over the repositories.
pub open spec fn lang_period_total<P>(repos: Seq<(String, HistoricStats<P>)>, lang: Seq<char>, p: P) -> int
    decreases repos.len(),
{
    if repos.len() == 0 {
        0
    } else {
        lang_period_total(repos.drop_last(), lang, p) + period_lines(repos.last().1.periods@, p, lang)
    }
}

/// Some repository has period `p`.
pub open spec fn period_present<P: TimePeriod>(repos: Seq<(String, HistoricStats<P>)>, p: P) -> bool {
    exists|i: int| 0 <= i < repos.len() && has_period((#[trigger] repos[i]).1.periods@, p)
}

/// Well-formed periods in strictly increasing order.
pub open spec fn increasing<P: TimePeriod>(u: Seq<P>) -> bool {
    &&& forall|k: int| 0 <= k < u.len() ==> (#[trigger] u[k]).well_formed()
    &&& forall|k: int, l: int| 0 <= k < l < u.len() ==> key_before((#[trigger] u[k]).key(), (#[trigger] u[l]).key())
}

fn insert_period<P: TimePeriod>(u: &mut Vec<P>, p: P)
    requires
        increasing(old(u)@),
        p.well_formed(),
    ensures
        increasing(final(u)@),
        forall|q: P| #[trigger] final(u)@.contains(q) <==> (old(u)@.contains(q) || q == p),
{
    let mut idx: usize = 0;
    while idx < u.len() && u[idx].precedes(&p)
        invariant
            idx <= u@.len(),
            forall|j: int| 0 <= j < idx ==> key_before((#[trigger] u@[j]).key(), p.key()),
        decreases u@.len() - idx,
    {
        idx = idx + 1;
    }
    if idx < u.len() && u[idx].same(&p) {
        proof {
            assert forall|q: P| #[trigger] u@.contains(q) <==> (u@.contains(q) || q == p) by {
                if q == p {
                    assert(u@[idx as int] == q);
                }
            }
        }
        return;
    }
    let ghost u0 = u@;
    proof {
        if idx < u0.len() {
            P::lemma_order(p, u0[idx as int]);
        }
        assert forall|j: int| idx <= j < u0.len() implies key_before(p.key(), (#[trigger] u0[j]).key()) by {
            if j > idx {
                assert(key_before(u0[idx as int].key(), u0[j].key()));
            }
        }
    }
    u.insert(idx, p);
    proof {
        assert forall|k: int| 0 <= k < u@.len() implies (#[trigger] u@[k]).well_formed() by {
            if k < idx {
                assert(u@[k] == u0[k]);
            } else if k > idx {
                assert(u@[k] == u0[k - 1]);
            }
        }
        assert forall|k: int, l: int| 0 <= k < l < u@.len() implies key_before((#[trigger] u@[k]).key(), (#[trigger] u@[l]).key()) by {
            if l < idx {
                assert(u@[k] == u0[k] && u@[l] == u0[l]);
            } else if l == idx {
                assert(u@[k] == u0[k]);
            } else if k < idx {
                assert(u@[k] == u0[k] && u@[l] == u0[l - 1]);
                assert(key_before(u0[k].key(), p.key()));
            } else if k == idx {
                assert(u@[l] == u0[l - 1]);
            } else {
                assert(u@[k] == u0[k - 1] && u@[l] == u0[l - 1]);
            }
        }
        assert forall|q: P| #[trigger] u@.contains(q) <==> (u0.contains(q) || q == p) by {
            if u0.contains(q) {
                let j = choose|j: int| 0 <= j < u0.len() && u0[j] == q;
                if j < idx {
                    assert(u@[j] == q);
                } else {
                    assert(u@[j + 1] == q);
                }
            }
            if q == p {
                assert(u@[idx as int] == q);
            }
            if u@.contains(q) {
                let j = choose|j: int| 0 <= j < u@.len() && u@[j] == q;
                if j < idx {
                    assert(u0[j] == q);
                } else if j > idx {
                    assert(u0[j - 1] == q);
                }
            }
        }
    }
}

/// All the periods of all the histories, in increasing order.
fn all_periods<P: TimePeriod>(repos: &Vec<(String, HistoricStats<P>)>) -> (u: Vec<P>)
    requires
        forall|i: int, j: int| 0 <= i < repos@.len() && 0 <= j < repos@[i].1.periods@.len()
            ==> (#[trigger] repos@[i].1.periods@[j]).0.well_formed(),
    ensures
        increasing(u@),
        forall|q: P| #[trigger] u@.contains(q) <==> period_present(repos@, q),
{
    let mut u: Vec<P> = Vec::new();
    let mut i: usize = 0;
    while i < repos.len()
        invariant
            i <= repos@.len(),
            forall|i2: int, j: int| 0 <= i2 < repos@.len() && 0 <= j < repos@[i2].1.periods@.len()
                ==> (#[trigger] repos@[i2].1.periods@[j]).0.well_formed(),
            increasing(u@),
            forall|q: P| #[trigger] u@.contains(q) <==> period_present(repos@.take(i as int), q),
        decreases repos@.len() - i,
    {
        let periods = &repos[i].1.periods;
        let mut k: usize = 0;
        while k < periods.len()
            invariant
                i < repos@.len(),
                periods@ == repos@[i as int].1.periods@,
                k <= periods@.len(),
                forall|i2: int, j: int| 0 <= i2 < repos@.len() && 0 <= j < repos@[i2].1.periods@.len()
                    ==> (#[trigger] repos@[i2].1.periods@[j]).0.well_formed(),
                increasing(u@),
                forall|q: P| #[trigger] u@.contains(q) <==> (period_present(repos@.take(i as int), q) || has_period(periods@.take(k as int), q)),
            decreases periods@.len() - k,
        {
            let ghost u_before = u@;
            assert(repos@[i as int].1.periods@[k as int].0.well_formed());
            insert_period(&mut u, periods[k].0);
            proof {
                assert forall|q: P| #[trigger] u@.contains(q) <==> (period_present(repos@.take(i as int), q) || has_period(periods@.take(k + 1), q)) by {
                    if has_period(periods@.take(k + 1), q) {
                        let j = choose|j: int| 0 <= j < periods@.take(k + 1).len() && (#[trigger] periods@.take(k + 1)[j]).0 == q;
                        if j < k {
                            assert(periods@.take(k as int)[j] == periods@.take(k + 1)[j]);
                        }
                    }
                    if has_period(periods@.take(k as int), q) {
                        let j = choose|j: int| 0 <= j < periods@.take(k as int).len() && (#[trigger] periods@.take(k as int)[j]).0 == q;
                        assert(periods@.take(k + 1)[j] == periods@.take(k as int)[j]);
                    }
                    if q == periods@[k as int].0 {
                        assert(periods@.take(k + 1)[k as int].0 == q);
                    }
                }
            }
            k = k + 1;
        }
        proof {
            assert(periods@.take(k as int) =~= periods@);
            assert forall|q: P| #[trigger] u@.contains(q) <==> period_present(repos@.take(i + 1), q) by {
                let t = repos@.take(i + 1);
                if period_present(repos@.take(i as int), q) {
                    let j = choose|j: int| 0 <= j < i && has_period((#[trigger] repos@.take(i as int)[j]).1.periods@, q);
                    assert(t[j] == repos@.take(i as int)[j]);
                }
                if has_period(periods@, q) {
                    assert(t[i as int] == repos@[i as int]);
                }
                if period_present(t, q) {
                    let j = choose|j: int| 0 <= j < t.len() && has_period((#[trigger] t[j]).1.periods@, q);
                    if j < i {
                        assert(repos@.take(i as int)[j] == t[j]);
                    }
                }
            }
        }
        i = i + 1;
    }
    assert(repos@.take(i as int) =~= repos@);
    u
}

fn lines_in_period<P: TimePeriod>(periods: &Vec<(P, CodeStats)>, p: P, lang: &str) -> (r: usize)
    ensures
        r == period_lines(periods@, p, lang@),
{
    let mut k: usize = 0;
    assert(periods@.skip(0) =~= periods@);
    while k < periods.len()
        invariant
            k <= periods@.len(),
            period_lines(periods@, p, lang@) == period_lines(periods@.skip(k as int), p, lang@),
        decreases periods@.len() - k,
    {
        assert(periods@.skip(k as int)[0] == periods@[k as int]);
        if periods[k].0.same(&p) {
            return periods[k].1.lines(lang);
        }
        assert(periods@.skip(k as int).drop_first() =~= periods@.skip(k + 1));
        k = k + 1;
    }
    0
}

proof fn lemma_period_lines_nonneg<P>(h: Seq<(P, CodeStats)>, p: P, lang: Seq<char>)
    ensures
        period_lines(h, p, lang) >= 0,
    decreases h.len(),
{
    if h.len() > 0 {
        lemma_lines_of_nonneg(h[0].1@, lang);
        lemma_period_lines_nonneg(h.drop_first(), p, lang);
    }
}

proof fn lemma_lang_period_total_prefix<P>(repos: Seq<(String, HistoricStats<P>)>, n: int, lang: Seq<char>, p: P)
    requires
        0 <= n <= repos.len(),
    ensures
        0 <= lang_period_total(repos.take(n), lang, p) <= lang_period_total(repos, lang, p),
    decreases repos.len() - n,
{
    if n < repos.len() {
        lemma_lang_period_total_prefix(repos, n + 1, lang, p);
        assert(repos.take(n + 1).drop_last() =~= repos.take(n));
        assert(repos.take(n + 1).last() == repos[n]);
        lemma_period_lines_nonneg(repos[n].1.periods@, p, lang);
        lemma_lang_period_total_nonneg(repos.take(n), lang, p);
    } else {
        assert(repos.take(n) =~= repos);
        lemma_lang_period_total_nonneg(repos, lang, p);
    }
}

proof fn lemma_lang_period_total_nonneg<P>(repos: Seq<(String, HistoricStats<P>)>, lang: Seq<char>, p: P)
    ensures
        lang_period_total(repos, lang, p) >= 0,
    decreases repos.len(),
{
    if repos.len() > 0 {
        lemma_lang_period_total_nonneg(repos.drop_last(), lang, p);
        lemma_period_lines_nonneg(repos.last().1.periods@, p, lang);
    }
}

fn lang_period_sum<P: TimePeriod>(repos: &Vec<(String, HistoricStats<P>)>, lang: &str, p: P) -> (r: usize)
    requires
        lang_period_total(repos@, lang@, p) <= usize::MAX,
    ensures
        r == lang_period_total(repos@, lang@, p),
{
    let mut sum: usize = 0;
    let mut i: usize = 0;
    while i < repos.len()
        invariant
            i <= repos@.len(),
            lang_period_total(repos@, lang@, p) <= usize::MAX,
            sum == lang_period_total(repos@.take(i as int), lang@, p),
        decreases repos@.len() - i,
    {
        let n = lines_in_period(&repos[i].1.periods, p, lang);
        proof {
            assert(repos@.take(i + 1).drop_last() =~= repos@.take(i as int));
            assert(repos@.take(i + 1).last() == repos@[i as int]);
            lemma_lang_period_total_prefix(repos@, i + 1, lang@, p);
        }
        sum = sum + n;
        i = i + 1;
    }
    assert(repos@.take(i as int) =~= repos@);
    sum
}

/// `c` is the chart of lines per language of `stats`.
pub open spec fn is_lang_chart<P: TimePeriod>(stats: &Stats<P>, c: ChartData) -> bool {
    let repos = stats.repositories@;
    &&& crate::text::texts(c.labels@) == period_labels(stats.from, stats.to)
    &&& forall|i: int, j: int| 0 <= i < c.datasets@.len() && 0 <= j < c.datasets@.len() && i != j
        ==> (#[trigger] c.datasets@[i]).label@ != (#[trigger] c.datasets@[j]).label@
    &&& forall|i: int| 0 <= i < c.datasets@.len() ==> lang_present(repos, (#[trigger] c.datasets@[i]).label@)
    &&& forall|l: Seq<char>| lang_present(repos, l) ==> exists|i: int| 0 <= i < c.datasets@.len() && (#[trigger] c.datasets@[i]).label@ == l
    &&& forall|i: int, j: int| 0 <= i < j < c.datasets@.len() ==> lang_total(repos, (#[trigger] c.datasets@[i]).label@)
        <= lang_total(repos, (#[trigger] c.datasets@[j]).label@)
    &&& exists|u: Seq<P>| {
        &&& increasing(u)
        &&& forall|q: P| #[trigger] u.contains(q) <==> period_present(repos, q)
        &&& forall|i: int| 0 <= i < c.datasets@.len() ==> (#[trigger] c.datasets@[i]).data@.len() == u.len()
            && forall|k: int| 0 <= k < u.len() ==> #[trigger] c.datasets@[i].data@[k] == lang_period_total(repos, c.datasets@[i].label@, u[k])
    }
}

/// The chart of lines per language: one series per language, from the least to the most
/// popular, holding for each period that some repository has the lines of that language added
/// up over the repositories.
pub fn get_by_lang_chart<P: TimePeriod>(stats: &Stats<P>) -> (r: ChartData)
    requires
        stats.from.well_formed(),
        stats.to.well_formed(),
        stats.to.has_successor(),
        nonempty_histories(stats.repositories@),
        forall|i: int, j: int| 0 <= i < stats.repositories@.len() && 0 <= j < stats.repositories@[i].1.periods@.len()
            ==> (#[trigger] stats.repositories@[i].1.periods@[j]).0.well_formed(),
        forall|l: Seq<char>| #[trigger] lang_total(stats.repositories@, l) <= usize::MAX,
        forall|l: Seq<char>, p: P| #[trigger] lang_period_total(stats.repositories@, l, p) <= usize::MAX,
    ensures
        is_lang_chart(stats, r),
{
    let repos = &stats.repositories;
    let labels = x_labels(stats.from, stats.to);
    let all_languages = get_sorted_languages(stats);
    let u = all_periods(repos);
    let mut datasets: Vec<Dataset> = Vec::new();
    let mut j: usize = 0;
    while j < all_languages.len()
        invariant
            j <= all_languages@.len(),
            datasets@.len() == j,
            forall|l: Seq<char>, p: P| #[trigger] lang_period_total(repos@, l, p) <= usize::MAX,
            forall|i: int| 0 <= i < j ==> (#[trigger] datasets@[i]).label@ == all_languages@[i]@,
            forall|i: int| 0 <= i < j ==> (#[trigger] datasets@[i]).data@.len() == u@.len()
                && forall|k: int| 0 <= k < u@.len() ==> #[trigger] datasets@[i].data@[k] == lang_period_total(repos@, datasets@[i].label@, u@[k]),
        decreases all_languages@.len() - j,
    {
        let lang = &all_languages[j];
        let mut data: Vec<usize> = Vec::new();
        let mut k: usize = 0;
        while k < u.len()
            invariant
                k <= u@.len(),
                data@.len() == k,
                forall|l: Seq<char>, p: P| #[trigger] lang_period_total(repos@, l, p) <= usize::MAX,
                forall|k2: int| 0 <= k2 < k ==> #[trigger] data@[k2] == lang_period_total(repos@, lang@, u@[k2]),
            decreases u@.len() - k,
        {
            let n = lang_period_sum(repos, lang.as_str(), u[k]);
            data.push(n);
            k = k + 1;
        }
        let ghost before = datasets@;
        datasets.push(Dataset { label: lang.clone(), data });
        proof {
            assert forall|i: int| 0 <= i < j + 1 implies (#[trigger] datasets@[i]).data@.len() == u@.len()
                && forall|k2: int| 0 <= k2 < u@.len() ==> #[trigger] datasets@[i].data@[k2] == lang_period_total(repos@, datasets@[i].label@, u@[k2]) by {
                if i < j {
                    assert(datasets@[i] == before[i]);
                }
            }
        }
        j = j + 1;
    }
    let r = ChartData { labels, datasets };
    proof {
        assert forall|i: int, i2: int| 0 <= i < r.datasets@.len() && 0 <= i2 < r.datasets@.len() && i != i2
            implies (#[trigger] r.datasets@[i]).label@ != (#[trigger] r.datasets@[i2]).label@ by {
            assert(all_languages@[i]@ != all_languages@[i2]@);
        }
        assert forall|l: Seq<char>| lang_present(repos@, l) implies exists|i: int| 0 <= i < r.datasets@.len() && (#[trigger] r.datasets@[i]).label@ == l by {
            let i = choose|i: int| 0 <= i < all_languages@.len() && (#[trigger] all_languages@[i])@ == l;
            assert(r.datasets@[i].label@ == l);
        }
        assert forall|i: int, i2: int| 0 <= i < i2 < r.datasets@.len() implies lang_total(repos@, (#[trigger] r.datasets@[i]).label@)
            <= lang_total(repos@, (#[trigger] r.datasets@[i2]).label@) by {
            assert(lang_total(repos@, all_languages@[i]@) <= lang_total(repos@, all_languages@[i2]@));
        }
    }
    r
}

} // verus!

verus! {

/// The counts that rank the languages and the repositories in the charts are those of the last
/// period of each history.
pub proof fn lemma_last_period<P>(h: HistoricStats<P>)
    ensures
        last_counts(h) == h.periods@[h.periods@.len() - 1].1@,
        last_total(h) == total_of(h.periods@[h.periods@.len() - 1].1@),
{
}

/// The popularity of a language, which orders the series of the chart of lines per language,
/// adds up its lines in the last period of every repository's history.
pub proof fn lemma_lang_total_last_periods<P>(repos: Seq<(String, HistoricStats<P>)>, l: Seq<char>)
    ensures
        repos.len() == 0 ==> lang_total(repos, l) == 0,
        repos.len() > 0 ==> lang_total(repos, l) == lang_total(repos.drop_last(), l)
            + lines_of(repos.last().1.periods@[repos.last().1.periods@.len() - 1].1@, l),
{
    if repos.len() > 0 {
        lemma_last_period(repos.last().1);
    }
}

/// The chart has a series labelled `l`.
pub open spec fn has_series(c: ChartData, l: Seq<char>) -> bool {
    exists|i: int| 0 <= i < c.datasets@.len() && (#[trigger] c.datasets@[i]).label@ == l
}

/// Language `l` is counted in the last period of some repository's history.
pub open spec fn in_some_last_period<P>(repos: Seq<(String, HistoricStats<P>)>, l: Seq<char>) -> bool {
    exists|r: int, k: int|
        0 <= r < repos.len()
        && 0 <= k < repos[r].1.periods@[repos[r].1.periods@.len() - 1].1.languages@.len()
        && (#[trigger] repos[r].1.periods@[repos[r].1.periods@.len() - 1].1.languages@[k]).0@ == l
}

/// The series of the chart of lines per language are the languages that occur in the last period
/// of some repository's history: a language counted only in earlier periods has no series.
pub proof fn lemma_lang_chart_languages<P: TimePeriod>(stats: &Stats<P>, c: ChartData)
    requires
        is_lang_chart(stats, c),
    ensures
        forall|l: Seq<char>| #[trigger] has_series(c, l) <==> in_some_last_period(stats.repositories@, l),
{
    let repos = stats.repositories@;
    assert forall|l: Seq<char>| #[trigger] has_series(c, l) <==> in_some_last_period(repos, l) by {
        if lang_present(repos, l) {
            let r = choose|r: int| 0 <= r < repos.len() && has_language(last_counts((#[trigger] repos[r]).1), l);
            let s = last_counts(repos[r].1);
            let k = choose|k: int| 0 <= k < s.len() && (#[trigger] s[k]).0 == l;
            lemma_last_period(repos[r].1);
            assert(s[k] == (repos[r].1.periods@[repos[r].1.periods@.len() - 1].1.languages@[k].0@,
                repos[r].1.periods@[repos[r].1.periods@.len() - 1].1.languages@[k].1));
        }
        if in_some_last_period(repos, l) {
            let (r, k) = choose|r: int, k: int|
                0 <= r < repos.len()
                && 0 <= k < repos[r].1.periods@[repos[r].1.periods@.len() - 1].1.languages@.len()
                && (#[trigger] repos[r].1.periods@[repos[r].1.periods@.len() - 1].1.languages@[k]).0@ == l;
            let s = last_counts(repos[r].1);
            lemma_last_period(repos[r].1);
            assert(s[k] == (repos[r].1.periods@[repos[r].1.periods@.len() - 1].1.languages@[k].0@,
                repos[r].1.periods@[repos[r].1.periods@.len() - 1].1.languages@[k].1));
            assert(has_language(last_counts(repos[r].1), l));
        }
        if has_series(c, l) {
            let i = choose|i: int| 0 <= i < c.datasets@.len() && (#[trigger] c.datasets@[i]).label@ == l;
            assert(lang_present(repos, c.datasets@[i].label@));
        }
        if lang_present(repos, l) {
            let i = choose|i: int| 0 <= i < c.datasets@.len() && (#[trigger] c.datasets@[i]).label@ == l;
            assert(has_series(c, l));
        }
    }
}

} // verus!
