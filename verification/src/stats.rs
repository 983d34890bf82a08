//! Line counts: per language at one point in time, per period for one repository, and across
//! repositories.
use vstd::prelude::*;

use crate::text::str_eq;
use crate::time_period::{TimePeriod, key_before};

verus! {

/// The view of a set of line counts: (language name, lines) pairs.
pub type CountsView = Seq<(Seq<char>, usize)>;

/// The line count of a language in a view, 0 when it does not occur (the first entry counts).
pub open spec fn lines_of(s: CountsView, lang: Seq<char>) -> int
    decreases s.len(),
{
    if s.len() == 0 {
        0
    } else if s[0].0 == lang {
        s[0].1 as int
    } else {
        lines_of(s.drop_first(), lang)
    }
}

/// The sum of all the line counts of a view.
pub open spec fn total_of(s: CountsView) -> int
    decreases s.len(),
{
    if s.len() == 0 {
        0
    } else {
        total_of(s.drop_last()) + s.last().1
    }
}

/// Some entry of the view is for language `lang`.
pub open spec fn has_language(s: CountsView, lang: Seq<char>) -> bool {
    exists|i: int| 0 <= i < s.len() && (#[trigger] s[i]).0 == lang
}

/// No language occurs twice.
pub open spec fn distinct_languages(s: CountsView) -> bool {
    forall|i: int, j: int| 0 <= i < j < s.len() ==> #[trigger] s[i].0 != #[trigger] s[j].0
}

/// Statistics of a single repository at a single point in time: lines of code per language.
#[derive(Debug)]
pub struct CodeStats {
    pub languages: Vec<(String, usize)>,
}

/// The view of a list of (language, lines) pairs.
pub open spec fn counts_view(v: Seq<(String, usize)>) -> CountsView {
    v.map_values(|e: (String, usize)| (e.0@, e.1))
}

impl View for CodeStats {
    type V = CountsView;

    open spec fn view(&self) -> CountsView {
        counts_view(self.languages@)
    }
}

pub proof fn lemma_lines_of_index(s: CountsView, i: int)
    requires
        distinct_languages(s),
        0 <= i < s.len(),
    ensures
        lines_of(s, s[i].0) == s[i].1,
    decreases s.len(),
{
    if i > 0 {
        assert(s.drop_first()[i - 1] == s[i]);
        assert(s[0].0 != s[i].0);
        lemma_lines_of_index(s.drop_first(), i - 1);
    }
}

pub proof fn lemma_lines_of_absent(s: CountsView, lang: Seq<char>)
    requires
        forall|i: int| 0 <= i < s.len() ==> #[trigger] s[i].0 != lang,
    ensures
        lines_of(s, lang) == 0,
    decreases s.len(),
{
    if s.len() > 0 {
        assert forall|i: int| 0 <= i < s.len() - 1 implies #[trigger] s.drop_first()[i].0 != lang by {
            assert(s.drop_first()[i] == s[i + 1]);
        }
        lemma_lines_of_absent(s.drop_first(), lang);
    }
}

pub proof fn lemma_lines_of_push(s: CountsView, e: (Seq<char>, usize), lang: Seq<char>)
    requires
        forall|i: int| 0 <= i < s.len() ==> #[trigger] s[i].0 != e.0,
    ensures
        lines_of(s.push(e), lang) == if lang == e.0 { e.1 as int } else { lines_of(s, lang) },
    decreases s.len(),
{
    let t = s.push(e);
    if s.len() == 0 {
        assert(t[0] == e);
        assert(t.drop_first() =~= Seq::<(Seq<char>, usize)>::empty());
        assert(lines_of(t.drop_first(), lang) == 0);
    } else {
        assert(t.drop_first() =~= s.drop_first().push(e));
        assert forall|i: int| 0 <= i < s.len() - 1 implies #[trigger] s.drop_first()[i].0 != e.0 by {
            assert(s.drop_first()[i] == s[i + 1]);
        }
        lemma_lines_of_push(s.drop_first(), e, lang);
        assert(t[0] == s[0]);
        assert(s[0].0 != e.0);
    }
}

proof fn lemma_lines_of_update(s: CountsView, k: int, v: usize, lang: Seq<char>)
    requires
        distinct_languages(s),
        0 <= k < s.len(),
    ensures
        lines_of(s.update(k, (s[k].0, v)), lang) == if lang == s[k].0 { v as int } else { lines_of(s, lang) },
    decreases s.len(),
{
    let t = s.update(k, (s[k].0, v));
    if k == 0 {
        assert(t.drop_first() =~= s.drop_first());
    } else {
        assert(t.drop_first() =~= s.drop_first().update(k - 1, (s[k].0, v)));
        assert(s.drop_first()[k - 1] == s[k]);
        assert(s[0].0 != s[k].0);
        lemma_lines_of_update(s.drop_first(), k - 1, v, lang);
    }
}

impl CodeStats {
    /// No language occurs twice.
    pub open spec fn wf(&self) -> bool {
        distinct_languages(self@)
    }

    /// No line counts at all.
    pub fn new() -> (r: CodeStats)
        ensures
            r@.len() == 0,
    {
        CodeStats { languages: Vec::new() }
    }

    /// A copy of the counts.
    pub fn duplicate(&self) -> (r: CodeStats)
        ensures
            r@ == self@,
    {
        let mut languages: Vec<(String, usize)> = Vec::new();
        let mut i: usize = 0;
        while i < self.languages.len()
            invariant
                i <= self.languages@.len(),
                counts_view(languages@) == self@.take(i as int),
            decreases self.languages@.len() - i,
        {
            let name = self.languages[i].0.clone();
            let ghost before = languages@;
            languages.push((name, self.languages[i].1));
            proof {
                assert(languages@ == before.push((name, self.languages@[i as int].1)));
                assert(counts_view(languages@) =~= counts_view(before).push((name@, self.languages@[i as int].1)));
                assert(self@.take(i + 1) =~= self@.take(i as int).push(self@[i as int]));
            }
            i = i + 1;
        }
        assert(self@.take(i as int) =~= self@);
        CodeStats { languages }
    }

    /// The line count of a language, 0 when it has none.
    pub fn lines(&self, lang: &str) -> (r: usize)
        ensures
            r == lines_of(self@, lang@),
    {
        let mut i: usize = 0;
        assert(self@.skip(0) =~= self@);
        while i < self.languages.len()
            invariant
                i <= self.languages@.len(),
                lines_of(self@, lang@) == lines_of(self@.skip(i as int), lang@),
            decreases self.languages@.len() - i,
        {
            assert(self@.skip(i as int)[0] == self@[i as int]);
            if str_eq(self.languages[i].0.as_str(), lang) {
                return self.languages[i].1;
            }
            assert(self@.skip(i as int).drop_first() =~= self@.skip(i + 1));
            i = i + 1;
        }
        0
    }

    /// Adds `lines` to the count of `lang`.
    pub fn add(&mut self, lang: String, lines: usize)
        requires
            old(self).wf(),
            lines_of(old(self)@, lang@) + lines <= usize::MAX,
        ensures
            final(self).wf(),
            forall|l: Seq<char>| #[trigger] lines_of(final(self)@, l) == lines_of(old(self)@, l) + if l == lang@ {
                lines as int
            } else {
                0
            },
            forall|l: Seq<char>| #[trigger] has_language(final(self)@, l) <==> (has_language(old(self)@, l) || l == lang@),
    {
        let mut i: usize = 0;
        while i < self.languages.len()
            invariant
                self.wf(),
                *self == *old(self),
                lines_of(old(self)@, lang@) + lines <= usize::MAX,
                i <= self.languages@.len(),
                forall|j: int| 0 <= j < i ==> #[trigger] self@[j].0 != lang@,
            decreases self.languages@.len() - i,
        {
            if str_eq(self.languages[i].0.as_str(), lang.as_str()) {
                let n = self.languages[i].1;
                proof {
                    assert(self@[i as int].0 == lang@);
                    lemma_lines_of_index(self@, i as int);
                    assert forall|l: Seq<char>| #[trigger] lines_of(self@.update(i as int, (self@[i as int].0, (n + lines) as usize)), l)
                        == lines_of(old(self)@, l) + if l == lang@ { lines as int } else { 0 } by {
                        lemma_lines_of_update(self@, i as int, (n + lines) as usize, l);
                    }
                }
                let name = self.languages[i].0.clone();
                self.languages.set(i, (name, n + lines));
                proof {
                    assert(self@ =~= old(self)@.update(i as int, (old(self)@[i as int].0, (n + lines) as usize)));
                    assert forall|l: Seq<char>| #[trigger] has_language(self@, l) <==> (has_language(old(self)@, l) || l == lang@) by {
                        if has_language(old(self)@, l) {
                            let j = choose|j: int| 0 <= j < old(self)@.len() && (#[trigger] old(self)@[j]).0 == l;
                            assert(self@[j].0 == l);
                        }
                        if l == lang@ {
                            assert(self@[i as int].0 == l);
                        }
                        if has_language(self@, l) {
                            let j = choose|j: int| 0 <= j < self@.len() && (#[trigger] self@[j]).0 == l;
                            assert(old(self)@[j].0 == l);
                        }
                    }
                }
                return;
            }
            i = i + 1;
        }
        proof {
            lemma_lines_of_absent(self@, lang@);
            assert forall|l: Seq<char>| #[trigger] lines_of(self@.push((lang@, lines)), l)
                == lines_of(old(self)@, l) + if l == lang@ { lines as int } else { 0 } by {
                lemma_lines_of_push(self@, (lang@, lines), l);
                if l == lang@ {
                }
            }
        }
        self.languages.push((lang, lines));
        proof {
            assert(self@ =~= old(self)@.push((lang@, lines)));
            assert forall|l: Seq<char>| #[trigger] has_language(self@, l) <==> (has_language(old(self)@, l) || l == lang@) by {
                if has_language(old(self)@, l) {
                    let j = choose|j: int| 0 <= j < old(self)@.len() && (#[trigger] old(self)@[j]).0 == l;
                    assert(self@[j].0 == l);
                }
                if l == lang@ {
                    assert(self@[old(self)@.len() as int].0 == l);
                }
                if has_language(self@, l) {
                    let j = choose|j: int| 0 <= j < self@.len() && (#[trigger] self@[j]).0 == l;
                    if j < old(self)@.len() {
                        assert(old(self)@[j].0 == l);
                    }
                }
            }
        }
    }

    /// The total number of lines over all languages.
    pub fn total_lines(&self) -> (r: usize)
        requires
            total_of(self@) <= usize::MAX,
        ensures
            r == total_of(self@),
    {
        let mut sum: usize = 0;
        let mut i: usize = 0;
        while i < self.languages.len()
            invariant
                i <= self.languages@.len(),
                sum == total_of(self@.take(i as int)),
                total_of(self@) <= usize::MAX,
            decreases self.languages@.len() - i,
        {
            proof {
                assert(self@.take(i + 1).drop_last() =~= self@.take(i as int));
                lemma_total_prefix(self@, i + 1);
            }
            sum = sum + self.languages[i].1;
            i = i + 1;
        }
        assert(self@.take(i as int) =~= self@);
        sum
    }

    /// Whether some language has at least `min_lines` lines.
    pub fn reaches(&self, min_lines: usize) -> (r: bool)
        ensures
            r == exists|i: int| 0 <= i < self@.len() && #[trigger] self@[i].1 >= min_lines,
    {
        let mut i: usize = 0;
        while i < self.languages.len()
            invariant
                i <= self.languages@.len(),
                forall|j: int| 0 <= j < i ==> #[trigger] self@[j].1 < min_lines,
            decreases self.languages@.len() - i,
        {
            if self.languages[i].1 >= min_lines {
                assert(self@[i as int].1 >= min_lines);
                return true;
            }
            i = i + 1;
        }
        false
    }
}

/// The totals of the prefixes of a view never exceed the total of the whole.
pub proof fn lemma_total_prefix(s: CountsView, n: int)
    requires
        0 <= n <= s.len(),
    ensures
        0 <= total_of(s.take(n)) <= total_of(s),
    decreases s.len() - n,
{
    if n < s.len() {
        lemma_total_prefix(s, n + 1);
        assert(s.take(n + 1).drop_last() =~= s.take(n));
        assert(s.take(n + 1).last() == s[n]);
        lemma_total_nonneg(s.take(n));
    } else {
        assert(s.take(n) =~= s);
        lemma_total_nonneg(s);
    }
}

proof fn lemma_total_nonneg(s: CountsView)
    ensures
        total_of(s) >= 0,
    decreases s.len(),
{
    if s.len() > 0 {
        lemma_total_nonneg(s.drop_last());
    }
}

/// Some file was counted for language `lang`.
pub open spec fn file_counted(files: Seq<Option<(String, usize)>>, lang: Seq<char>) -> bool {
    exists|i: int| 0 <= i < files.len() && counted_as(#[trigger] files[i], lang)
}

/// A file count is for language `lang`.
pub open spec fn counted_as(file: Option<(String, usize)>, lang: Seq<char>) -> bool {
    file matches Some((l, _)) && l@ == lang
}

/// Line counts per language built from the counts of individual files: `None` files (no
/// language, or one that is skipped) count for nothing. A language is present exactly when some
/// file was counted for it, with 0 lines too.
pub fn code_stats_from_files(files: &Vec<Option<(String, usize)>>) -> (r: Option<CodeStats>)
    ensures
        r matches Some(s) ==> s.wf() && forall|l: Seq<char>| #[trigger] lines_of(s@, l) == file_lines(files@, l),
        r matches Some(s) ==> forall|l: Seq<char>| #[trigger] has_language(s@, l) <==> file_counted(files@, l),
        r is None <==> exists|l: Seq<char>| #[trigger] file_lines(files@, l) > usize::MAX,
{
    let mut stats = CodeStats::new();
    let mut i: usize = 0;
    while i < files.len()
        invariant
            i <= files@.len(),
            stats.wf(),
            forall|l: Seq<char>| #[trigger] lines_of(stats@, l) == file_lines(files@.take(i as int), l),
            forall|l: Seq<char>| #[trigger] has_language(stats@, l) <==> file_counted(files@.take(i as int), l),
        decreases files@.len() - i,
    {
        proof {
            assert(files@.take(i + 1).drop_last() =~= files@.take(i as int));
        }
        match &files[i] {
            Some((lang, lines)) => {
                let current = stats.lines(lang.as_str());
                if current > usize::MAX - *lines {
                    proof {
                        lemma_file_lines_grow(files@, i + 1, lang@);
                    }
                    return None;
                }
                stats.add(lang.clone(), *lines);
            },
            None => {},
        }
        proof {
            let t = files@.take(i + 1);
            assert forall|l: Seq<char>| #[trigger] file_counted(t, l) <==> (file_counted(files@.take(i as int), l)
                || counted_as(files@[i as int], l)) by {
                if file_counted(t, l) {
                    let j = choose|j: int| 0 <= j < t.len() && counted_as(#[trigger] t[j], l);
                    if j < i {
                        assert(files@.take(i as int)[j] == t[j]);
                    }
                }
                if file_counted(files@.take(i as int), l) {
                    let j = choose|j: int| 0 <= j < i && counted_as(#[trigger] files@.take(i as int)[j], l);
                    assert(t[j] == files@.take(i as int)[j]);
                }
                if counted_as(files@[i as int], l) {
                    assert(t[i as int] == files@[i as int]);
                }
            }
        }
        i = i + 1;
    }
    assert(files@.take(i as int) =~= files@);
    proof {
        assert forall|l: Seq<char>| #[trigger] file_lines(files@, l) <= usize::MAX by {
            lemma_lines_of_bounded(stats@, l);
        }
    }
    Some(stats)
}

proof fn lemma_lines_of_bounded(s: CountsView, l: Seq<char>)
    ensures
        0 <= lines_of(s, l) <= usize::MAX,
    decreases s.len(),
{
    if s.len() > 0 {
        lemma_lines_of_bounded(s.drop_first(), l);
    }
}

/// The lines that a list of per-file counts gives to a language.
pub open spec fn file_lines(files: Seq<Option<(String, usize)>>, lang: Seq<char>) -> int
    decreases files.len(),
{
    if files.len() == 0 {
        0
    } else {
        file_lines(files.drop_last(), lang) + match files.last() {
            Some((l, n)) => if l@ == lang { n as int } else { 0 },
            None => 0,
        }
    }
}

proof fn lemma_file_lines_grow(files: Seq<Option<(String, usize)>>, n: int, lang: Seq<char>)
    requires
        0 <= n <= files.len(),
    ensures
        file_lines(files.take(n), lang) <= file_lines(files, lang),
    decreases files.len() - n,
{
    if n < files.len() {
        lemma_file_lines_grow(files, n + 1, lang);
        assert(files.take(n + 1).drop_last() =~= files.take(n));
    } else {
        assert(files.take(n) =~= files);
    }
}

/// The periods of a history are well formed, in strictly increasing order, and leave room for a
/// following period.
pub open spec fn sorted_periods<P: TimePeriod>(s: Seq<(P, CodeStats)>) -> bool {
    &&& forall|i: int| 0 <= i < s.len() ==> (#[trigger] s[i]).0.well_formed() && s[i].0.has_successor()
    &&& forall|i: int, j: int| 0 <= i < j < s.len() ==> key_before((#[trigger] s[i]).0.key(), (#[trigger] s[j]).0.key())
}

/// Statistics of a single repository across time.
#[derive(Debug)]
pub struct HistoricStats<P> {
    pub periods: Vec<(P, CodeStats)>,
}

/// Statistics across repositories and time.
#[derive(Debug)]
pub struct Stats<P> {
    pub from: P,
    pub to: P,
    pub repositories: Vec<(String, HistoricStats<P>)>,
}

} // verus!
