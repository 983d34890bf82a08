//! Helpers on options, strings and paths.
use vstd::prelude::*;

use unicode_segmentation::UnicodeSegmentation;

use crate::paths::{ComponentView, components_view, path_components, path_components_of};
use crate::text::{push_str, string_from_chars};

verus! {

/// Merges two options: both present are combined with `merge_fn`, otherwise whichever is
/// present is kept.
pub fn merge_options<T, F: Fn(T, T) -> T>(a: Option<T>, b: Option<T>, merge_fn: F) -> (r: Option<T>)
    requires
        a is Some && b is Some ==> call_requires(merge_fn, (a->0, b->0)),
    ensures
        match (a, b) {
            (Some(x), Some(y)) => r matches Some(z) && call_ensures(merge_fn, (x, y), z),
            (Some(x), None) => r == Some(x),
            (None, _) => r == b,
        },
{
    match (a, b) {
        (Some(a), Some(b)) => Some(merge_fn(a, b)),
        (Some(a), None) => Some(a),
        (None, opt_b) => opt_b,
    }
}

/// The extended grapheme clusters of a string, as `unicode_segmentation` splits it.
pub uninterp spec fn grapheme_clusters(s: Seq<char>) -> Seq<Seq<char>>;

/// Splits `s` into extended grapheme clusters with `UnicodeSegmentation::graphemes(s, true)`.
/// Trusted: the result is named `grapheme_clusters`; the iterator hands out consecutive non-empty
/// slices of `s` that together make up all of it (its source slices the string between
/// successive boundaries), so the clusters are non-empty and concatenate back to `s`.
#[verifier::external_body]
fn graphemes(s: &str) -> (r: Vec<String>)
    ensures
        r@.map_values(|g: String| g@) == grapheme_clusters(s@),
        r@.map_values(|g: String| g@).flatten() == s@,
        forall|i: int| 0 <= i < r@.len() ==> #[trigger] r@[i]@.len() > 0,
{
    s.graphemes(true).map(|g| g.to_string()).collect()
}

/// The last `n` grapheme clusters of `s` (all of them when it has fewer), put back together.
pub open spec fn last_graphemes(s: Seq<char>, n: nat) -> Seq<char> {
    let g = grapheme_clusters(s);
    let k = if n < g.len() { n as int } else { g.len() as int };
    g.subrange(g.len() - k, g.len() as int).flatten()
}

proof fn lemma_flatten_suffix(g: Seq<Seq<char>>, j: int)
    requires
        0 <= j <= g.len(),
    ensures
        g.flatten() == g.take(j).flatten() + g.subrange(j, g.len() as int).flatten(),
{
    assert(g =~= g.take(j) + g.subrange(j, g.len() as int));
    vstd::seq_lib::lemma_flatten_concat(g.take(j), g.subrange(j, g.len() as int));
}

/// Keeps the last `max_graphemes` grapheme clusters of `string`; when that drops anything, the
/// kept part is preceded by `ellipsis`.
pub fn truncate_beginning(string: &str, max_graphemes: usize, ellipsis: &str) -> (r: String)
    ensures
        last_graphemes(string@, max_graphemes as nat).len() < string@.len()
            ==> r@ == ellipsis@ + last_graphemes(string@, max_graphemes as nat),
        last_graphemes(string@, max_graphemes as nat).len() >= string@.len() ==> r@ == string@,
        string@.len() >= last_graphemes(string@, max_graphemes as nat).len(),
        last_graphemes(string@, max_graphemes as nat) == string@.skip(
            string@.len() - last_graphemes(string@, max_graphemes as nat).len(),
        ),
        forall|i: int| 0 <= i < grapheme_clusters(string@).len() ==> #[trigger] grapheme_clusters(string@)[i].len() > 0,
        grapheme_clusters(string@).flatten() == string@,
        grapheme_clusters(string@).len() <= max_graphemes ==> r@ == string@,
        grapheme_clusters(string@).len() > max_graphemes ==> r@ == ellipsis@ + last_graphemes(string@, max_graphemes as nat),
{
    let g = graphemes(string);
    let ghost gv = grapheme_clusters(string@);
    proof {
        assert forall|i: int| 0 <= i < gv.len() implies #[trigger] gv[i].len() > 0 by {
            assert(g@.map_values(|x: String| x@)[i] == g@[i]@);
        }
    }
    let n = g.len();
    let k = if max_graphemes < n {
        max_graphemes
    } else {
        n
    };
    let mut truncated: Vec<char> = Vec::new();
    let mut i: usize = n - k;
    proof {
        assert(g@.len() == gv.len());
        assert(gv.subrange((n - k) as int, (n - k) as int) =~= Seq::<Seq<char>>::empty());
    }
    while i < n
        invariant
            n == g@.len(),
            gv.len() == n,
            g@.map_values(|x: String| x@) == gv,
            k <= n,
            n - k <= i <= n,
            truncated@ == gv.subrange((n - k) as int, i as int).flatten(),
        decreases n - i,
    {
        push_str(g[i].as_str(), &mut truncated);
        proof {
            assert(g@.map_values(|x: String| x@)[i as int] == g@[i as int]@);
            assert(gv.subrange((n - k) as int, i + 1) =~= gv.subrange((n - k) as int, i as int).push(gv[i as int]));
            gv.subrange((n - k) as int, i as int).lemma_flatten_push(gv[i as int]);
        }
        i = i + 1;
    }
    proof {
        lemma_flatten_suffix(gv, (n - k) as int);
        assert(truncated@ == last_graphemes(string@, max_graphemes as nat));
        assert(string@ =~= gv.take((n - k) as int).flatten() + truncated@);
        assert(string@.skip(string@.len() - truncated@.len()) =~= truncated@);
        if n <= max_graphemes {
            assert(gv.take(0) =~= Seq::<Seq<char>>::empty());
            assert(truncated@ =~= string@);
        } else {
            let dropped = gv.take((n - k) as int);
            assert(dropped.len() > 0);
            assert(dropped.first() == gv[0]);
            assert(dropped.flatten() == dropped.first() + dropped.drop_first().flatten());
            assert(dropped.flatten().len() > 0);
            assert(truncated@.len() < string@.len());
        }
    }
    let len_t = truncated.len();
    let len_s = string.unicode_len();
    if len_t < len_s {
        let mut out: Vec<char> = Vec::new();
        push_str(ellipsis, &mut out);
        let mut j: usize = 0;
        while j < len_t
            invariant
                len_t == truncated@.len(),
                j <= len_t,
                out@ == ellipsis@ + truncated@.take(j as int),
            decreases len_t - j,
        {
            out.push(truncated[j]);
            j = j + 1;
            assert(out@ =~= ellipsis@ + truncated@.take(j as int));
        }
        assert(truncated@.take(len_t as int) =~= truncated@);
        string_from_chars(&out)
    } else {
        proof {
            assert(truncated@ =~= string@);
        }
        string_from_chars(&truncated)
    }
}

/// The path that `std::path::PathBuf` builds by pushing components with these texts in turn.
pub uninterp spec fn path_joined_from(texts: Seq<Seq<char>>) -> Seq<char>;

/// The texts of a sequence of components.
pub open spec fn component_texts(c: Seq<ComponentView>) -> Seq<Seq<char>> {
    c.map_values(|x: ComponentView| x.1)
}

/// Collects components into a `std::path::PathBuf` (`FromIterator`, which pushes each in turn),
/// given by their texts. Trusted: the result is named `path_joined_from`.
#[verifier::external_body]
fn join_components(c: &Vec<(u8, Vec<char>)>) -> (r: String)
    ensures
        r@ == path_joined_from(component_texts(components_view(c@))),
{
    c.iter()
        .map(|(_, text)| text.iter().collect::<String>())
        .collect::<std::path::PathBuf>()
        .to_string_lossy()
        .into_owned()
}

/// The longest common prefix of two sequences.
pub open spec fn common_prefix<A>(a: Seq<A>, b: Seq<A>) -> Seq<A>
    decreases a.len(),
{
    if a.len() == 0 || b.len() == 0 || a[0] != b[0] {
        Seq::empty()
    } else {
        seq![a[0]] + common_prefix(a.drop_first(), b.drop_first())
    }
}

/// The longest common prefix of all the sequences of a non-empty list.
pub open spec fn common_prefix_all<A>(s: Seq<Seq<A>>) -> Seq<A>
    decreases s.len(),
{
    if s.len() <= 1 {
        s[0]
    } else {
        common_prefix(common_prefix_all(s.drop_last()), s.last())
    }
}

proof fn lemma_common_prefix<A>(a: Seq<A>, b: Seq<A>)
    ensures
        common_prefix(a, b).len() <= a.len(),
        common_prefix(a, b).len() <= b.len(),
        common_prefix(a, b) == a.take(common_prefix(a, b).len() as int),
        common_prefix(a, b) == b.take(common_prefix(a, b).len() as int),
        common_prefix(a, b).len() < a.len() && common_prefix(a, b).len() < b.len() ==> a[common_prefix(
            a,
            b,
        ).len() as int] != b[common_prefix(a, b).len() as int],
    decreases a.len(),
{
    if a.len() > 0 && b.len() > 0 && a[0] == b[0] {
        lemma_common_prefix(a.drop_first(), b.drop_first());
        let c = common_prefix(a.drop_first(), b.drop_first());
        assert(common_prefix(a, b) =~= a.take((c.len() + 1) as int));
        assert(common_prefix(a, b) =~= b.take((c.len() + 1) as int));
    } else {
        assert(common_prefix(a, b) =~= a.take(0));
        assert(common_prefix(a, b) =~= b.take(0));
    }
}

/// The longest common prefix of a list of sequences starts each of them, and no longer prefix
/// does: either it is one of them whole, or two of them differ right after it.
pub proof fn lemma_common_prefix_all<A>(s: Seq<Seq<A>>)
    requires
        s.len() > 0,
    ensures
        forall|i: int| 0 <= i < s.len() ==> #[trigger] s[i].len() >= common_prefix_all(s).len()
            && s[i].take(common_prefix_all(s).len() as int) == common_prefix_all(s),
        (exists|i: int| 0 <= i < s.len() && #[trigger] s[i].len() == common_prefix_all(s).len()) || (exists|
            i: int,
            j: int,
        |
            0 <= i < s.len() && 0 <= j < s.len() && #[trigger] s[i][common_prefix_all(s).len() as int]
                != #[trigger] s[j][common_prefix_all(s).len() as int]),
    decreases s.len(),
{
    let c = common_prefix_all(s);
    if s.len() == 1 {
        assert(s[0].take(s[0].len() as int) =~= s[0]);
        assert(s[0].len() == c.len());
    } else {
        let d = s.drop_last();
        lemma_common_prefix_all(d);
        let p = common_prefix_all(d);
        lemma_common_prefix(p, s.last());
        assert forall|i: int| 0 <= i < s.len() implies #[trigger] s[i].len() >= c.len() && s[i].take(
            c.len() as int,
        ) == c by {
            if i < s.len() - 1 {
                assert(s[i] == d[i]);
                assert(s[i].take(c.len() as int) =~= s[i].take(p.len() as int).take(c.len() as int));
            }
        }
        if c.len() == s.last().len() {
            assert(s[s.len() - 1].len() == c.len());
        } else if c.len() == p.len() {
            if exists|i: int| 0 <= i < d.len() && #[trigger] d[i].len() == p.len() {
                let i = choose|i: int| 0 <= i < d.len() && #[trigger] d[i].len() == p.len();
                assert(s[i] == d[i]);
            } else {
                let (i, j) = choose|i: int, j: int|
                    0 <= i < d.len() && 0 <= j < d.len() && #[trigger] d[i][p.len() as int]
                        != #[trigger] d[j][p.len() as int];
                assert(s[i] == d[i]);
                assert(s[j] == d[j]);
            }
        } else {
            let i = choose|i: int| 0 <= i < d.len() && #[trigger] d[i].len() >= 0;
            assert(s[0] == d[0]);
            assert(d[0].take(p.len() as int) == p);
            assert(s[0][c.len() as int] == d[0].take(p.len() as int)[c.len() as int]);
            assert(s[0][c.len() as int] != s[s.len() - 1][c.len() as int]);
        }
    }
}

fn common_components(a: &Vec<(u8, Vec<char>)>, b: &Vec<(u8, Vec<char>)>) -> (r: Vec<(u8, Vec<char>)>)
    ensures
        components_view(r@) == common_prefix(components_view(a@), components_view(b@)),
{
    let ghost va = components_view(a@);
    let ghost vb = components_view(b@);
    let mut r: Vec<(u8, Vec<char>)> = Vec::new();
    let mut i: usize = 0;
    proof {
        lemma_common_prefix(va, vb);
        assert(va.skip(0) =~= va);
        assert(vb.skip(0) =~= vb);
        assert(va.take(0) + common_prefix(va, vb) =~= common_prefix(va, vb));
        assert(va.take(0) =~= vb.take(0));
    }
    while i < a.len() && i < b.len()
        invariant
            va == components_view(a@),
            vb == components_view(b@),
            i <= a@.len(),
            i <= b@.len(),
            components_view(r@) == va.take(i as int),
            va.take(i as int) == vb.take(i as int),
            common_prefix(va, vb) == va.take(i as int) + common_prefix(va.skip(i as int), vb.skip(i as int)),
        decreases a@.len() - i,
    {
        let ka = a[i].0;
        let kb = b[i].0;
        let same = ka == kb && crate::paths::chars_equal(&a[i].1, &b[i].1);
        proof {
            assert(va[i as int] == (ka, a@[i as int].1@));
            assert(vb[i as int] == (kb, b@[i as int].1@));
            assert(va.skip(i as int)[0] == va[i as int]);
            assert(vb.skip(i as int)[0] == vb[i as int]);
        }
        if !same {
            proof {
                assert(common_prefix(va.skip(i as int), vb.skip(i as int)) =~= Seq::<ComponentView>::empty());
                assert(va.take(i as int) + Seq::<ComponentView>::empty() =~= va.take(i as int));
            }
            return r;
        }
        let text = crate::paths::copy_chars(&a[i].1);
        r.push((ka, text));
        proof {
            assert(va.skip(i as int).drop_first() =~= va.skip(i + 1));
            assert(vb.skip(i as int).drop_first() =~= vb.skip(i + 1));
            assert(components_view(r@) =~= va.take(i + 1));
            assert(va.take(i + 1) =~= vb.take(i + 1));
            assert(va.take(i as int) + (seq![va[i as int]] + common_prefix(va.skip(i + 1), vb.skip(i + 1)))
                =~= va.take(i + 1) + common_prefix(va.skip(i + 1), vb.skip(i + 1)));
        }
        i = i + 1;
    }
    proof {
        assert(common_prefix(va.skip(i as int), vb.skip(i as int)) =~= Seq::<ComponentView>::empty());
        assert(va.take(i as int) + Seq::<ComponentView>::empty() =~= va.take(i as int));
    }
    r
}

/// The components of each path of a list.
pub open spec fn all_components(dirs: Seq<String>) -> Seq<Seq<ComponentView>> {
    dirs.map_values(|d: String| path_components_of(d@))
}

/// Returns the longest common ancestor directory of all the given paths.
///
/// Walks the paths component by component, keeping only the prefix that is identical across all
/// of them. For example, `/a/b/c` and `/a/b/d` share the prefix `/a/b`.
pub fn longest_common_subpath(dirs: &[String]) -> (r: String)
    requires
        dirs@.len() > 0,
    ensures
        r@ == path_joined_from(component_texts(common_prefix_all(all_components(dirs@)))),
{
    let ghost all = all_components(dirs@);
    let mut common = path_components(dirs[0].as_str());
    let mut i: usize = 1;
    proof {
        assert(all.take(1).len() == 1);
    }
    while i < dirs.len()
        invariant
            1 <= i <= dirs@.len(),
            all == all_components(dirs@),
            components_view(common@) == common_prefix_all(all.take(i as int)),
        decreases dirs@.len() - i,
    {
        let next = path_components(dirs[i].as_str());
        common = common_components(&common, &next);
        proof {
            assert(all.take(i + 1).drop_last() =~= all.take(i as int));
            assert(all.take(i + 1).last() == all[i as int]);
        }
        i = i + 1;
    }
    proof {
        assert(all.take(dirs@.len() as int) =~= all);
    }
    join_components(&common)
}

} // verus!

verus! {

/// The path of `path` relative to `base`, as `pathdiff::diff_paths` computes it.
pub uninterp spec fn relative_path_of(path: Seq<char>, base: Seq<char>) -> Option<Seq<char>>;

/// The last component of a path, as `std::path::Path::file_name` gives it.
pub uninterp spec fn file_name_of(path: Seq<char>) -> Option<Seq<char>>;

/// `pathdiff::diff_paths(path, base)`, as a string. Trusted: the result is named
/// `relative_path_of`.
#[verifier::external_body]
fn diff_paths(path: &str, base: &str) -> (r: Option<String>)
    ensures
        r matches Some(s) ==> relative_path_of(path@, base@) == Some(s@),
        r is None ==> relative_path_of(path@, base@) is None,
{
    pathdiff::diff_paths(path, base).map(|p| p.to_string_lossy().into_owned())
}

/// `std::path::Path::file_name`, as a string. Trusted: the result is named `file_name_of`.
#[verifier::external_body]
fn file_name(path: &str) -> (r: Option<String>)
    ensures
        r matches Some(s) ==> file_name_of(path@) == Some(s@),
        r is None ==> file_name_of(path@) is None,
{
    std::path::Path::new(path).file_name().map(|n| n.to_string_lossy().into_owned())
}

/// The path of a repository relative to the base directory, or the path itself where there is
/// no relative path.
pub open spec fn relative_or_whole(path: Seq<char>, base: Seq<char>) -> Seq<char> {
    match relative_path_of(path, base) {
        Some(r) => r,
        None => path,
    }
}

/// A display name exists: the relative path is not empty, or the base has a last component.
pub open spec fn display_name_ok(base: Seq<char>, path: Seq<char>) -> bool {
    relative_or_whole(path, base).len() > 0 || file_name_of(base) is Some
}

/// The display name of a repository.
pub open spec fn display_name_of(base: Seq<char>, path: Seq<char>) -> Seq<char> {
    if relative_or_whole(path, base).len() == 0 {
        file_name_of(base)->0
    } else {
        relative_or_whole(path, base)
    }
}

/// The display name of a repository is its path relative to the common ancestor of the base
/// directories. However, when there is only one repository and it is the base itself, the
/// relative path would be empty, making reports confusing. In that case the last component of
/// the base path, the name of the repository's own directory, is used.
pub fn display_name(base_path: &str, path: &str) -> (r: String)
    requires
        display_name_ok(base_path@, path@),
    ensures
        r@ == display_name_of(base_path@, path@),
{
    let rel = match diff_paths(path, base_path) {
        Some(r) => r,
        None => path.to_owned(),
    };
    if rel.unicode_len() == 0 {
        match file_name(base_path) {
            Some(name) => name,
            None => rel,
        }
    } else {
        rel
    }
}

/// The display name of a repository (see `display_name`), `None` where there is none: the
/// relative path is empty and the base has no last component.
pub fn try_display_name(base_path: &str, path: &str) -> (r: Option<String>)
    ensures
        r is None <==> !display_name_ok(base_path@, path@),
        r matches Some(s) ==> s@ == display_name_of(base_path@, path@),
{
    let rel = match diff_paths(path, base_path) {
        Some(r) => r,
        None => path.to_owned(),
    };
    if rel.unicode_len() == 0 && file_name(base_path).is_none() {
        return None;
    }
    Some(display_name(base_path, path))
}

} // verus!
