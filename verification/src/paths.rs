use vstd::prelude::*;

verus! {

/// A path component as `std::path::Path::components` yields it: a kind number and its text.
/// The kinds are numbered in the order of `std::path::Component`'s variants: 0 a prefix,
/// 1 the root directory, 2 the current directory, 3 the parent directory, 4 a normal name.
pub type ComponentView = (u8, Seq<char>);

/// The components of a path, as `std::path::Path::components` splits it.
pub uninterp spec fn path_components_of(path: Seq<char>) -> Seq<ComponentView>;

pub open spec fn components_view(v: Seq<(u8, Vec<char>)>) -> Seq<ComponentView> {
    Seq::new(v.len(), |i: int| (v[i].0, v[i].1@))
}

/// Calls `std::path::Path::components` on `path`, turning each component into its kind
/// number and its characters; the result is named `path_components_of`.
#[verifier::external_body]
pub(crate) fn path_components(path: &str) -> (r: Vec<(u8, Vec<char>)>)
    ensures
        components_view(r@) == path_components_of(path@),
{
    std::path::Path::new(path)
        .components()
        .map(|c| {
            let kind: u8 = match c {
                std::path::Component::Prefix(_) => 0,
                std::path::Component::RootDir => 1,
                std::path::Component::CurDir => 2,
                std::path::Component::ParentDir => 3,
                std::path::Component::Normal(_) => 4,
            };
            (kind, c.as_os_str().to_string_lossy().chars().collect())
        })
        .collect()
}

/// Lexicographic order of character sequences by code point (the byte order of their UTF-8
/// encodings).
pub open spec fn chars_lt(a: Seq<char>, b: Seq<char>) -> bool
    decreases a.len(),
{
    if a.len() == 0 {
        b.len() > 0
    } else if b.len() == 0 {
        false
    } else if a[0] != b[0] {
        (a[0] as u32) < (b[0] as u32)
    } else {
        chars_lt(a.drop_first(), b.drop_first())
    }
}

/// Order of two components: by kind first, then by text.
pub open spec fn component_lt(x: ComponentView, y: ComponentView) -> bool {
    x.0 < y.0 || (x.0 == y.0 && chars_lt(x.1, y.1))
}

/// Lexicographic order of component sequences: the order of `std::path::Path`.
pub open spec fn components_lt(a: Seq<ComponentView>, b: Seq<ComponentView>) -> bool
    decreases a.len(),
{
    if a.len() == 0 {
        b.len() > 0
    } else if b.len() == 0 {
        false
    } else if a[0] != b[0] {
        component_lt(a[0], b[0])
    } else {
        components_lt(a.drop_first(), b.drop_first())
    }
}

pub proof fn lemma_chars_lt_irreflexive(a: Seq<char>)
    ensures
        !chars_lt(a, a),
    decreases a.len(),
{
    if a.len() > 0 {
        lemma_chars_lt_irreflexive(a.drop_first());
    }
}

pub proof fn lemma_chars_lt_transitive(a: Seq<char>, b: Seq<char>, c: Seq<char>)
    requires
        chars_lt(a, b),
        chars_lt(b, c),
    ensures
        chars_lt(a, c),
    decreases a.len(),
{
    if a.len() > 0 && b.len() > 0 && c.len() > 0 && a[0] == b[0] && b[0] == c[0] {
        lemma_chars_lt_transitive(a.drop_first(), b.drop_first(), c.drop_first());
    }
}

pub proof fn lemma_chars_lt_total(a: Seq<char>, b: Seq<char>)
    requires
        a != b,
    ensures
        chars_lt(a, b) || chars_lt(b, a),
    decreases a.len(),
{
    if a.len() > 0 && b.len() > 0 && a[0] == b[0] {
        if a.drop_first() == b.drop_first() {
            assert(a =~= seq![a[0]] + a.drop_first());
            assert(b =~= seq![b[0]] + b.drop_first());
        }
        lemma_chars_lt_total(a.drop_first(), b.drop_first());
    } else if a.len() == 0 && b.len() == 0 {
        assert(a =~= b);
    } else if a.len() > 0 && b.len() > 0 {
        vstd::utf8::char_u32_cast(a[0], a[0] as u32);
        vstd::utf8::char_u32_cast(b[0], b[0] as u32);
    }
}

pub proof fn lemma_components_lt_irreflexive(a: Seq<ComponentView>)
    ensures
        !components_lt(a, a),
    decreases a.len(),
{
    if a.len() > 0 {
        lemma_components_lt_irreflexive(a.drop_first());
    }
}

pub proof fn lemma_component_lt_transitive(x: ComponentView, y: ComponentView, z: ComponentView)
    requires
        component_lt(x, y),
        component_lt(y, z),
    ensures
        component_lt(x, z),
{
    if x.0 == y.0 && y.0 == z.0 {
        lemma_chars_lt_transitive(x.1, y.1, z.1);
    }
}

pub proof fn lemma_component_lt_total(x: ComponentView, y: ComponentView)
    requires
        x != y,
    ensures
        component_lt(x, y) || component_lt(y, x),
{
    if x.0 == y.0 {
        lemma_chars_lt_total(x.1, y.1);
    }
}

pub proof fn lemma_component_lt_irreflexive(x: ComponentView)
    ensures
        !component_lt(x, x),
{
    lemma_chars_lt_irreflexive(x.1);
}

pub proof fn lemma_components_lt_transitive(
    a: Seq<ComponentView>,
    b: Seq<ComponentView>,
    c: Seq<ComponentView>,
)
    requires
        components_lt(a, b),
        components_lt(b, c),
    ensures
        components_lt(a, c),
    decreases a.len(),
{
    if a.len() > 0 && b.len() > 0 && c.len() > 0 {
        if a[0] == b[0] && b[0] == c[0] {
            lemma_components_lt_transitive(a.drop_first(), b.drop_first(), c.drop_first());
        } else if a[0] != b[0] && b[0] != c[0] {
            lemma_component_lt_transitive(a[0], b[0], c[0]);
            if a[0] == c[0] {
                lemma_component_lt_irreflexive(a[0]);
            }
        }
    }
}

pub proof fn lemma_components_lt_total(a: Seq<ComponentView>, b: Seq<ComponentView>)
    requires
        a != b,
    ensures
        components_lt(a, b) || components_lt(b, a),
    decreases a.len(),
{
    if a.len() > 0 && b.len() > 0 && a[0] == b[0] {
        if a.drop_first() == b.drop_first() {
            assert(a =~= seq![a[0]] + a.drop_first());
            assert(b =~= seq![b[0]] + b.drop_first());
        }
        lemma_components_lt_total(a.drop_first(), b.drop_first());
    } else if a.len() == 0 && b.len() == 0 {
        assert(a =~= b);
    } else if a.len() > 0 && b.len() > 0 {
        lemma_component_lt_total(a[0], b[0]);
    }
}

/// Compares two character sequences in `chars_lt` order.
pub fn chars_less(a: &Vec<char>, b: &Vec<char>) -> (r: bool)
    ensures
        r == chars_lt(a@, b@),
{
    let mut i: usize = 0;
    assert(a@.skip(0) =~= a@);
    assert(b@.skip(0) =~= b@);
    while i < a.len() && i < b.len()
        invariant
            i <= a.len(),
            i <= b.len(),
            chars_lt(a@, b@) == chars_lt(a@.skip(i as int), b@.skip(i as int)),
        decreases a.len() - i,
    {
        if a[i] != b[i] {
            return (a[i] as u32) < (b[i] as u32);
        }
        assert(a@.skip(i as int).drop_first() =~= a@.skip(i + 1));
        assert(b@.skip(i as int).drop_first() =~= b@.skip(i + 1));
        i = i + 1;
    }
    i == a.len() && i < b.len()
}

/// Compares two component sequences in `components_lt` order.
pub fn components_less(a: &Vec<(u8, Vec<char>)>, b: &Vec<(u8, Vec<char>)>) -> (r: bool)
    ensures
        r == components_lt(components_view(a@), components_view(b@)),
{
    let ghost va = components_view(a@);
    let ghost vb = components_view(b@);
    let mut i: usize = 0;
    assert(va.skip(0) =~= va);
    assert(vb.skip(0) =~= vb);
    while i < a.len() && i < b.len()
        invariant
            i <= a.len(),
            i <= b.len(),
            va == components_view(a@),
            vb == components_view(b@),
            components_lt(va, vb) == components_lt(va.skip(i as int), vb.skip(i as int)),
        decreases a.len() - i,
    {
        let ka = a[i].0;
        let kb = b[i].0;
        assert(va[i as int] == (ka, a@[i as int].1@));
        assert(vb[i as int] == (kb, b@[i as int].1@));
        if ka != kb {
            return ka < kb;
        }
        assert(va.skip(i as int)[0] == va[i as int]);
        assert(vb.skip(i as int)[0] == vb[i as int]);
        let lt = chars_less(&a[i].1, &b[i].1);
        if lt {
            proof {
                lemma_chars_lt_irreflexive(a@[i as int].1@);
            }
            return true;
        }
        let gt = chars_less(&b[i].1, &a[i].1);
        if gt {
            proof {
                lemma_chars_lt_irreflexive(a@[i as int].1@);
            }
            return false;
        }
        proof {
            lemma_chars_lt_total_contra(a@[i as int].1@, b@[i as int].1@);
        }
        assert(va.skip(i as int).drop_first() =~= va.skip(i + 1));
        assert(vb.skip(i as int).drop_first() =~= vb.skip(i + 1));
        i = i + 1;
    }
    i == a.len() && i < b.len()
}

/// Whether two component sequences are equal.
pub fn components_equal(a: &Vec<(u8, Vec<char>)>, b: &Vec<(u8, Vec<char>)>) -> (r: bool)
    ensures
        r == (components_view(a@) == components_view(b@)),
{
    let lt = components_less(a, b);
    let gt = components_less(b, a);
    proof {
        if components_view(a@) != components_view(b@) {
            lemma_components_lt_total(components_view(a@), components_view(b@));
        } else {
            lemma_components_lt_irreflexive(components_view(a@));
        }
    }
    !lt && !gt
}

/// Whether two paths are equal as `std::path::Path`s compare them: component by component.
pub fn same_path(a: &str, b: &str) -> (r: bool)
    ensures
        r == (path_components_of(a@) == path_components_of(b@)),
{
    let ca = path_components(a);
    let cb = path_components(b);
    components_equal(&ca, &cb)
}

/// Whether two character sequences are equal.
pub fn chars_equal(a: &Vec<char>, b: &Vec<char>) -> (r: bool)
    ensures
        r == (a@ == b@),
{
    if a.len() != b.len() {
        return false;
    }
    let mut i: usize = 0;
    while i < a.len()
        invariant
            a@.len() == b@.len(),
            i <= a@.len(),
            a@.take(i as int) == b@.take(i as int),
        decreases a@.len() - i,
    {
        if a[i] != b[i] {
            return false;
        }
        assert(a@.take(i + 1) =~= a@.take(i as int).push(a@[i as int]));
        assert(b@.take(i + 1) =~= b@.take(i as int).push(b@[i as int]));
        i = i + 1;
    }
    assert(a@.take(a@.len() as int) =~= a@);
    assert(b@.take(b@.len() as int) =~= b@);
    true
}

/// A copy of a character sequence.
pub fn copy_chars(a: &Vec<char>) -> (r: Vec<char>)
    ensures
        r@ == a@,
{
    let mut r: Vec<char> = Vec::new();
    let mut i: usize = 0;
    while i < a.len()
        invariant
            i <= a@.len(),
            r@ == a@.take(i as int),
        decreases a@.len() - i,
    {
        r.push(a[i]);
        i = i + 1;
        assert(r@ =~= a@.take(i as int));
    }
    assert(a@.take(a@.len() as int) =~= a@);
    r
}

proof fn lemma_chars_lt_total_contra(a: Seq<char>, b: Seq<char>)
    requires
        !chars_lt(a, b),
        !chars_lt(b, a),
    ensures
        a == b,
{
    if a != b {
        lemma_chars_lt_total(a, b);
    }
}

} // verus!
