//! Language detection for the files of a repository: by file name, by extension, or by the
//! shebang line of the file's contents. Languages are identified by the names tokei gives them.
use vstd::prelude::*;

use std::io::BufRead;

use crate::text::{str_eq, texts};

verus! {

/// What the file name alone says of a file's language.
pub enum LanguageGuess {
    /// The language is known.
    Detected(String),
    /// No language applies.
    Unknown,
    /// The file has no extension: its contents (the shebang line) decide.
    NeedsContent,
}

/// The lower-case form of a string, as `str::to_lowercase` gives it.
pub uninterp spec fn lowercase_of(s: Seq<char>) -> Seq<char>;

/// Lower-cases a string with `str::to_lowercase`. Trusted: the result is named `lowercase_of`.
#[verifier::external_body]
fn to_lowercase(s: &str) -> (r: String)
    ensures
        r@ == lowercase_of(s@),
{
    s.to_lowercase()
}

/// The language that a (lower-cased) file name designates by itself.
pub open spec fn language_of_file_name(lower: Seq<char>) -> Option<Seq<char>> {
    if lower == "build"@ || lower == "workspace"@ || lower == "module"@ {
        Some("Bazel"@)
    } else if lower == "cmakelists.txt"@ {
        Some("CMake"@)
    } else if lower == "dockerfile"@ {
        Some("Dockerfile"@)
    } else if lower == "justfile"@ {
        Some("Just"@)
    } else if lower == "gnumakefile"@ || lower == "makefile"@ {
        Some("Makefile"@)
    } else if lower == "meson.build"@ || lower == "meson_options.txt"@ {
        Some("Meson"@)
    } else if lower == "nuget.config"@ || lower == "packages.config"@ || lower == "nugetdefaults.config"@ {
        Some("NuGet Config"@)
    } else if lower == "pkgbuild"@ {
        Some("Pacman's makepkg"@)
    } else if lower == "rakefile"@ {
        Some("Rakefile"@)
    } else if lower == "sconstruct"@ || lower == "sconscript"@ {
        Some("Scons"@)
    } else if lower == "snakefile"@ {
        Some("Snakemake"@)
    } else {
        None
    }
}

fn some_name(name: &str) -> (r: Option<String>)
    ensures
        r matches Some(s) && s@ == name@,
{
    Some(String::from_str(name))
}

/// The language that a file name designates by itself (ignoring case), such as `Makefile`.
pub fn detect_language_from_file_name(file_name: &str) -> (r: Option<String>)
    ensures
        r matches Some(s) ==> language_of_file_name(lowercase_of(file_name@)) == Some(s@),
        r is None ==> language_of_file_name(lowercase_of(file_name@)) is None,
{
    let lower = to_lowercase(file_name);
    let l = lower.as_str();
    if str_eq(l, "build") || str_eq(l, "workspace") || str_eq(l, "module") {
        some_name("Bazel")
    } else if str_eq(l, "cmakelists.txt") {
        some_name("CMake")
    } else if str_eq(l, "dockerfile") {
        some_name("Dockerfile")
    } else if str_eq(l, "justfile") {
        some_name("Just")
    } else if str_eq(l, "gnumakefile") || str_eq(l, "makefile") {
        some_name("Makefile")
    } else if str_eq(l, "meson.build") || str_eq(l, "meson_options.txt") {
        some_name("Meson")
    } else if str_eq(l, "nuget.config") || str_eq(l, "packages.config") || str_eq(l, "nugetdefaults.config") {
        some_name("NuGet Config")
    } else if str_eq(l, "pkgbuild") {
        some_name("Pacman's makepkg")
    } else if str_eq(l, "rakefile") {
        some_name("Rakefile")
    } else if str_eq(l, "sconstruct") || str_eq(l, "sconscript") {
        some_name("Scons")
    } else if str_eq(l, "snakefile") {
        some_name("Snakemake")
    } else {
        None
    }
}

/// The language of an interpreter named after `#!/usr/bin/env`.
pub open spec fn language_of_env_word(word: Seq<char>) -> Option<Seq<char>> {
    if word == "bash"@ {
        Some("BASH"@)
    } else if word == "csh"@ {
        Some("C Shell"@)
    } else if word == "crystal"@ {
        Some("Crystal"@)
    } else if word == "cython"@ {
        Some("Cython"@)
    } else if word == "elvish"@ {
        Some("Elvish"@)
    } else if word == "fish"@ {
        Some("Fish"@)
    } else if word == "groovy"@ {
        Some("Groovy"@)
    } else if word == "just"@ {
        Some("Just"@)
    } else if word == "ksh"@ {
        Some("Korn shell"@)
    } else if word == "python"@ || word == "python2"@ || word == "python3"@ {
        Some("Python"@)
    } else if word == "racket"@ {
        Some("Racket"@)
    } else if word == "raku"@ || word == "perl6"@ {
        Some("Raku"@)
    } else if word == "ruby"@ {
        Some("Ruby"@)
    } else if word == "sh"@ {
        Some("Shell"@)
    } else {
        None
    }
}

/// The language of an interpreter named after `#!/usr/bin/env`.
pub fn language_from_shebang_env(word: &str) -> (r: Option<String>)
    ensures
        r matches Some(s) ==> language_of_env_word(word@) == Some(s@),
        r is None ==> language_of_env_word(word@) is None,
{
    if str_eq(word, "bash") {
        some_name("BASH")
    } else if str_eq(word, "csh") {
        some_name("C Shell")
    } else if str_eq(word, "crystal") {
        some_name("Crystal")
    } else if str_eq(word, "cython") {
        some_name("Cython")
    } else if str_eq(word, "elvish") {
        some_name("Elvish")
    } else if str_eq(word, "fish") {
        some_name("Fish")
    } else if str_eq(word, "groovy") {
        some_name("Groovy")
    } else if str_eq(word, "just") {
        some_name("Just")
    } else if str_eq(word, "ksh") {
        some_name("Korn shell")
    } else if str_eq(word, "python") || str_eq(word, "python2") || str_eq(word, "python3") {
        some_name("Python")
    } else if str_eq(word, "racket") {
        some_name("Racket")
    } else if str_eq(word, "raku") || str_eq(word, "perl6") {
        some_name("Raku")
    } else if str_eq(word, "ruby") {
        some_name("Ruby")
    } else if str_eq(word, "sh") {
        some_name("Shell")
    } else {
        None
    }
}

/// The bytes that `BufRead::read_line` takes for the first line: up to and including the first
/// newline byte, or everything when there is none.
pub open spec fn first_line_read(b: Seq<u8>) -> Seq<u8> {
    if exists|i: int| 0 <= i < b.len() && b[i] == 10u8 {
        b.take((choose|i: int| 0 <= i < b.len() && b[i] == 10u8 && forall|j: int| 0 <= j < i ==> b[j] != 10u8) + 1)
    } else {
        b
    }
}

/// A line without its ending: a final `\n` and then a `\r` before it are dropped, as
/// `BufRead::lines` does.
pub open spec fn strip_line_end(s: Seq<char>) -> Seq<char> {
    if s.len() > 0 && s.last() == '\n' {
        let t = s.drop_last();
        if t.len() > 0 && t.last() == '\r' {
            t.drop_last()
        } else {
            t
        }
    } else {
        s
    }
}

/// Reads the first line of `content` with `BufRead::lines`. Trusted: `None` for empty contents;
/// an error when the bytes of the line (with its newline) are not valid UTF-8; otherwise the
/// decoded line without its `\n` or `\r\n` ending, as std documents `lines` and `read_line`.
#[verifier::external_body]
fn first_line(content: &[u8]) -> (r: Option<Option<String>>)
    ensures
        r is None <==> content@.len() == 0,
        r matches Some(line) ==> (line is Some <==> vstd::utf8::valid_utf8(first_line_read(content@))),
        r matches Some(Some(s)) ==> s@ == strip_line_end(vstd::utf8::decode_utf8(first_line_read(content@))),
{
    content.lines().next().map(|line| line.ok())
}

/// Whether a character has the Unicode `White_Space` property (PropList.txt): the controls
/// U+0009 to U+000D, the space, U+0085, U+00A0, U+1680, U+2000 to U+200A, U+2028, U+2029,
/// U+202F, U+205F and U+3000.
pub open spec fn white_space(c: char) -> bool {
    let n = c as u32;
    ||| 0x9 <= n <= 0xd
    ||| n == 0x20
    ||| n == 0x85
    ||| n == 0xa0
    ||| n == 0x1680
    ||| 0x2000 <= n <= 0x200a
    ||| n == 0x2028
    ||| n == 0x2029
    ||| n == 0x202f
    ||| n == 0x205f
    ||| n == 0x3000
}

/// `char::is_whitespace`, which std documents as the Unicode `White_Space` property. Trusted:
/// the answer is `white_space`.
#[verifier::external_body]
fn is_whitespace(c: char) -> (r: bool)
    ensures
        r == white_space(c),
{
    c.is_whitespace()
}

/// The number of white-space characters at the start of `s`.
pub open spec fn leading_space(s: Seq<char>) -> nat
    decreases s.len(),
{
    if s.len() > 0 && white_space(s[0]) {
        1 + leading_space(s.drop_first())
    } else {
        0
    }
}

/// The number of characters before the first white space of `s`.
pub open spec fn word_length(s: Seq<char>) -> nat
    decreases s.len(),
{
    if s.len() > 0 && !white_space(s[0]) {
        1 + word_length(s.drop_first())
    } else {
        0
    }
}

/// The first white-space separated word of `s` and what follows it, as `split_whitespace`
/// yields them; `None` when `s` holds only white space.
pub open spec fn split_first_word(s: Seq<char>) -> Option<(Seq<char>, Seq<char>)> {
    let t = s.skip(leading_space(s) as int);
    if t.len() == 0 {
        None
    } else {
        Some((t.take(word_length(t) as int), t.skip(word_length(t) as int)))
    }
}

proof fn lemma_leading_space(s: Seq<char>, i: int)
    requires
        0 <= i <= s.len(),
        forall|j: int| 0 <= j < i ==> white_space(#[trigger] s[j]),
        i == s.len() || !white_space(s[i]),
    ensures
        leading_space(s) == i,
    decreases s.len(),
{
    if i > 0 {
        assert forall|j: int| 0 <= j < i - 1 implies white_space(#[trigger] s.drop_first()[j]) by {
            assert(s.drop_first()[j] == s[j + 1]);
        }
        if i < s.len() {
            assert(s.drop_first()[i - 1] == s[i]);
        }
        lemma_leading_space(s.drop_first(), i - 1);
    }
}

proof fn lemma_word_length(s: Seq<char>, i: int)
    requires
        0 <= i <= s.len(),
        forall|j: int| 0 <= j < i ==> !white_space(#[trigger] s[j]),
        i == s.len() || white_space(s[i]),
    ensures
        word_length(s) == i,
    decreases s.len(),
{
    if i > 0 {
        assert forall|j: int| 0 <= j < i - 1 implies !white_space(#[trigger] s.drop_first()[j]) by {
            assert(s.drop_first()[j] == s[j + 1]);
        }
        if i < s.len() {
            assert(s.drop_first()[i - 1] == s[i]);
        }
        lemma_word_length(s.drop_first(), i - 1);
    }
}

/// Splits off the first white-space separated word of `s` (see `split_first_word`).
fn first_word(s: &Vec<char>) -> (r: Option<(Vec<char>, Vec<char>)>)
    ensures
        match split_first_word(s@) {
            None => r is None,
            Some((w, rest)) => r matches Some((a, b)) && a@ == w && b@ == rest,
        },
{
    let n = s.len();
    let mut i: usize = 0;
    while i < n && is_whitespace(s[i])
        invariant
            n == s@.len(),
            i <= n,
            forall|j: int| 0 <= j < i ==> white_space(#[trigger] s@[j]),
        decreases n - i,
    {
        i = i + 1;
    }
    proof {
        lemma_leading_space(s@, i as int);
    }
    if i == n {
        return None;
    }
    let start = i;
    let ghost t = s@.skip(start as int);
    while i < n && !is_whitespace(s[i])
        invariant
            n == s@.len(),
            start <= i <= n,
            t == s@.skip(start as int),
            forall|j: int| start <= j < i ==> !white_space(#[trigger] s@[j]),
        decreases n - i,
    {
        i = i + 1;
    }
    proof {
        assert forall|j: int| 0 <= j < i - start implies !white_space(#[trigger] t[j]) by {
            assert(t[j] == s@[start + j]);
        }
        if i < n {
            assert(t[i - start] == s@[i as int]);
        }
        lemma_word_length(t, (i - start) as int);
    }
    let mut word: Vec<char> = Vec::new();
    let mut k: usize = start;
    while k < i
        invariant
            start <= k <= i,
            i <= n,
            n == s@.len(),
            word@ == s@.subrange(start as int, k as int),
        decreases i - k,
    {
        word.push(s[k]);
        k = k + 1;
        assert(word@ =~= s@.subrange(start as int, k as int));
    }
    let mut rest: Vec<char> = Vec::new();
    let mut k: usize = i;
    while k < n
        invariant
            i <= k <= n,
            n == s@.len(),
            rest@ == s@.subrange(i as int, k as int),
        decreases n - k,
    {
        rest.push(s[k]);
        k = k + 1;
        assert(rest@ =~= s@.subrange(i as int, k as int));
    }
    proof {
        assert(word@ =~= t.take((i - start) as int));
        assert(rest@ =~= t.skip((i - start) as int));
    }
    Some((word, rest))
}

/// The entry at position `i` of `tokei::LanguageType::list()`: the language's name and its
/// shebang lines, `None` past the end of the list.
pub uninterp spec fn tokei_language_entry(i: usize) -> Option<(Seq<char>, Seq<Seq<char>>)>;

/// Reads entry `i` of `tokei::LanguageType::list()`: the language's `name()` and its
/// `shebangs()`. Trusted: the result is named `tokei_language_entry`.
#[verifier::external_body]
fn language_entry(i: usize) -> (r: Option<(String, Vec<String>)>)
    ensures
        match tokei_language_entry(i) {
            None => r is None,
            Some((name, shebangs)) => r matches Some((n, s)) && n@ == name && texts(s@) == shebangs,
        },
{
    tokei::LanguageType::list().get(i).map(
        |(language, _)| (language.name().to_string(), language.shebangs().iter().map(|s| s.to_string()).collect()),
    )
}

/// The first language of tokei's list, from position `i` on, that has `word` among its shebang
/// lines.
pub open spec fn shebang_language_from(word: Seq<char>, i: int) -> Option<Seq<char>>
    decreases usize::MAX - i,
{
    if i < 0 || i >= usize::MAX {
        None
    } else {
        match tokei_language_entry(i as usize) {
            None => None,
            Some((name, shebangs)) => if shebangs.contains(word) {
                Some(name)
            } else {
                shebang_language_from(word, i + 1)
            },
        }
    }
}

/// The language that the first line of a file's contents designates: `#!/usr/bin/env` followed
/// by an interpreter, or one of the shebang lines that tokei knows.
pub open spec fn language_of_shebang(content: Seq<u8>) -> Option<Seq<char>> {
    if content.len() == 0 || !vstd::utf8::valid_utf8(first_line_read(content)) {
        None
    } else {
        let line = strip_line_end(vstd::utf8::decode_utf8(first_line_read(content)));
        match split_first_word(line) {
            None => None,
            Some((first, rest)) => if first == "#!/usr/bin/env"@ {
                match split_first_word(rest) {
                    None => None,
                    Some((second, _)) => language_of_env_word(second),
                }
            } else {
                shebang_language_from(first, 0)
            },
        }
    }
}

fn contains_word(list: &Vec<String>, word: &str) -> (r: bool)
    ensures
        r == texts(list@).contains(word@),
{
    let mut i: usize = 0;
    while i < list.len()
        invariant
            i <= list@.len(),
            forall|j: int| 0 <= j < i ==> list@[j]@ != word@,
        decreases list@.len() - i,
    {
        if str_eq(list[i].as_str(), word) {
            assert(texts(list@)[i as int] == word@);
            return true;
        }
        i = i + 1;
    }
    proof {
        if texts(list@).contains(word@) {
            let j = choose|j: int| 0 <= j < list@.len() && #[trigger] texts(list@)[j] == word@;
            assert(list@[j]@ == word@);
        }
    }
    false
}

/// Detects a language from the shebang line at the start of a file's contents.
pub fn detect_language_from_shebang(file_content: &[u8]) -> (r: Option<String>)
    ensures
        r matches Some(s) ==> language_of_shebang(file_content@) == Some(s@),
        r is None ==> language_of_shebang(file_content@) is None,
{
    let line = match first_line(file_content) {
        Some(Some(line)) => line,
        _ => {
            return None;
        },
    };
    let chars = crate::text::chars_of(line.as_str());
    let (first, rest) = match first_word(&chars) {
        Some(p) => p,
        None => {
            return None;
        },
    };
    let first = crate::text::string_from_chars(&first);
    if str_eq(first.as_str(), "#!/usr/bin/env") {
        return match first_word(&rest) {
            Some((second, _)) => {
                let second = crate::text::string_from_chars(&second);
                language_from_shebang_env(second.as_str())
            },
            None => None,
        };
    }
    let mut i: usize = 0;
    assert(language_of_shebang(file_content@) == shebang_language_from(first@, 0));
    while i < usize::MAX
        invariant
            language_of_shebang(file_content@) == shebang_language_from(first@, i as int),
        decreases usize::MAX - i,
    {
        match language_entry(i) {
            None => {
                return None;
            },
            Some((name, shebangs)) => {
                if contains_word(&shebangs, first.as_str()) {
                    return Some(name);
                }
            },
        }
        i = i + 1;
    }
    None
}

/// The extension of a file name, as `std::path::Path::extension` finds it.
pub uninterp spec fn extension_of(file_name: Seq<char>) -> Option<Seq<char>>;

/// `std::path::Path::extension` on a file name, as a string. Trusted: the result is named
/// `extension_of`.
#[verifier::external_body]
fn path_extension(file_name: &str) -> (r: Option<String>)
    ensures
        r matches Some(s) ==> extension_of(file_name@) == Some(s@),
        r is None ==> extension_of(file_name@) is None,
{
    std::path::Path::new(file_name).extension().map(|e| e.to_string_lossy().into_owned())
}

/// The name of the language that tokei associates with a file extension, if any.
pub uninterp spec fn tokei_language_of_extension(ext: Seq<char>) -> Option<Seq<char>>;

/// `tokei::LanguageType::from_file_extension`, with the language given by its `name()`.
/// Trusted: the result is named `tokei_language_of_extension`.
#[verifier::external_body]
fn language_of_extension(ext: &str) -> (r: Option<String>)
    ensures
        r matches Some(s) ==> tokei_language_of_extension(ext@) == Some(s@),
        r is None ==> tokei_language_of_extension(ext@) is None,
{
    tokei::LanguageType::from_file_extension(ext).map(|l| l.name().to_string())
}

/// What the file name tells of a file's language: a language that the name designates by
/// itself; else the language of its (lower-cased) extension; else, without an extension, the
/// contents have to be looked at.
pub open spec fn guess_of(file_name: Seq<char>) -> Option<Option<Seq<char>>> {
    match language_of_file_name(lowercase_of(file_name)) {
        Some(l) => Some(Some(l)),
        None => match extension_of(file_name) {
            Some(ext) => Some(tokei_language_of_extension(lowercase_of(ext))),
            None => None,
        },
    }
}

/// Detects the language of a file from its name; for a file without an extension, the answer
/// is that the contents (see `detect_language_from_shebang`) decide.
pub fn detect_language(file_name: &str) -> (r: LanguageGuess)
    ensures
        match guess_of(file_name@) {
            Some(Some(l)) => r matches LanguageGuess::Detected(s) && s@ == l,
            Some(None) => r is Unknown,
            None => r is NeedsContent,
        },
{
    if let Some(l) = detect_language_from_file_name(file_name) {
        return LanguageGuess::Detected(l);
    }
    match path_extension(file_name) {
        Some(ext) => {
            let lower = to_lowercase(ext.as_str());
            match language_of_extension(lower.as_str()) {
                Some(l) => LanguageGuess::Detected(l),
                None => LanguageGuess::Unknown,
            }
        },
        None => LanguageGuess::NeedsContent,
    }
}

/// The number of lines of code that tokei counts in a file's contents for a language.
pub uninterp spec fn tokei_code_lines(language: Seq<char>, content: Seq<u8>) -> Option<usize>;

/// Counts the lines of code of a file's contents with `LanguageType::parse_from_slice` (default
/// configuration), the language given by name (`LanguageType::from_name`); `None` for a name
/// that tokei does not know. Trusted: the result is named `tokei_code_lines`.
#[verifier::external_body]
pub(crate) fn code_lines(language: &str, content: &[u8]) -> (r: Option<usize>)
    ensures
        r == tokei_code_lines(language@, content@),
{
    tokei::LanguageType::from_name(language).map(|l| l.parse_from_slice(content, &tokei::Config::default()).code)
}

} // verus!

verus! {

/// The order of detection by name: a file whose lower-cased name is in the table of file names
/// gets that table's language whatever its extension; the extension decides only for a name
/// outside the table; a name outside the table without an extension leaves it to the contents.
pub proof fn lemma_file_name_first(file_name: Seq<char>)
    ensures
        language_of_file_name(lowercase_of(file_name)) matches Some(l) ==> guess_of(file_name) == Some(Some(l)),
        language_of_file_name(lowercase_of(file_name)) is None ==> match extension_of(file_name) {
            Some(ext) => guess_of(file_name) == Some(tokei_language_of_extension(lowercase_of(ext))),
            None => guess_of(file_name) is None,
        },
{
}

} // verus!
