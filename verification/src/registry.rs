//! The language registry: which languages the substrate knows, their file
//! extensions and comment styles, and extension/key dispatch to a grammar.

use vstd::prelude::*;
use crate::text::{chars_of, lines, str_eq, string_from_chars, utf8_len};
pub use crate::grammar::{language_for_file, language_for_header_content, language_for_key};

verus! {

/// Which comment style a language uses (drives SLOC calculation).
#[derive(Clone, Copy, PartialEq, Eq, Debug, Structural)]
pub enum SlocMode {
    /// `//` and `/* */` — C, C++, Rust, JS, TS, Go, Java, …
    Default,
    /// Additionally strips `#`-prefixed comment lines.
    Python,
    /// Strips `--` comment lines.
    Ada,
    /// Strips `--` comment lines (same prefix as Ada, distinct grammar).
    Lua,
    /// Strips `!` comment lines (free-form Fortran: `.f90`, `.f95`, …).
    Fortran,
}

/// A language the substrate can parse, with its display name, file
/// extensions, and comment style.
#[derive(Clone, Copy, Debug)]
pub struct LanguageInfo {
    /// Human-facing name, e.g. "C++", "Ada".
    pub name: &'static str,
    /// Canonical machine key, always lowercase ASCII (`"cpp"`, `"csharp"`).
    pub key: &'static str,
    /// Extensions used during recursive discovery (no leading dot).
    pub extensions: &'static [&'static str],
    /// Extensions parsed only when a file is passed explicitly.
    pub explicit_only: &'static [&'static str],
    /// Comment style for this language.
    pub sloc_mode: SlocMode,
}

/// The mathematical content of a [`LanguageInfo`].
#[verifier::ext_equal]
pub struct LanguageSpec {
    pub name: Seq<char>,
    pub key: Seq<char>,
    pub extensions: Seq<Seq<char>>,
    pub explicit_only: Seq<Seq<char>>,
    pub sloc_mode: SlocMode,
}

pub open spec fn str_views(s: Seq<&'static str>) -> Seq<Seq<char>> {
    s.map_values(|e: &'static str| e@)
}

impl View for LanguageInfo {
    type V = LanguageSpec;

    open spec fn view(&self) -> LanguageSpec {
        LanguageSpec {
            name: self.name@,
            key: self.key@,
            extensions: str_views(self.extensions@),
            explicit_only: str_views(self.explicit_only@),
            sloc_mode: self.sloc_mode,
        }
    }
}

pub open spec fn lang(
    name: Seq<char>,
    key: Seq<char>,
    extensions: Seq<Seq<char>>,
    explicit_only: Seq<Seq<char>>,
    sloc_mode: SlocMode,
) -> LanguageSpec {
    LanguageSpec { name, key, extensions, explicit_only, sloc_mode }
}

/// The registry, in order.
pub open spec fn spec_languages() -> Seq<LanguageSpec> {
    seq![
        lang("C"@, "c"@, seq!["c"@], seq!["h"@], SlocMode::Default),
        lang("C++"@, "cpp"@, seq!["cpp"@, "cc"@, "cxx"@, "hpp"@, "hxx"@], seq![], SlocMode::Default),
        lang("Rust"@, "rust"@, seq!["rs"@], seq![], SlocMode::Default),
        lang("Python"@, "python"@, seq!["py"@], seq![], SlocMode::Python),
        lang("JavaScript"@, "javascript"@, seq!["js"@, "mjs"@, "cjs"@, "jsx"@], seq![], SlocMode::Default),
        lang("TypeScript"@, "typescript"@, seq!["ts"@, "tsx"@], seq![], SlocMode::Default),
        lang("Ada"@, "ada"@, seq!["adb"@, "ada"@], seq!["ads"@], SlocMode::Ada),
        lang("Go"@, "go"@, seq!["go"@], seq![], SlocMode::Default),
        lang("Java"@, "java"@, seq!["java"@], seq![], SlocMode::Default),
        lang("C#"@, "csharp"@, seq!["cs"@], seq![], SlocMode::Default),
        lang("Kotlin"@, "kotlin"@, seq!["kt"@, "kts"@], seq![], SlocMode::Default),
        lang("Swift"@, "swift"@, seq!["swift"@], seq![], SlocMode::Default),
        lang("PHP"@, "php"@, seq!["php"@], seq![], SlocMode::Default),
        lang(
            "Fortran"@,
            "fortran"@,
            seq!["f90"@, "f95"@, "f03"@, "f08"@, "F90"@, "F95"@, "F03"@, "F08"@],
            seq![],
            SlocMode::Fortran,
        ),
        lang("Scala"@, "scala"@, seq!["scala"@, "sc"@], seq![], SlocMode::Default),
        lang("Lua"@, "lua"@, seq!["lua"@], seq![], SlocMode::Lua),
    ]
}

/// Returns the set of languages compiled into this build, in registry
/// order.
pub fn languages() -> (r: Vec<LanguageInfo>)
    ensures
        r@.len() == spec_languages().len(),
        forall|i: int| 0 <= i < r@.len() ==> #[trigger] r@[i]@ == spec_languages()[i],
{
    let mut v: Vec<LanguageInfo> = Vec::new();
    v.push(LanguageInfo {
        name: "C",
        key: "c",
        extensions: &["c"],
        explicit_only: &["h"],
        sloc_mode: SlocMode::Default,
    });
    v.push(LanguageInfo {
        name: "C++",
        key: "cpp",
        extensions: &["cpp", "cc", "cxx", "hpp", "hxx"],
        explicit_only: &[],
        sloc_mode: SlocMode::Default,
    });
    v.push(LanguageInfo {
        name: "Rust",
        key: "rust",
        extensions: &["rs"],
        explicit_only: &[],
        sloc_mode: SlocMode::Default,
    });
    v.push(LanguageInfo {
        name: "Python",
        key: "python",
        extensions: &["py"],
        explicit_only: &[],
        sloc_mode: SlocMode::Python,
    });
    v.push(LanguageInfo {
        name: "JavaScript",
        key: "javascript",
        extensions: &["js", "mjs", "cjs", "jsx"],
        explicit_only: &[],
        sloc_mode: SlocMode::Default,
    });
    v.push(LanguageInfo {
        name: "TypeScript",
        key: "typescript",
        extensions: &["ts", "tsx"],
        explicit_only: &[],
        sloc_mode: SlocMode::Default,
    });
    v.push(LanguageInfo {
        name: "Ada",
        key: "ada",
        extensions: &["adb", "ada"],
        explicit_only: &["ads"],
        sloc_mode: SlocMode::Ada,
    });
    v.push(LanguageInfo {
        name: "Go",
        key: "go",
        extensions: &["go"],
        explicit_only: &[],
        sloc_mode: SlocMode::Default,
    });
    v.push(LanguageInfo {
        name: "Java",
        key: "java",
        extensions: &["java"],
        explicit_only: &[],
        sloc_mode: SlocMode::Default,
    });
    v.push(LanguageInfo {
        name: "C#",
        key: "csharp",
        extensions: &["cs"],
        explicit_only: &[],
        sloc_mode: SlocMode::Default,
    });
    v.push(LanguageInfo {
        name: "Kotlin",
        key: "kotlin",
        extensions: &["kt", "kts"],
        explicit_only: &[],
        sloc_mode: SlocMode::Default,
    });
    v.push(LanguageInfo {
        name: "Swift",
        key: "swift",
        extensions: &["swift"],
        explicit_only: &[],
        sloc_mode: SlocMode::Default,
    });
    v.push(LanguageInfo {
        name: "PHP",
        key: "php",
        extensions: &["php"],
        explicit_only: &[],
        sloc_mode: SlocMode::Default,
    });
    v.push(LanguageInfo {
        name: "Fortran",
        key: "fortran",
        extensions: &["f90", "f95", "f03", "f08", "F90", "F95", "F03", "F08"],
        explicit_only: &[],
        sloc_mode: SlocMode::Fortran,
    });
    v.push(LanguageInfo {
        name: "Scala",
        key: "scala",
        extensions: &["scala", "sc"],
        explicit_only: &[],
        sloc_mode: SlocMode::Default,
    });
    v.push(LanguageInfo {
        name: "Lua",
        key: "lua",
        extensions: &["lua"],
        explicit_only: &[],
        sloc_mode: SlocMode::Lua,
    });
    assert(v@.len() == 16);
    assert(v@[0]@.extensions =~= spec_languages()[0].extensions);
    assert(v@[0]@ =~= spec_languages()[0]);
    v
}

/// Whether `x` is among the strings `xs`.
pub fn strs_contain(xs: &[&'static str], x: &str) -> (r: bool)
    ensures
        r == str_views(xs@).contains(x@),
{
    let mut i: usize = 0;
    while i < xs.len()
        invariant
            i <= xs@.len(),
            forall|k: int| 0 <= k < i ==> xs@[k]@ != x@,
        decreases xs.len() - i,
    {
        if str_eq(xs[i], x) {
            assert(str_views(xs@)[i as int] == x@);
            return true;
        }
        i = i + 1;
    }
    assert forall|k: int| 0 <= k < str_views(xs@).len() implies str_views(xs@)[k] != x@ by {
        assert(str_views(xs@)[k] == xs@[k]@);
    }
    false
}

/// Whether `ext` is one of `l`'s extensions, discovered or explicit-only.
pub open spec fn lang_has_ext(l: LanguageSpec, ext: Seq<char>) -> bool {
    l.extensions.contains(ext) || l.explicit_only.contains(ext)
}

/// The first language from index `i` on that claims `ext`.
pub open spec fn info_for_ext_from(ext: Seq<char>, i: int) -> Option<LanguageSpec>
    decreases spec_languages().len() - i,
{
    if i < 0 || i >= spec_languages().len() {
        None
    } else if lang_has_ext(spec_languages()[i], ext) {
        Some(spec_languages()[i])
    } else {
        info_for_ext_from(ext, i + 1)
    }
}

/// The registry entry for a file extension: the first language listing it
/// among its extensions or explicit-only extensions.
pub open spec fn spec_info_for_ext(ext: Seq<char>) -> Option<LanguageSpec> {
    info_for_ext_from(ext, 0)
}

/// The registry entry claiming extension `ext`, if any.
pub fn language_info_for_extension(ext: &str) -> (r: Option<LanguageInfo>)
    ensures
        match r {
            Some(info) => spec_info_for_ext(ext@) == Some(info@),
            None => spec_info_for_ext(ext@) is None,
        },
{
    let langs = languages();
    let mut i: usize = 0;
    while i < langs.len()
        invariant
            i <= langs@.len(),
            langs@.len() == spec_languages().len(),
            forall|k: int| 0 <= k < langs@.len() ==> #[trigger] langs@[k]@ == spec_languages()[k],
            spec_info_for_ext(ext@) == info_for_ext_from(ext@, i as int),
        decreases langs.len() - i,
    {
        let l = langs[i];
        assert(l@ == spec_languages()[i as int]);
        if strs_contain(l.extensions, ext) || strs_contain(l.explicit_only, ext) {
            return Some(l);
        }
        i = i + 1;
    }
    None
}

/// The extension of a path (`Path::extension`, as UTF-8).
pub uninterp spec fn file_extension(path: Seq<char>) -> Option<Seq<char>>;

/// `s` is a bare file name: nonempty, with no `/`, `\\` or `:`, and not
/// `.` or `..`.
pub open spec fn bare_file_name(s: Seq<char>) -> bool {
    &&& s.len() > 0
    &&& forall|j: int| 0 <= j < s.len() ==> #[trigger] s[j] != '/' && s[j] != '\\' && s[j] != ':'
    &&& s != seq!['.']
    &&& s != seq!['.', '.']
}

/// `d` is the position of the last `.` of `s`, and not its first character.
pub open spec fn last_dot_at(s: Seq<char>, d: int) -> bool {
    &&& 0 < d < s.len()
    &&& s[d] == '.'
    &&& forall|j: int| d < j < s.len() ==> #[trigger] s[j] != '.'
}

/// The text after the last `.` of a bare file name whose last `.` is not
/// its first character.
pub open spec fn bare_extension(s: Seq<char>, d: int) -> Seq<char> {
    s.subrange(d + 1, s.len() as int)
}

/// `std::path::Path::extension` followed by `OsStr::to_str`: the text after
/// the final `.` of the path's last component, when there is one. Which
/// text that is is named; being after the final `.` of one component, it
/// holds no `.` and no `/`; and for a bare file name whose last `.` is not
/// its first character, it is the text after that `.`.
#[verifier::external_body]
pub(crate) fn path_extension(path: &str) -> (r: Option<String>)
    ensures
        match r {
            Some(e) => file_extension(path@) == Some(e@),
            None => file_extension(path@) is None,
        },
        r matches Some(e) ==> !e@.contains('.') && !e@.contains('/'),
        r is None ==> forall|d: int| !(bare_file_name(path@) && #[trigger] last_dot_at(path@, d)),
        r matches Some(e) ==> forall|d: int|
            bare_file_name(path@) && #[trigger] last_dot_at(path@, d) ==> e@ == bare_extension(path@, d),
{
    match std::path::Path::new(path).extension() {
        Some(e) => e.to_str().map(String::from),
        None => None,
    }
}

/// The registry entry for `path`, by its extension.
pub open spec fn spec_info_for_file(path: Seq<char>) -> Option<LanguageSpec> {
    match file_extension(path) {
        Some(e) => spec_info_for_ext(e),
        None => None,
    }
}

/// Returns the [`LanguageInfo`] for `path` based on its extension, or
/// `None` when the extension is unknown.
pub fn language_info_for_file(path: &str) -> (r: Option<LanguageInfo>)
    ensures
        match r {
            Some(info) => spec_info_for_file(path@) == Some(info@),
            None => spec_info_for_file(path@) is None,
        },
        forall|d: int|
            bare_file_name(path@) && #[trigger] last_dot_at(path@, d) ==> spec_info_for_file(path@)
                == spec_info_for_ext(bare_extension(path@, d)),
{
    match path_extension(path) {
        Some(e) => language_info_for_extension(e.as_str()),
        None => None,
    }
}

/// Returns the [`SlocMode`] for `path`, or `None` when the extension is
/// unknown.
pub fn sloc_mode_for_file(path: &str) -> (r: Option<SlocMode>)
    ensures
        r == (match spec_info_for_file(path@) {
            Some(l) => Some(l.sloc_mode),
            None => None,
        }),
{
    match language_info_for_file(path) {
        Some(l) => Some(l.sloc_mode),
        None => None,
    }
}

/// `ext` is in the recursive-discovery set of some language.
pub open spec fn spec_is_source_ext(ext: Seq<char>) -> bool {
    exists|i: int| 0 <= i < spec_languages().len() && #[trigger] spec_languages()[i].extensions.contains(ext)
}

/// `ext` is a discovered or explicit-only extension of some language.
pub open spec fn spec_is_parseable_ext(ext: Seq<char>) -> bool {
    exists|i: int| 0 <= i < spec_languages().len() && lang_has_ext(#[trigger] spec_languages()[i], ext)
}

/// Returns `true` if `ext` is in the recursive-discovery set for any
/// language.
pub fn is_source_extension(ext: &str) -> (r: bool)
    ensures
        r == spec_is_source_ext(ext@),
{
    let langs = languages();
    let mut i: usize = 0;
    while i < langs.len()
        invariant
            i <= langs@.len(),
            langs@.len() == spec_languages().len(),
            forall|k: int| 0 <= k < langs@.len() ==> #[trigger] langs@[k]@ == spec_languages()[k],
            forall|k: int| 0 <= k < i ==> !(#[trigger] spec_languages()[k]).extensions.contains(ext@),
        decreases langs.len() - i,
    {
        let l = langs[i];
        assert(l@ == spec_languages()[i as int]);
        if strs_contain(l.extensions, ext) {
            assert(spec_languages()[i as int].extensions.contains(ext@));
            return true;
        }
        i = i + 1;
    }
    false
}

/// Returns `true` if the substrate can parse files with `ext` — discovered
/// and explicit-only extensions alike.
pub fn is_parseable_extension(ext: &str) -> (r: bool)
    ensures
        r == spec_is_parseable_ext(ext@),
{
    let langs = languages();
    let mut i: usize = 0;
    while i < langs.len()
        invariant
            i <= langs@.len(),
            langs@.len() == spec_languages().len(),
            forall|k: int| 0 <= k < langs@.len() ==> #[trigger] langs@[k]@ == spec_languages()[k],
            forall|k: int| 0 <= k < i ==> !lang_has_ext(#[trigger] spec_languages()[k], ext@),
        decreases langs.len() - i,
    {
        let l = langs[i];
        assert(l@ == spec_languages()[i as int]);
        if strs_contain(l.extensions, ext) || strs_contain(l.explicit_only, ext) {
            assert(lang_has_ext(spec_languages()[i as int], ext@));
            return true;
        }
        i = i + 1;
    }
    false
}

/// The first language from index `i` on whose key is `key`.
pub open spec fn info_for_key_from(key: Seq<char>, i: int) -> Option<LanguageSpec>
    decreases spec_languages().len() - i,
{
    if i < 0 || i >= spec_languages().len() {
        None
    } else if spec_languages()[i].key == key {
        Some(spec_languages()[i])
    } else {
        info_for_key_from(key, i + 1)
    }
}

/// The comment style of the language with registry key `key`, or `None`
/// for an unknown key.
pub fn sloc_mode_for_key(key: &str) -> (r: Option<SlocMode>)
    ensures
        r == (match info_for_key_from(key@, 0) {
            Some(l) => Some(l.sloc_mode),
            None => None,
        }),
{
    let langs = languages();
    let mut i: usize = 0;
    while i < langs.len()
        invariant
            i <= langs@.len(),
            langs@.len() == spec_languages().len(),
            forall|k: int| 0 <= k < langs@.len() ==> #[trigger] langs@[k]@ == spec_languages()[k],
            info_for_key_from(key@, 0) == info_for_key_from(key@, i as int),
        decreases langs.len() - i,
    {
        let l = langs[i];
        assert(l@ == spec_languages()[i as int]);
        if str_eq(l.key, key) {
            return Some(l.sloc_mode);
        }
        i = i + 1;
    }
    None
}

/// `n` spaces.
pub open spec fn spaces(n: int) -> Seq<char> {
    Seq::new(if n > 0 { n as nat } else { 0 }, |i: int| ' ')
}

/// `s` left-aligned in a field of width `w` (`{:<w$}`).
pub open spec fn pad_right(s: Seq<char>, w: int) -> Seq<char> {
    s + spaces(w - s.len())
}

/// The extensions `exts[0..n]`, each with a leading `.`, joined by
/// spaces.
pub open spec fn dotted_upto(exts: Seq<Seq<char>>, n: int) -> Seq<char>
    decreases n,
{
    if n <= 0 {
        Seq::empty()
    } else if n == 1 {
        seq!['.'] + exts[0]
    } else {
        dotted_upto(exts, n - 1) + seq![' ', '.'] + exts[n - 1]
    }
}

/// All of `exts`, each with a leading `.`, joined by spaces.
pub open spec fn dotted(exts: Seq<Seq<char>>) -> Seq<char> {
    dotted_upto(exts, exts.len() as int)
}

/// The report's line for language `l`, names padded to width `w`.
pub open spec fn report_line(l: LanguageSpec, w: int) -> Seq<char> {
    "  "@ + pad_right(l.name, w) + "  "@ + dotted(l.extensions) + (if l.explicit_only.len() > 0 {
        "  (also "@ + dotted(l.explicit_only) + " when passed explicitly)"@
    } else {
        Seq::empty()
    }) + seq!['\n']
}

/// The widest name among `ls[0..n]`, in UTF-8 bytes.
pub open spec fn name_width(ls: Seq<LanguageSpec>, n: int) -> int
    decreases n,
{
    if n <= 0 {
        0
    } else {
        let w = name_width(ls, n - 1);
        let b = crate::text::byte_len(ls[n - 1].name) as int;
        if b > w {
            b
        } else {
            w
        }
    }
}

/// The report lines of `ls[0..n]`.
pub open spec fn report_lines(ls: Seq<LanguageSpec>, n: int, w: int) -> Seq<char>
    decreases n,
{
    if n <= 0 {
        Seq::empty()
    } else {
        report_lines(ls, n - 1, w) + report_line(ls[n - 1], w)
    }
}

/// The human-readable summary of the registry.
pub open spec fn spec_report() -> Seq<char> {
    let ls = spec_languages();
    "Supported languages:\n"@ + report_lines(ls, ls.len() as int, name_width(ls, ls.len() as int))
}

fn push_str(out: &mut Vec<char>, s: &str)
    ensures
        final(out)@ == old(out)@ + s@,
{
    let cs = chars_of(s);
    let mut i: usize = 0;
    while i < cs.len()
        invariant
            i <= cs@.len(),
            cs@ == s@,
            out@ == old(out)@ + s@.take(i as int),
        decreases cs.len() - i,
    {
        out.push(cs[i]);
        assert(s@.take(i as int).push(cs@[i as int]) =~= s@.take(i + 1));
        i = i + 1;
    }
    assert(s@.take(i as int) =~= s@);
}

fn push_dotted(out: &mut Vec<char>, exts: &[&'static str])
    ensures
        final(out)@ == old(out)@ + dotted(str_views(exts@)),
{
    let ghost es = str_views(exts@);
    let mut k: usize = 0;
    while k < exts.len()
        invariant
            es == str_views(exts@),
            k <= exts.len(),
            out@ == old(out)@ + dotted_upto(es, k as int),
        decreases exts.len() - k,
    {
        let ghost before = out@;
        if k > 0 {
            out.push(' ');
        }
        out.push('.');
        push_str(out, exts[k]);
        proof {
            if k > 0 {
                assert(out@ =~= before + seq![' ', '.'] + es[k as int]);
            } else {
                assert(out@ =~= before + (seq!['.'] + es[k as int]));
            }
            assert(out@ =~= old(out)@ + dotted_upto(es, k + 1));
        }
        k = k + 1;
    }
}

fn push_spaces(out: &mut Vec<char>, n: usize)
    ensures
        final(out)@ == old(out)@ + spaces(n as int),
{
    let mut i: usize = 0;
    while i < n
        invariant
            i <= n,
            out@ == old(out)@ + spaces(i as int),
        decreases n - i,
    {
        out.push(' ');
        assert(spaces(i as int).push(' ') =~= spaces(i + 1));
        i = i + 1;
    }
}

fn push_report_line(out: &mut Vec<char>, l: &LanguageInfo, width: usize)
    ensures
        final(out)@ == old(out)@ + report_line(l@, width as int),
{
    let ghost before = out@;
    push_str(out, "  ");
    push_str(out, l.name);
    let n = chars_of(l.name).len();
    if n < width {
        push_spaces(out, width - n);
    }
    push_str(out, "  ");
    push_dotted(out, l.extensions);
    if l.explicit_only.len() > 0 {
        push_str(out, "  (also ");
        push_dotted(out, l.explicit_only);
        push_str(out, " when passed explicitly)");
    }
    out.push('\n');
    proof {
        if n >= width {
            assert(spaces(width - n) =~= Seq::<char>::empty());
        }
        assert(out@ =~= before + report_line(l@, width as int));
    }
}

/// Renders a human-readable summary of the registry, suitable for a
/// `--supported-languages` flag: a header, then one line per language
/// with its name padded to the widest name, its discovered extensions,
/// and its explicit-only extensions called out separately.
pub fn supported_languages_report() -> (r: String)
    ensures
        r@ == spec_report(),
{
    let langs = languages();
    let ghost ls = spec_languages();
    let mut width: usize = 0;
    let mut i: usize = 0;
    while i < langs.len()
        invariant
            i <= langs@.len(),
            langs@.len() == ls.len(),
            ls == spec_languages(),
            forall|k: int| 0 <= k < langs@.len() ==> #[trigger] langs@[k]@ == ls[k],
            width as int == name_width(ls, i as int),
        decreases langs.len() - i,
    {
        let b = utf8_len(langs[i].name);
        assert(langs@[i as int]@ == ls[i as int]);
        if b > width {
            width = b;
        }
        i = i + 1;
    }
    let mut out: Vec<char> = Vec::new();
    push_str(&mut out, "Supported languages:\n");
    let ghost head = out@;
    let mut i: usize = 0;
    while i < langs.len()
        invariant
            i <= langs@.len(),
            langs@.len() == ls.len(),
            ls == spec_languages(),
            forall|k: int| 0 <= k < langs@.len() ==> #[trigger] langs@[k]@ == ls[k],
            width as int == name_width(ls, ls.len() as int),
            out@ == head + report_lines(ls, i as int, width as int),
        decreases langs.len() - i,
    {
        let l = langs[i];
        assert(l@ == ls[i as int]);
        push_report_line(&mut out, &l, width);
        i = i + 1;
    }
    string_from_chars(out.as_slice())
}

/// The characters of the registry's keys and extensions.
pub proof fn lemma_registry_literals()
    ensures
        "c"@.len() == 1 && "c"@[0] == 'c',
        "h"@.len() == 1 && "h"@[0] == 'h',
        "cpp"@.len() == 3 && "cpp"@[0] == 'c' && "cpp"@[1] == 'p' && "cpp"@[2] == 'p',
        "cc"@.len() == 2 && "cc"@[0] == 'c' && "cc"@[1] == 'c',
        "cxx"@.len() == 3 && "cxx"@[0] == 'c' && "cxx"@[1] == 'x' && "cxx"@[2] == 'x',
        "hpp"@.len() == 3 && "hpp"@[0] == 'h' && "hpp"@[1] == 'p' && "hpp"@[2] == 'p',
        "hxx"@.len() == 3 && "hxx"@[0] == 'h' && "hxx"@[1] == 'x' && "hxx"@[2] == 'x',
        "rust"@.len() == 4 && "rust"@[0] == 'r' && "rust"@[1] == 'u' && "rust"@[2] == 's' && "rust"@[3] == 't',
        "rs"@.len() == 2 && "rs"@[0] == 'r' && "rs"@[1] == 's',
        "python"@.len() == 6 && "python"@[0] == 'p' && "python"@[1] == 'y' && "python"@[2] == 't' && "python"@[3] == 'h' && "python"@[4] == 'o' && "python"@[5] == 'n',
        "py"@.len() == 2 && "py"@[0] == 'p' && "py"@[1] == 'y',
        "javascript"@.len() == 10 && "javascript"@[0] == 'j' && "javascript"@[1] == 'a' && "javascript"@[2] == 'v' && "javascript"@[3] == 'a' && "javascript"@[4] == 's' && "javascript"@[5] == 'c' && "javascript"@[6] == 'r' && "javascript"@[7] == 'i' && "javascript"@[8] == 'p' && "javascript"@[9] == 't',
        "js"@.len() == 2 && "js"@[0] == 'j' && "js"@[1] == 's',
        "mjs"@.len() == 3 && "mjs"@[0] == 'm' && "mjs"@[1] == 'j' && "mjs"@[2] == 's',
        "cjs"@.len() == 3 && "cjs"@[0] == 'c' && "cjs"@[1] == 'j' && "cjs"@[2] == 's',
        "jsx"@.len() == 3 && "jsx"@[0] == 'j' && "jsx"@[1] == 's' && "jsx"@[2] == 'x',
        "typescript"@.len() == 10 && "typescript"@[0] == 't' && "typescript"@[1] == 'y' && "typescript"@[2] == 'p' && "typescript"@[3] == 'e' && "typescript"@[4] == 's' && "typescript"@[5] == 'c' && "typescript"@[6] == 'r' && "typescript"@[7] == 'i' && "typescript"@[8] == 'p' && "typescript"@[9] == 't',
        "ts"@.len() == 2 && "ts"@[0] == 't' && "ts"@[1] == 's',
        "tsx"@.len() == 3 && "tsx"@[0] == 't' && "tsx"@[1] == 's' && "tsx"@[2] == 'x',
        "ada"@.len() == 3 && "ada"@[0] == 'a' && "ada"@[1] == 'd' && "ada"@[2] == 'a',
        "adb"@.len() == 3 && "adb"@[0] == 'a' && "adb"@[1] == 'd' && "adb"@[2] == 'b',
        "ads"@.len() == 3 && "ads"@[0] == 'a' && "ads"@[1] == 'd' && "ads"@[2] == 's',
        "go"@.len() == 2 && "go"@[0] == 'g' && "go"@[1] == 'o',
        "java"@.len() == 4 && "java"@[0] == 'j' && "java"@[1] == 'a' && "java"@[2] == 'v' && "java"@[3] == 'a',
        "csharp"@.len() == 6 && "csharp"@[0] == 'c' && "csharp"@[1] == 's' && "csharp"@[2] == 'h' && "csharp"@[3] == 'a' && "csharp"@[4] == 'r' && "csharp"@[5] == 'p',
        "cs"@.len() == 2 && "cs"@[0] == 'c' && "cs"@[1] == 's',
        "kotlin"@.len() == 6 && "kotlin"@[0] == 'k' && "kotlin"@[1] == 'o' && "kotlin"@[2] == 't' && "kotlin"@[3] == 'l' && "kotlin"@[4] == 'i' && "kotlin"@[5] == 'n',
        "kt"@.len() == 2 && "kt"@[0] == 'k' && "kt"@[1] == 't',
        "kts"@.len() == 3 && "kts"@[0] == 'k' && "kts"@[1] == 't' && "kts"@[2] == 's',
        "swift"@.len() == 5 && "swift"@[0] == 's' && "swift"@[1] == 'w' && "swift"@[2] == 'i' && "swift"@[3] == 'f' && "swift"@[4] == 't',
        "php"@.len() == 3 && "php"@[0] == 'p' && "php"@[1] == 'h' && "php"@[2] == 'p',
        "fortran"@.len() == 7 && "fortran"@[0] == 'f' && "fortran"@[1] == 'o' && "fortran"@[2] == 'r' && "fortran"@[3] == 't' && "fortran"@[4] == 'r' && "fortran"@[5] == 'a' && "fortran"@[6] == 'n',
        "f90"@.len() == 3 && "f90"@[0] == 'f' && "f90"@[1] == '9' && "f90"@[2] == '0',
        "f95"@.len() == 3 && "f95"@[0] == 'f' && "f95"@[1] == '9' && "f95"@[2] == '5',
        "f03"@.len() == 3 && "f03"@[0] == 'f' && "f03"@[1] == '0' && "f03"@[2] == '3',
        "f08"@.len() == 3 && "f08"@[0] == 'f' && "f08"@[1] == '0' && "f08"@[2] == '8',
        "F90"@.len() == 3 && "F90"@[0] == 'F' && "F90"@[1] == '9' && "F90"@[2] == '0',
        "F95"@.len() == 3 && "F95"@[0] == 'F' && "F95"@[1] == '9' && "F95"@[2] == '5',
        "F03"@.len() == 3 && "F03"@[0] == 'F' && "F03"@[1] == '0' && "F03"@[2] == '3',
        "F08"@.len() == 3 && "F08"@[0] == 'F' && "F08"@[1] == '0' && "F08"@[2] == '8',
        "scala"@.len() == 5 && "scala"@[0] == 's' && "scala"@[1] == 'c' && "scala"@[2] == 'a' && "scala"@[3] == 'l' && "scala"@[4] == 'a',
        "sc"@.len() == 2 && "sc"@[0] == 's' && "sc"@[1] == 'c',
        "lua"@.len() == 3 && "lua"@[0] == 'l' && "lua"@[1] == 'u' && "lua"@[2] == 'a',
{
    reveal_strlit("c");
    assert("c"@ =~= seq!['c']);
    reveal_strlit("h");
    assert("h"@ =~= seq!['h']);
    reveal_strlit("cpp");
    assert("cpp"@ =~= seq!['c', 'p', 'p']);
    reveal_strlit("cc");
    assert("cc"@ =~= seq!['c', 'c']);
    reveal_strlit("cxx");
    assert("cxx"@ =~= seq!['c', 'x', 'x']);
    reveal_strlit("hpp");
    assert("hpp"@ =~= seq!['h', 'p', 'p']);
    reveal_strlit("hxx");
    assert("hxx"@ =~= seq!['h', 'x', 'x']);
    reveal_strlit("rust");
    assert("rust"@ =~= seq!['r', 'u', 's', 't']);
    reveal_strlit("rs");
    assert("rs"@ =~= seq!['r', 's']);
    reveal_strlit("python");
    assert("python"@ =~= seq!['p', 'y', 't', 'h', 'o', 'n']);
    reveal_strlit("py");
    assert("py"@ =~= seq!['p', 'y']);
    reveal_strlit("javascript");
    assert("javascript"@ =~= seq!['j', 'a', 'v', 'a', 's', 'c', 'r', 'i', 'p', 't']);
    reveal_strlit("js");
    assert("js"@ =~= seq!['j', 's']);
    reveal_strlit("mjs");
    assert("mjs"@ =~= seq!['m', 'j', 's']);
    reveal_strlit("cjs");
    assert("cjs"@ =~= seq!['c', 'j', 's']);
    reveal_strlit("jsx");
    assert("jsx"@ =~= seq!['j', 's', 'x']);
    reveal_strlit("typescript");
    assert("typescript"@ =~= seq!['t', 'y', 'p', 'e', 's', 'c', 'r', 'i', 'p', 't']);
    reveal_strlit("ts");
    assert("ts"@ =~= seq!['t', 's']);
    reveal_strlit("tsx");
    assert("tsx"@ =~= seq!['t', 's', 'x']);
    reveal_strlit("ada");
    assert("ada"@ =~= seq!['a', 'd', 'a']);
    reveal_strlit("adb");
    assert("adb"@ =~= seq!['a', 'd', 'b']);
    reveal_strlit("ads");
    assert("ads"@ =~= seq!['a', 'd', 's']);
    reveal_strlit("go");
    assert("go"@ =~= seq!['g', 'o']);
    reveal_strlit("java");
    assert("java"@ =~= seq!['j', 'a', 'v', 'a']);
    reveal_strlit("csharp");
    assert("csharp"@ =~= seq!['c', 's', 'h', 'a', 'r', 'p']);
    reveal_strlit("cs");
    assert("cs"@ =~= seq!['c', 's']);
    reveal_strlit("kotlin");
    assert("kotlin"@ =~= seq!['k', 'o', 't', 'l', 'i', 'n']);
    reveal_strlit("kt");
    assert("kt"@ =~= seq!['k', 't']);
    reveal_strlit("kts");
    assert("kts"@ =~= seq!['k', 't', 's']);
    reveal_strlit("swift");
    assert("swift"@ =~= seq!['s', 'w', 'i', 'f', 't']);
    reveal_strlit("php");
    assert("php"@ =~= seq!['p', 'h', 'p']);
    reveal_strlit("fortran");
    assert("fortran"@ =~= seq!['f', 'o', 'r', 't', 'r', 'a', 'n']);
    reveal_strlit("f90");
    assert("f90"@ =~= seq!['f', '9', '0']);
    reveal_strlit("f95");
    assert("f95"@ =~= seq!['f', '9', '5']);
    reveal_strlit("f03");
    assert("f03"@ =~= seq!['f', '0', '3']);
    reveal_strlit("f08");
    assert("f08"@ =~= seq!['f', '0', '8']);
    reveal_strlit("F90");
    assert("F90"@ =~= seq!['F', '9', '0']);
    reveal_strlit("F95");
    assert("F95"@ =~= seq!['F', '9', '5']);
    reveal_strlit("F03");
    assert("F03"@ =~= seq!['F', '0', '3']);
    reveal_strlit("F08");
    assert("F08"@ =~= seq!['F', '0', '8']);
    reveal_strlit("scala");
    assert("scala"@ =~= seq!['s', 'c', 'a', 'l', 'a']);
    reveal_strlit("sc");
    assert("sc"@ =~= seq!['s', 'c']);
    reveal_strlit("lua");
    assert("lua"@ =~= seq!['l', 'u', 'a']);
}

/// The set of lowercase ASCII strings.
pub open spec fn is_lower_ascii(s: Seq<char>) -> bool {
    forall|c: int| 0 <= c < s.len() ==> 'a' <= #[trigger] s[c] <= 'z'
}

/// Every key is lowercase ASCII, and no two languages share a key.
pub proof fn keys_are_lowercase_and_unique()
    ensures
        forall|i: int| 0 <= i < spec_languages().len() ==> is_lower_ascii(#[trigger] spec_languages()[i].key),
        forall|i: int, j: int| 0 <= i < j < spec_languages().len() ==> #[trigger] spec_languages()[i].key != #[trigger] spec_languages()[j].key,
{
    lemma_registry_literals();
    let ls = spec_languages();
    assert(is_lower_ascii(ls[0].key));
    assert(is_lower_ascii(ls[1].key));
    assert(is_lower_ascii(ls[2].key));
    assert(is_lower_ascii(ls[3].key));
    assert(is_lower_ascii(ls[4].key));
    assert(is_lower_ascii(ls[5].key));
    assert(is_lower_ascii(ls[6].key));
    assert(is_lower_ascii(ls[7].key));
    assert(is_lower_ascii(ls[8].key));
    assert(is_lower_ascii(ls[9].key));
    assert(is_lower_ascii(ls[10].key));
    assert(is_lower_ascii(ls[11].key));
    assert(is_lower_ascii(ls[12].key));
    assert(is_lower_ascii(ls[13].key));
    assert(is_lower_ascii(ls[14].key));
    assert(is_lower_ascii(ls[15].key));
    assert forall|i: int, j: int| 0 <= i < j < ls.len() implies ls[i].key != ls[j].key by {
        if i == 0 {
        } else if i == 1 {
        } else if i == 2 {
        } else if i == 3 {
        } else if i == 4 {
        } else if i == 5 {
        } else if i == 6 {
        } else if i == 7 {
        } else if i == 8 {
        } else if i == 9 {
        } else if i == 10 {
        } else if i == 11 {
        } else if i == 12 {
        } else if i == 13 {
        } else if i == 14 {
        } else if i == 15 {
        }
    }
}

#[verifier::rlimit(100)]
proof fn lemma_discovered_extensions_resolve()
    ensures
        forall|i: int, k: int| 0 <= i < spec_languages().len() && 0 <= k < spec_languages()[i].extensions.len() ==> spec_info_for_ext(#[trigger] spec_languages()[i].extensions[k]) == Some(spec_languages()[i]),
{
    broadcast use vstd::seq_lib::group_seq_properties;
    lemma_registry_literals();
    reveal_with_fuel(info_for_ext_from, 17);
    let ls = spec_languages();
    assert forall|i: int, k: int| 0 <= i < ls.len() && 0 <= k < ls[i].extensions.len() implies spec_info_for_ext(#[trigger] ls[i].extensions[k]) == Some(ls[i]) by {
        if i == 0 {
            if k == 0 {
            }
        } else if i == 1 {
            if k == 0 {
            } else if k == 1 {
            } else if k == 2 {
            } else if k == 3 {
            } else if k == 4 {
            }
        } else if i == 2 {
            if k == 0 {
            }
        } else if i == 3 {
            if k == 0 {
            }
        } else if i == 4 {
            if k == 0 {
            } else if k == 1 {
            } else if k == 2 {
            } else if k == 3 {
            }
        } else if i == 5 {
            if k == 0 {
            } else if k == 1 {
            }
        } else if i == 6 {
            if k == 0 {
            } else if k == 1 {
            }
        } else if i == 7 {
            if k == 0 {
            }
        } else if i == 8 {
            if k == 0 {
            }
        } else if i == 9 {
            if k == 0 {
            }
        } else if i == 10 {
            if k == 0 {
            } else if k == 1 {
            }
        } else if i == 11 {
            if k == 0 {
            }
        } else if i == 12 {
            if k == 0 {
            }
        } else if i == 13 {
            if k == 0 {
            } else if k == 1 {
            } else if k == 2 {
            } else if k == 3 {
            } else if k == 4 {
            } else if k == 5 {
            } else if k == 6 {
            } else if k == 7 {
            }
        } else if i == 14 {
            if k == 0 {
            } else if k == 1 {
            }
        } else if i == 15 {
            if k == 0 {
            }
        }
    }
}


proof fn lemma_explicit_extensions_resolve()
    ensures
        forall|i: int, k: int| 0 <= i < spec_languages().len() && 0 <= k < spec_languages()[i].explicit_only.len() ==> spec_info_for_ext(#[trigger] spec_languages()[i].explicit_only[k]) == Some(spec_languages()[i]),
{
    broadcast use vstd::seq_lib::group_seq_properties;
    lemma_registry_literals();
    reveal_with_fuel(info_for_ext_from, 17);
    let ls = spec_languages();
    assert forall|i: int, k: int| 0 <= i < ls.len() && 0 <= k < ls[i].explicit_only.len() implies spec_info_for_ext(#[trigger] ls[i].explicit_only[k]) == Some(ls[i]) by {
        if i == 0 {
            if k == 0 {
            }
        } else if i == 1 {
        } else if i == 2 {
        } else if i == 3 {
        } else if i == 4 {
        } else if i == 5 {
        } else if i == 6 {
            if k == 0 {
            }
        } else if i == 7 {
        } else if i == 8 {
        } else if i == 9 {
        } else if i == 10 {
        } else if i == 11 {
        } else if i == 12 {
        } else if i == 13 {
        } else if i == 14 {
        } else if i == 15 {
        }
    }
}

/// Every extension a language lists, discovered or explicit-only,
/// resolves to that language.
pub proof fn every_extension_resolves_to_its_language()
    ensures
        forall|i: int, k: int| 0 <= i < spec_languages().len() && 0 <= k < spec_languages()[i].extensions.len() ==> spec_info_for_ext(#[trigger] spec_languages()[i].extensions[k]) == Some(spec_languages()[i]),
        forall|i: int, k: int| 0 <= i < spec_languages().len() && 0 <= k < spec_languages()[i].explicit_only.len() ==> spec_info_for_ext(#[trigger] spec_languages()[i].explicit_only[k]) == Some(spec_languages()[i]),
{
    lemma_discovered_extensions_resolve();
    lemma_explicit_extensions_resolve();
}

/// Discovered extensions are source and parseable extensions;
/// explicit-only extensions are parseable but never source extensions.
pub proof fn explicit_only_extensions_are_not_sources()
    ensures
        forall|i: int, k: int| 0 <= i < spec_languages().len() && 0 <= k < spec_languages()[i].extensions.len() ==> spec_is_source_ext(#[trigger] spec_languages()[i].extensions[k]) && spec_is_parseable_ext(spec_languages()[i].extensions[k]),
        forall|i: int, k: int| 0 <= i < spec_languages().len() && 0 <= k < spec_languages()[i].explicit_only.len() ==> !spec_is_source_ext(#[trigger] spec_languages()[i].explicit_only[k]) && spec_is_parseable_ext(spec_languages()[i].explicit_only[k]),
{
    broadcast use vstd::seq_lib::group_seq_properties;
    lemma_registry_literals();
    let ls = spec_languages();
    assert forall|i: int, k: int| 0 <= i < ls.len() && 0 <= k < ls[i].extensions.len() implies spec_is_source_ext(#[trigger] ls[i].extensions[k]) && spec_is_parseable_ext(ls[i].extensions[k]) by {
        assert(ls[i].extensions.contains(ls[i].extensions[k]));
        assert(lang_has_ext(ls[i], ls[i].extensions[k]));
    }
    assert forall|i: int, k: int| 0 <= i < ls.len() && 0 <= k < ls[i].explicit_only.len() implies !spec_is_source_ext(#[trigger] ls[i].explicit_only[k]) && spec_is_parseable_ext(ls[i].explicit_only[k]) by {
        assert(ls[i].explicit_only.contains(ls[i].explicit_only[k]));
        assert(lang_has_ext(ls[i], ls[i].explicit_only[k]));
        let e = ls[i].explicit_only[k];
        assert forall|j: int| 0 <= j < ls.len() implies !(#[trigger] ls[j]).extensions.contains(e) by {
            if j == 0 {
            } else if j == 1 {
            } else if j == 2 {
            } else if j == 3 {
            } else if j == 4 {
            } else if j == 5 {
            } else if j == 6 {
            } else if j == 7 {
            } else if j == 8 {
            } else if j == 9 {
            } else if j == 10 {
            } else if j == 11 {
            } else if j == 12 {
            } else if j == 13 {
            } else if j == 14 {
            } else if j == 15 {
            }
        }
    }
}

proof fn lemma_info_for_ext_from(ext: Seq<char>, i: int)
    requires
        0 <= i <= spec_languages().len(),
    ensures
        info_for_ext_from(ext, i) is Some <==> exists|k: int|
            i <= k < spec_languages().len() && #[trigger] lang_has_ext(spec_languages()[k], ext),
        info_for_ext_from(ext, i) matches Some(l) ==> (exists|k: int|
            i <= k < spec_languages().len() && spec_languages()[k] == l && #[trigger] lang_has_ext(spec_languages()[k], ext)
                && forall|j: int| i <= j < k ==> !lang_has_ext(#[trigger] spec_languages()[j], ext)),
    decreases spec_languages().len() - i,
{
    let ls = spec_languages();
    if i < ls.len() {
        lemma_info_for_ext_from(ext, i + 1);
        if lang_has_ext(ls[i], ext) {
            assert(lang_has_ext(ls[i], ext));
        } else if info_for_ext_from(ext, i + 1) is Some {
            let k = choose|k: int|
                i + 1 <= k < ls.len() && ls[k] == info_for_ext_from(ext, i + 1).unwrap() && #[trigger] lang_has_ext(ls[k], ext)
                    && forall|j: int| i + 1 <= j < k ==> !lang_has_ext(#[trigger] ls[j], ext);
            assert forall|j: int| i <= j < k implies !lang_has_ext(#[trigger] ls[j], ext) by {
                if j > i {
                }
            }
        } else {
            assert forall|k: int| i <= k < ls.len() implies !#[trigger] lang_has_ext(ls[k], ext) by {
                if k > i {
                }
            }
        }
    }
}

/// A file's registry entry is the first language, in table order, that
/// lists the file's extension (discovered or explicit-only, compared
/// case-sensitively); there is one exactly when the file has an extension
/// that some language lists.
pub proof fn file_lookup_finds_first_listing_language(path: Seq<char>)
    ensures
        spec_info_for_file(path) is Some <==> (file_extension(path) matches Some(e) && exists|i: int|
            0 <= i < spec_languages().len() && #[trigger] lang_has_ext(spec_languages()[i], e)),
        spec_info_for_file(path) matches Some(l) ==> (file_extension(path) matches Some(e) && exists|i: int|
            0 <= i < spec_languages().len() && spec_languages()[i] == l && #[trigger] lang_has_ext(spec_languages()[i], e)
                && forall|j: int| 0 <= j < i ==> !lang_has_ext(#[trigger] spec_languages()[j], e)),
{
    if let Some(e) = file_extension(path) {
        lemma_info_for_ext_from(e, 0);
    }
}

/// `sub` occurs in `s` at offset `off`.
pub open spec fn occurs_at(s: Seq<char>, sub: Seq<char>, off: int) -> bool {
    0 <= off && off + sub.len() <= s.len() && s.subrange(off, off + sub.len()) == sub
}

proof fn lemma_occurs_self(s: Seq<char>)
    ensures
        occurs_at(s, s, 0),
{
    assert(s.subrange(0, s.len() as int) =~= s);
}

/// An occurrence inside `a` is one inside `p + a + q`, shifted by `p`.
proof fn lemma_occurs_in_concat(p: Seq<char>, a: Seq<char>, q: Seq<char>, sub: Seq<char>, off: int)
    requires
        occurs_at(a, sub, off),
    ensures
        occurs_at(p + a + q, sub, p.len() + off),
{
    let s = p + a + q;
    assert(s.subrange(p.len() + off, p.len() + off + sub.len()) =~= a.subrange(off, off + sub.len()));
}

/// The lines of `ls[0..n]` are those of `ls[0..k]`, then line `k`, then the
/// rest.
proof fn lemma_report_lines_split(ls: Seq<LanguageSpec>, n: int, w: int, k: int)
    requires
        0 <= k < n,
    ensures
        occurs_at(report_lines(ls, n, w), report_line(ls[k], w), report_lines(ls, k, w).len() as int),
    decreases n,
{
    if k == n - 1 {
        lemma_occurs_self(report_line(ls[k], w));
        lemma_occurs_in_concat(report_lines(ls, k, w), report_line(ls[k], w), Seq::empty(), report_line(ls[k], w), 0);
        assert(report_lines(ls, n, w) =~= report_lines(ls, k, w) + report_line(ls[k], w) + Seq::<char>::empty());
    } else {
        lemma_report_lines_split(ls, n - 1, w, k);
        lemma_occurs_in_concat(
            Seq::empty(),
            report_lines(ls, n - 1, w),
            report_line(ls[n - 1], w),
            report_line(ls[k], w),
            report_lines(ls, k, w).len() as int,
        );
        assert(report_lines(ls, n, w) =~= Seq::<char>::empty() + report_lines(ls, n - 1, w) + report_line(ls[n - 1], w));
    }
}

/// Each of `exts[0..n]` occurs in their dotted list with its leading `.`.
proof fn lemma_dotted_has_each(exts: Seq<Seq<char>>, n: int, j: int)
    requires
        0 <= j < n <= exts.len(),
    ensures
        exists|off: int| #[trigger] occurs_at(dotted_upto(exts, n), seq!['.'] + exts[j], off),
    decreases n,
{
    let d = seq!['.'] + exts[j];
    if n == 1 {
        assert(occurs_at(dotted_upto(exts, n), d, 0)) by {
            assert(dotted_upto(exts, n).subrange(0, d.len() as int) =~= d);
        }
    } else if j == n - 1 {
        let prev = dotted_upto(exts, n - 1);
        assert(dotted_upto(exts, n) == prev + seq![' ', '.'] + exts[n - 1]);
        assert(occurs_at(dotted_upto(exts, n), d, prev.len() + 1int)) by {
            assert(dotted_upto(exts, n).subrange(prev.len() + 1int, prev.len() + 1int + d.len()) =~= d);
        }
    } else {
        lemma_dotted_has_each(exts, n - 1, j);
        let off = choose|off: int| #[trigger] occurs_at(dotted_upto(exts, n - 1), d, off);
        lemma_occurs_in_concat(Seq::empty(), dotted_upto(exts, n - 1), seq![' ', '.'] + exts[n - 1], d, off);
        assert(dotted_upto(exts, n) =~= Seq::<char>::empty() + dotted_upto(exts, n - 1) + (seq![' ', '.']
            + exts[n - 1]));
    }
}

/// `sub` occurs somewhere in `s`.
pub open spec fn contains_text(s: Seq<char>, sub: Seq<char>) -> bool {
    exists|off: int| #[trigger] occurs_at(s, sub, off)
}

/// The line `line` lists extension `e`, with its leading `.`.
pub open spec fn line_lists(line: Seq<char>, e: Seq<char>) -> bool {
    contains_text(line, seq!['.'] + e)
}

/// What line `report_line(l, w)` holds: the name at offset 2, every
/// extension dotted, and the explicit-only note with each of its
/// extensions dotted.
proof fn lemma_line_contents(l: LanguageSpec, w: int)
    ensures
        occurs_at(report_line(l, w), l.name, 2),
        forall|j: int|
            0 <= j < l.extensions.len() ==> #[trigger] line_lists(report_line(l, w), l.extensions[j]),
        l.explicit_only.len() > 0 ==> contains_text(report_line(l, w), "  (also "@ + dotted(l.explicit_only) + " when passed explicitly)"@),
        forall|j: int|
            0 <= j < l.explicit_only.len() ==> #[trigger] line_lists(report_line(l, w), l.explicit_only[j]),
{
    reveal_strlit("  ");
    assert(report_line(l, w).subrange(2, 2int + l.name.len()) =~= l.name);
    let post = (if l.explicit_only.len() > 0 {
        "  (also "@ + dotted(l.explicit_only) + " when passed explicitly)"@
    } else {
        Seq::empty()
    }) + seq!['\n'];
    let pre = "  "@ + pad_right(l.name, w) + "  "@;
    assert(report_line(l, w) =~= pre + dotted(l.extensions) + post);
    assert forall|j: int| 0 <= j < l.extensions.len() implies #[trigger] line_lists(report_line(l, w), l.extensions[j]) by {
        lemma_dotted_has_each(l.extensions, l.extensions.len() as int, j);
        let d = seq!['.'] + l.extensions[j];
        let off = choose|off: int| #[trigger] occurs_at(dotted(l.extensions), d, off);
        lemma_occurs_in_concat(pre, dotted(l.extensions), post, d, off);
        assert(occurs_at(report_line(l, w), d, pre.len() + off));
    }
    if l.explicit_only.len() > 0 {
        let note = "  (also "@ + dotted(l.explicit_only) + " when passed explicitly)"@;
        let pre1 = pre + dotted(l.extensions);
        assert(report_line(l, w) =~= pre1 + note + seq!['\n']);
        lemma_occurs_self(note);
        lemma_occurs_in_concat(pre1, note, seq!['\n'], note, 0);
        assert(occurs_at(report_line(l, w), note, pre1.len() as int));
        let pre2 = pre1 + "  (also "@;
        let post2 = " when passed explicitly)"@ + seq!['\n'];
        assert(report_line(l, w) =~= pre2 + dotted(l.explicit_only) + post2);
        assert forall|j: int| 0 <= j < l.explicit_only.len() implies #[trigger] line_lists(report_line(l, w), l.explicit_only[j]) by {
            lemma_dotted_has_each(l.explicit_only, l.explicit_only.len() as int, j);
            let d = seq!['.'] + l.explicit_only[j];
            let off = choose|off: int| #[trigger] occurs_at(dotted(l.explicit_only), d, off);
            lemma_occurs_in_concat(pre2, dotted(l.explicit_only), post2, d, off);
            assert(occurs_at(report_line(l, w), d, pre2.len() + off));
        }
    }
}

/// The supported-languages report opens with its header and then gives
/// one line per language, in table order. A language's line starts with
/// its name and lists every extension with a leading `.`; a language with
/// explicit-only extensions also gets the note naming them, each with its
/// leading `.`, as parsed only when passed explicitly.
pub proof fn report_lists_every_language()
    ensures
        spec_report().take(21) == "Supported languages:\n"@,
        forall|k: int|
            0 <= k < spec_languages().len() ==> exists|off: int|
                #[trigger] occurs_at(spec_report(), report_line(#[trigger] spec_languages()[k], name_width(spec_languages(), spec_languages().len() as int)), off),
        forall|l: LanguageSpec, w: int| #[trigger] occurs_at(report_line(l, w), l.name, 2),
        forall|l: LanguageSpec, w: int, j: int|
            0 <= j < l.extensions.len() ==> #[trigger] line_lists(report_line(l, w), l.extensions[j]),
        forall|l: LanguageSpec, w: int|
            l.explicit_only.len() > 0 ==> contains_text(#[trigger] report_line(l, w), "  (also "@ + dotted(l.explicit_only) + " when passed explicitly)"@),
        forall|l: LanguageSpec, w: int, j: int|
            0 <= j < l.explicit_only.len() ==> #[trigger] line_lists(report_line(l, w), l.explicit_only[j]),
{
    lemma_report_head();
    lemma_report_has_every_line();
    assert forall|l: LanguageSpec, w: int| #[trigger] occurs_at(report_line(l, w), l.name, 2) by {
        lemma_line_contents(l, w);
    }
    assert forall|l: LanguageSpec, w: int, j: int| 0 <= j < l.extensions.len() implies #[trigger] line_lists(report_line(l, w), l.extensions[j]) by {
        lemma_line_contents(l, w);
    }
    assert forall|l: LanguageSpec, w: int| l.explicit_only.len() > 0 implies contains_text(#[trigger] report_line(l, w), "  (also "@ + dotted(l.explicit_only) + " when passed explicitly)"@) by {
        lemma_line_contents(l, w);
    }
    assert forall|l: LanguageSpec, w: int, j: int| 0 <= j < l.explicit_only.len() implies #[trigger] line_lists(report_line(l, w), l.explicit_only[j]) by {
        lemma_line_contents(l, w);
    }
}

proof fn lemma_report_head()
    ensures
        spec_report().take(21) == "Supported languages:\n"@,
{
    reveal_strlit("Supported languages:\n");
    let ls = spec_languages();
    let head = "Supported languages:\n"@;
    assert(spec_report().take(21) =~= head);
}

proof fn lemma_report_has_every_line()
    ensures
        forall|k: int|
            0 <= k < spec_languages().len() ==> exists|off: int|
                #[trigger] occurs_at(spec_report(), report_line(#[trigger] spec_languages()[k], name_width(spec_languages(), spec_languages().len() as int)), off),
{
    let ls = spec_languages();
    let w = name_width(ls, ls.len() as int);
    let head = "Supported languages:\n"@;
    assert forall|k: int| 0 <= k < ls.len() implies exists|off: int|
        #[trigger] occurs_at(spec_report(), report_line(#[trigger] ls[k], w), off) by {
        lemma_report_lines_split(ls, ls.len() as int, w, k);
        lemma_occurs_in_concat(head, report_lines(ls, ls.len() as int, w), Seq::empty(), report_line(ls[k], w), report_lines(ls, k, w).len() as int);
        assert(spec_report() =~= head + report_lines(ls, ls.len() as int, w) + Seq::<char>::empty());
    }
}

/// No line break in `s`.
pub open spec fn plain(s: Seq<char>) -> bool {
    forall|j: int| 0 <= j < s.len() ==> #[trigger] s[j] != '\n' && s[j] != '\r'
}

/// No name or extension of the table holds a line break.
proof fn lemma_table_plain()
    ensures
        forall|i: int|
            0 <= i < spec_languages().len() ==> {
                &&& plain(#[trigger] spec_languages()[i].name)
                &&& forall|k: int| 0 <= k < spec_languages()[i].extensions.len() ==> plain(#[trigger] spec_languages()[i].extensions[k])
                &&& forall|k: int| 0 <= k < spec_languages()[i].explicit_only.len() ==> plain(#[trigger] spec_languages()[i].explicit_only[k])
            },
{
    reveal_strlit("Ada");
    assert("Ada"@ =~= seq!['A', 'd', 'a']);
    assert(plain("Ada"@));
    reveal_strlit("C");
    assert("C"@ =~= seq!['C']);
    assert(plain("C"@));
    reveal_strlit("C#");
    assert("C#"@ =~= seq!['C', '#']);
    assert(plain("C#"@));
    reveal_strlit("C++");
    assert("C++"@ =~= seq!['C', '+', '+']);
    assert(plain("C++"@));
    reveal_strlit("F03");
    assert("F03"@ =~= seq!['F', '0', '3']);
    assert(plain("F03"@));
    reveal_strlit("F08");
    assert("F08"@ =~= seq!['F', '0', '8']);
    assert(plain("F08"@));
    reveal_strlit("F90");
    assert("F90"@ =~= seq!['F', '9', '0']);
    assert(plain("F90"@));
    reveal_strlit("F95");
    assert("F95"@ =~= seq!['F', '9', '5']);
    assert(plain("F95"@));
    reveal_strlit("Fortran");
    assert("Fortran"@ =~= seq!['F', 'o', 'r', 't', 'r', 'a', 'n']);
    assert(plain("Fortran"@));
    reveal_strlit("Go");
    assert("Go"@ =~= seq!['G', 'o']);
    assert(plain("Go"@));
    reveal_strlit("Java");
    assert("Java"@ =~= seq!['J', 'a', 'v', 'a']);
    assert(plain("Java"@));
    reveal_strlit("JavaScript");
    assert("JavaScript"@ =~= seq!['J', 'a', 'v', 'a', 'S', 'c', 'r', 'i', 'p', 't']);
    assert(plain("JavaScript"@));
    reveal_strlit("Kotlin");
    assert("Kotlin"@ =~= seq!['K', 'o', 't', 'l', 'i', 'n']);
    assert(plain("Kotlin"@));
    reveal_strlit("Lua");
    assert("Lua"@ =~= seq!['L', 'u', 'a']);
    assert(plain("Lua"@));
    reveal_strlit("PHP");
    assert("PHP"@ =~= seq!['P', 'H', 'P']);
    assert(plain("PHP"@));
    reveal_strlit("Python");
    assert("Python"@ =~= seq!['P', 'y', 't', 'h', 'o', 'n']);
    assert(plain("Python"@));
    reveal_strlit("Rust");
    assert("Rust"@ =~= seq!['R', 'u', 's', 't']);
    assert(plain("Rust"@));
    reveal_strlit("Scala");
    assert("Scala"@ =~= seq!['S', 'c', 'a', 'l', 'a']);
    assert(plain("Scala"@));
    reveal_strlit("Swift");
    assert("Swift"@ =~= seq!['S', 'w', 'i', 'f', 't']);
    assert(plain("Swift"@));
    reveal_strlit("TypeScript");
    assert("TypeScript"@ =~= seq!['T', 'y', 'p', 'e', 'S', 'c', 'r', 'i', 'p', 't']);
    assert(plain("TypeScript"@));
    reveal_strlit("ada");
    assert("ada"@ =~= seq!['a', 'd', 'a']);
    assert(plain("ada"@));
    reveal_strlit("adb");
    assert("adb"@ =~= seq!['a', 'd', 'b']);
    assert(plain("adb"@));
    reveal_strlit("ads");
    assert("ads"@ =~= seq!['a', 'd', 's']);
    assert(plain("ads"@));
    reveal_strlit("c");
    assert("c"@ =~= seq!['c']);
    assert(plain("c"@));
    reveal_strlit("cc");
    assert("cc"@ =~= seq!['c', 'c']);
    assert(plain("cc"@));
    reveal_strlit("cjs");
    assert("cjs"@ =~= seq!['c', 'j', 's']);
    assert(plain("cjs"@));
    reveal_strlit("cpp");
    assert("cpp"@ =~= seq!['c', 'p', 'p']);
    assert(plain("cpp"@));
    reveal_strlit("cs");
    assert("cs"@ =~= seq!['c', 's']);
    assert(plain("cs"@));
    reveal_strlit("csharp");
    assert("csharp"@ =~= seq!['c', 's', 'h', 'a', 'r', 'p']);
    assert(plain("csharp"@));
    reveal_strlit("cxx");
    assert("cxx"@ =~= seq!['c', 'x', 'x']);
    assert(plain("cxx"@));
    reveal_strlit("f03");
    assert("f03"@ =~= seq!['f', '0', '3']);
    assert(plain("f03"@));
    reveal_strlit("f08");
    assert("f08"@ =~= seq!['f', '0', '8']);
    assert(plain("f08"@));
    reveal_strlit("f90");
    assert("f90"@ =~= seq!['f', '9', '0']);
    assert(plain("f90"@));
    reveal_strlit("f95");
    assert("f95"@ =~= seq!['f', '9', '5']);
    assert(plain("f95"@));
    reveal_strlit("fortran");
    assert("fortran"@ =~= seq!['f', 'o', 'r', 't', 'r', 'a', 'n']);
    assert(plain("fortran"@));
    reveal_strlit("go");
    assert("go"@ =~= seq!['g', 'o']);
    assert(plain("go"@));
    reveal_strlit("h");
    assert("h"@ =~= seq!['h']);
    assert(plain("h"@));
    reveal_strlit("hpp");
    assert("hpp"@ =~= seq!['h', 'p', 'p']);
    assert(plain("hpp"@));
    reveal_strlit("hxx");
    assert("hxx"@ =~= seq!['h', 'x', 'x']);
    assert(plain("hxx"@));
    reveal_strlit("java");
    assert("java"@ =~= seq!['j', 'a', 'v', 'a']);
    assert(plain("java"@));
    reveal_strlit("javascript");
    assert("javascript"@ =~= seq!['j', 'a', 'v', 'a', 's', 'c', 'r', 'i', 'p', 't']);
    assert(plain("javascript"@));
    reveal_strlit("js");
    assert("js"@ =~= seq!['j', 's']);
    assert(plain("js"@));
    reveal_strlit("jsx");
    assert("jsx"@ =~= seq!['j', 's', 'x']);
    assert(plain("jsx"@));
    reveal_strlit("kotlin");
    assert("kotlin"@ =~= seq!['k', 'o', 't', 'l', 'i', 'n']);
    assert(plain("kotlin"@));
    reveal_strlit("kt");
    assert("kt"@ =~= seq!['k', 't']);
    assert(plain("kt"@));
    reveal_strlit("kts");
    assert("kts"@ =~= seq!['k', 't', 's']);
    assert(plain("kts"@));
    reveal_strlit("lua");
    assert("lua"@ =~= seq!['l', 'u', 'a']);
    assert(plain("lua"@));
    reveal_strlit("mjs");
    assert("mjs"@ =~= seq!['m', 'j', 's']);
    assert(plain("mjs"@));
    reveal_strlit("php");
    assert("php"@ =~= seq!['p', 'h', 'p']);
    assert(plain("php"@));
    reveal_strlit("py");
    assert("py"@ =~= seq!['p', 'y']);
    assert(plain("py"@));
    reveal_strlit("python");
    assert("python"@ =~= seq!['p', 'y', 't', 'h', 'o', 'n']);
    assert(plain("python"@));
    reveal_strlit("rs");
    assert("rs"@ =~= seq!['r', 's']);
    assert(plain("rs"@));
    reveal_strlit("rust");
    assert("rust"@ =~= seq!['r', 'u', 's', 't']);
    assert(plain("rust"@));
    reveal_strlit("sc");
    assert("sc"@ =~= seq!['s', 'c']);
    assert(plain("sc"@));
    reveal_strlit("scala");
    assert("scala"@ =~= seq!['s', 'c', 'a', 'l', 'a']);
    assert(plain("scala"@));
    reveal_strlit("swift");
    assert("swift"@ =~= seq!['s', 'w', 'i', 'f', 't']);
    assert(plain("swift"@));
    reveal_strlit("ts");
    assert("ts"@ =~= seq!['t', 's']);
    assert(plain("ts"@));
    reveal_strlit("tsx");
    assert("tsx"@ =~= seq!['t', 's', 'x']);
    assert(plain("tsx"@));
    reveal_strlit("typescript");
    assert("typescript"@ =~= seq!['t', 'y', 'p', 'e', 's', 'c', 'r', 'i', 'p', 't']);
    assert(plain("typescript"@));
    let ls = spec_languages();
    assert forall|i: int| 0 <= i < ls.len() implies {
        &&& plain(#[trigger] ls[i].name)
        &&& forall|k: int| 0 <= k < ls[i].extensions.len() ==> plain(#[trigger] ls[i].extensions[k])
        &&& forall|k: int| 0 <= k < ls[i].explicit_only.len() ==> plain(#[trigger] ls[i].explicit_only[k])
    } by {
        if i == 0 {
        } else if i == 1 {
        } else if i == 2 {
        } else if i == 3 {
        } else if i == 4 {
        } else if i == 5 {
        } else if i == 6 {
        } else if i == 7 {
        } else if i == 8 {
        } else if i == 9 {
        } else if i == 10 {
        } else if i == 11 {
        } else if i == 12 {
        } else if i == 13 {
        } else if i == 14 {
        } else if i == 15 {
        }
    }
}

proof fn lemma_plain_add(a: Seq<char>, b: Seq<char>)
    requires
        plain(a),
        plain(b),
    ensures
        plain(a + b),
{
    assert forall|j: int| 0 <= j < (a + b).len() implies #[trigger] (a + b)[j] != '\n' && (a + b)[j] != '\r' by {
        if j < a.len() {
            assert((a + b)[j] == a[j]);
        } else {
            assert((a + b)[j] == b[j - a.len()]);
        }
    }
}

proof fn lemma_dotted_plain(exts: Seq<Seq<char>>, n: int)
    requires
        0 <= n <= exts.len(),
        forall|k: int| 0 <= k < exts.len() ==> plain(#[trigger] exts[k]),
    ensures
        plain(dotted_upto(exts, n)),
    decreases n,
{
    assert(plain(seq!['.']));
    assert(plain(seq![' ', '.']));
    if n == 1 {
        lemma_plain_add(seq!['.'], exts[0]);
    } else if n > 1 {
        lemma_dotted_plain(exts, n - 1);
        lemma_plain_add(dotted_upto(exts, n - 1), seq![' ', '.']);
        lemma_plain_add(dotted_upto(exts, n - 1) + seq![' ', '.'], exts[n - 1]);
    }
}

/// The report's line for `l`, without its line break.
pub open spec fn report_body(l: LanguageSpec, w: int) -> Seq<char> {
    "  "@ + pad_right(l.name, w) + "  "@ + dotted(l.extensions) + (if l.explicit_only.len() > 0 {
        "  (also "@ + dotted(l.explicit_only) + " when passed explicitly)"@
    } else {
        Seq::empty()
    })
}

proof fn lemma_report_body_plain(l: LanguageSpec, w: int)
    requires
        plain(l.name),
        forall|k: int| 0 <= k < l.extensions.len() ==> plain(#[trigger] l.extensions[k]),
        forall|k: int| 0 <= k < l.explicit_only.len() ==> plain(#[trigger] l.explicit_only[k]),
    ensures
        plain(report_body(l, w)),
        report_line(l, w) == report_body(l, w).push('\n'),
{
    reveal_strlit("  ");
    assert("  "@ =~= seq![' ', ' ']);
    reveal_strlit("  (also ");
    assert("  (also "@ =~= seq![' ', ' ', '(', 'a', 'l', 's', 'o', ' ']);
    reveal_strlit(" when passed explicitly)");
    assert(" when passed explicitly)"@ =~= seq![' ', 'w', 'h', 'e', 'n', ' ', 'p', 'a', 's', 's', 'e', 'd', ' ', 'e', 'x', 'p', 'l', 'i', 'c', 'i', 't', 'l', 'y', ')']);
    assert(plain("  "@));
    assert(plain("  (also "@));
    assert(plain(" when passed explicitly)"@));
    assert(plain(spaces(w - l.name.len())));
    lemma_plain_add(l.name, spaces(w - l.name.len()));
    lemma_plain_add("  "@, pad_right(l.name, w));
    lemma_plain_add("  "@ + pad_right(l.name, w), "  "@);
    lemma_dotted_plain(l.extensions, l.extensions.len() as int);
    lemma_plain_add("  "@ + pad_right(l.name, w) + "  "@, dotted(l.extensions));
    let pre = "  "@ + pad_right(l.name, w) + "  "@ + dotted(l.extensions);
    if l.explicit_only.len() > 0 {
        lemma_dotted_plain(l.explicit_only, l.explicit_only.len() as int);
        lemma_plain_add("  (also "@, dotted(l.explicit_only));
        lemma_plain_add("  (also "@ + dotted(l.explicit_only), " when passed explicitly)"@);
        lemma_plain_add(pre, "  (also "@ + dotted(l.explicit_only) + " when passed explicitly)"@);
    } else {
        assert(pre + Seq::<char>::empty() =~= pre);
    }
    assert(report_line(l, w) =~= report_body(l, w).push('\n'));
}

/// The lines of the report lines of `ls[0..n]` are their bodies.
proof fn lemma_report_lines_lines(ls: Seq<LanguageSpec>, n: int, w: int)
    requires
        0 <= n <= ls.len(),
        forall|i: int|
            0 <= i < ls.len() ==> {
                &&& plain(#[trigger] ls[i].name)
                &&& forall|k: int| 0 <= k < ls[i].extensions.len() ==> plain(#[trigger] ls[i].extensions[k])
                &&& forall|k: int| 0 <= k < ls[i].explicit_only.len() ==> plain(#[trigger] ls[i].explicit_only[k])
            },
    ensures
        lines(report_lines(ls, n, w)).len() == n,
        forall|k: int| 0 <= k < n ==> #[trigger] lines(report_lines(ls, n, w))[k] == report_body(ls[k], w),
        n > 0 ==> report_lines(ls, n, w).len() > 0 && report_lines(ls, n, w).last() == '\n',
    decreases n,
{
    if n == 0 {
        assert(lines(Seq::<char>::empty()) =~= Seq::<Seq<char>>::empty());
    } else {
        let l = ls[n - 1];
        assert(plain(l.name));
        lemma_report_body_plain(l, w);
        let body = report_body(l, w);
        crate::text::lemma_lines_leading(body, Seq::empty());
        assert(body.push('\n') + Seq::<char>::empty() =~= body.push('\n'));
        assert(lines(Seq::<char>::empty()) =~= Seq::<Seq<char>>::empty());
        lemma_report_lines_lines(ls, n - 1, w);
        let a = report_lines(ls, n - 1, w);
        let line = report_line(l, w);
        if n - 1 == 0 {
            assert(a + line =~= line);
        } else {
            crate::text::lemma_lines_concat(a, line);
        }
        assert(lines(report_lines(ls, n, w)) =~= lines(a) + seq![body]);
        assert((a + line).last() == '\n');
    }
}

/// The supported-languages report has one line per language after its
/// header line: the header, then each language's line in table order.
pub proof fn report_has_a_line_per_language()
    ensures
        lines(spec_report()).len() == spec_languages().len() + 1,
        lines(spec_report())[0] == "Supported languages:"@,
        forall|k: int|
            0 <= k < spec_languages().len() ==> #[trigger] lines(spec_report())[k + 1] == report_body(
                spec_languages()[k],
                name_width(spec_languages(), spec_languages().len() as int),
            ),
{
    let ls = spec_languages();
    let w = name_width(ls, ls.len() as int);
    lemma_table_plain();
    lemma_report_lines_lines(ls, ls.len() as int, w);
    reveal_strlit("Supported languages:");
    reveal_strlit("Supported languages:\n");
    let l0 = "Supported languages:"@;
    assert(l0 =~= seq!['S', 'u', 'p', 'p', 'o', 'r', 't', 'e', 'd', ' ', 'l', 'a', 'n', 'g', 'u', 'a', 'g', 'e', 's', ':']);
    assert("Supported languages:\n"@ =~= l0.push('\n'));
    assert(plain(l0));
    let rl = report_lines(ls, ls.len() as int, w);
    crate::text::lemma_lines_leading(l0, rl);
    assert(lines(spec_report()) == seq![l0] + lines(rl));
}

} // verus!
