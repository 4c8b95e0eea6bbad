//! Preprocessor dead-code region detection for C/C++.
//!
//! Computes the 1-based inclusive line ranges of a C/C++ translation unit
//! that a preprocessor would strip before the compiler ever sees them:
//!
//! 1. `#if 0` and `__cplusplus`-gated branches — dead when the translation
//!    unit is compiled as C.
//! 2. `#ifdef MACRO` / `#if defined(MACRO)` where `MACRO`'s definedness is
//!    locally provable from this file: unconditionally `#define`d earlier
//!    with no later `#undef` (branch always live, its `#else` dead), or
//!    never validly `#define`d in scope at this point — either not
//!    mentioned at all except as a commented-out `#define`, or
//!    unconditionally `#undef`d with no later `#define` (branch always
//!    dead). A macro the file never mentions is left unclassified.
//!
//! The scan is line-based, so an `extern "C" {` hidden behind
//! `#ifdef __cplusplus` cannot mis-nest anything. `#define`/`#undef`
//! tracking only counts lines outside every `#if`/`#ifdef`/`#ifndef`.

use vstd::prelude::*;
use crate::registry::SlocMode;
use crate::regions::{marker_text, spec_marker_text};
use crate::text::{
    chars_eq, chars_of, find_char, find_pair, find_pair_exec, first_ident, first_index,
    ident_end, ident_len, lemma_first_index, lines, spec_first_ident, split_lines, strip_prefix,
    strip_prefix_slice, trim, trim_slice, trim_start, trim_start_slice,
};

verus! {

/// Why a [`DeadCodeRegion`] is provably never compiled.
#[derive(Debug, Clone, Copy, PartialEq, Eq, Structural)]
pub enum DeadCodeReason {
    /// `#if 0`.
    IfZero,
    /// C++-only branch, dead when the translation unit is built as C.
    /// Covers `#ifdef __cplusplus`, `#if defined(__cplusplus) [&&...]`, and
    /// the dead `#else` of `#ifndef __cplusplus` / `#if !defined(__cplusplus)`.
    CppOnly,
    /// The macro is unconditionally `#define`d earlier in the file with no
    /// later `#undef`, so the `#ifdef`/`#if defined(MACRO)` branch is always
    /// live and its `#else` is dead.
    AlwaysDefined,
    /// The macro is never validly `#define`d in scope at this point — either
    /// not mentioned at all except as a commented-out `#define`, or
    /// unconditionally `#undef`d with no later `#define` — so the
    /// `#ifdef`/`#if defined(MACRO)` branch itself is dead.
    NeverDefined,
}

/// A preprocessor-dead region: source that a C/C++ preprocessor strips
/// before the compiler ever sees it.
#[derive(Debug, Clone, Copy, PartialEq, Eq, Structural)]
pub struct DeadCodeRegion {
    /// 1-based, inclusive first line of the dead region.
    pub start_line: usize,
    /// 1-based, inclusive last line of the dead region.
    pub end_line: usize,
    /// Why this region is dead.
    pub reason: DeadCodeReason,
}

/// Which branch of a preprocessor conditional is never compiled.
#[derive(Clone, Copy, PartialEq, Eq, Structural)]
pub enum BranchKind {
    /// The then-branch is dead; the `#else` branch (if any) is live.
    ThenDead(DeadCodeReason),
    /// The then-branch is live; the `#else` branch is dead.
    ElseDead(DeadCodeReason),
    /// Not a recognized dead conditional.
    Neutral,
}

/// One open conditional.
#[derive(Clone, Copy, PartialEq, Eq, Structural)]
pub struct Frame {
    pub kind: BranchKind,
    /// Whether the dead region currently open (if any) was opened by this
    /// frame itself, rather than inherited from an enclosing dead frame.
    pub self_caused: bool,
}

/// The reason a branch kind carries, if any.
pub open spec fn kind_reason(k: BranchKind) -> Option<DeadCodeReason> {
    match k {
        BranchKind::ThenDead(r) => Some(r),
        BranchKind::ElseDead(r) => Some(r),
        BranchKind::Neutral => None,
    }
}

/// The latest `#define` (`true`) or `#undef` (`false`) of `name` among the
/// first `n` entries of `log`.
pub open spec fn lookup_define(log: Seq<(Seq<char>, bool)>, n: int, name: Seq<char>) -> Option<bool>
    decreases n,
{
    if n <= 0 || n > log.len() {
        None
    } else if log[n - 1].0 == name {
        Some(log[n - 1].1)
    } else {
        lookup_define(log, n - 1, name)
    }
}

/// Classifies a bare macro name from `#ifdef`/`#ifndef` (`is_ifndef` tells
/// which) or from `defined(NAME)`/`!defined(NAME)` inside `#if`.
pub open spec fn spec_classify_name(
    name: Seq<char>,
    is_ifndef: bool,
    log: Seq<(Seq<char>, bool)>,
    commented: Seq<Seq<char>>,
) -> BranchKind {
    if name == "__cplusplus"@ {
        if is_ifndef {
            BranchKind::ElseDead(DeadCodeReason::CppOnly)
        } else {
            BranchKind::ThenDead(DeadCodeReason::CppOnly)
        }
    } else {
        match lookup_define(log, log.len() as int, name) {
            Some(true) => if is_ifndef {
                BranchKind::ThenDead(DeadCodeReason::AlwaysDefined)
            } else {
                BranchKind::ElseDead(DeadCodeReason::AlwaysDefined)
            },
            Some(false) => if is_ifndef {
                BranchKind::ElseDead(DeadCodeReason::NeverDefined)
            } else {
                BranchKind::ThenDead(DeadCodeReason::NeverDefined)
            },
            None => if commented.contains(name) {
                if is_ifndef {
                    BranchKind::ElseDead(DeadCodeReason::NeverDefined)
                } else {
                    BranchKind::ThenDead(DeadCodeReason::NeverDefined)
                }
            } else {
                BranchKind::Neutral
            },
        }
    }
}

/// Define/undef log and commented-out names, as executable tables.
pub(crate) fn lookup(log: &Vec<(Vec<char>, bool)>, name: &[char]) -> (r: Option<bool>)
    ensures
        r == lookup_define(log_view(log@), log@.len() as int, name@),
{
    let mut n = log.len();
    while n > 0
        invariant
            n <= log@.len(),
            lookup_define(log_view(log@), log@.len() as int, name@) == lookup_define(
                log_view(log@),
                n as int,
                name@,
            ),
        decreases n,
    {
        assert(log_view(log@)[n - 1] == (log@[n - 1].0@, log@[n - 1].1));
        if chars_eq(log[n - 1].0.as_slice(), name) {
            return Some(log[n - 1].1);
        }
        n = n - 1;
    }
    None
}

/// The view of a define/undef log.
pub open spec fn log_view(log: Seq<(Vec<char>, bool)>) -> Seq<(Seq<char>, bool)> {
    log.map_values(|e: (Vec<char>, bool)| (e.0@, e.1))
}

/// The view of a list of names.
pub open spec fn names_view(v: Seq<Vec<char>>) -> Seq<Seq<char>> {
    v.map_values(|n: Vec<char>| n@)
}

/// Whether `name` is among `names`.
pub(crate) fn names_contain(names: &Vec<Vec<char>>, name: &[char]) -> (r: bool)
    ensures
        r == names_view(names@).contains(name@),
{
    let mut i: usize = 0;
    while i < names.len()
        invariant
            i <= names@.len(),
            forall|k: int| 0 <= k < i ==> names_view(names@)[k] != name@,
        decreases names.len() - i,
    {
        assert(names_view(names@)[i as int] == names@[i as int]@);
        if chars_eq(names[i].as_slice(), name) {
            return true;
        }
        i = i + 1;
    }
    false
}

fn classify_name(
    name: &[char],
    is_ifndef: bool,
    log: &Vec<(Vec<char>, bool)>,
    commented: &Vec<Vec<char>>,
) -> (r: BranchKind)
    ensures
        r == spec_classify_name(name@, is_ifndef, log_view(log@), names_view(commented@)),
{
    let cpp = chars_of("__cplusplus");
    if chars_eq(name, cpp.as_slice()) {
        return if is_ifndef {
            BranchKind::ElseDead(DeadCodeReason::CppOnly)
        } else {
            BranchKind::ThenDead(DeadCodeReason::CppOnly)
        };
    }
    assert(log_view(log@).len() == log@.len());
    match lookup(log, name) {
        Some(true) => {
            if is_ifndef {
                BranchKind::ThenDead(DeadCodeReason::AlwaysDefined)
            } else {
                BranchKind::ElseDead(DeadCodeReason::AlwaysDefined)
            }
        },
        Some(false) => {
            if is_ifndef {
                BranchKind::ElseDead(DeadCodeReason::NeverDefined)
            } else {
                BranchKind::ThenDead(DeadCodeReason::NeverDefined)
            }
        },
        None => {
            if names_contain(commented, name) {
                if is_ifndef {
                    BranchKind::ElseDead(DeadCodeReason::NeverDefined)
                } else {
                    BranchKind::ThenDead(DeadCodeReason::NeverDefined)
                }
            } else {
                BranchKind::Neutral
            }
        },
    }
}

/// `s` up to its first `//` or `/*`.
pub open spec fn spec_strip_trailing_comment(s: Seq<char>) -> Seq<char> {
    let a = find_pair(s, '/', '/', 0);
    let b = find_pair(s, '/', '*', 0);
    s.take(if a <= b { a } else { b })
}

fn strip_trailing_comment(s: &[char]) -> (r: &[char])
    ensures
        r@ == spec_strip_trailing_comment(s@),
{
    let a = find_pair_exec(s, '/', '/');
    let b = find_pair_exec(s, '/', '*');
    let cut = if a <= b {
        a
    } else {
        b
    };
    &s[0..cut]
}

/// Whether an `#if` condition is the literal `0` (ignoring a trailing
/// comment).
pub open spec fn spec_is_zero_condition(rest: Seq<char>) -> bool {
    trim(spec_strip_trailing_comment(rest)) == "0"@
}

fn is_zero_condition(rest: &[char]) -> (r: bool)
    ensures
        r == spec_is_zero_condition(rest@),
{
    let zero = chars_of("0");
    chars_eq(trim_slice(strip_trailing_comment(rest)), zero.as_slice())
}

/// A leading `defined(NAME)` or `defined NAME` of `s`: the name and the
/// text after it.
pub open spec fn spec_parse_defined(s: Seq<char>) -> Option<(Seq<char>, Seq<char>)> {
    let s1 = trim_start(s);
    match strip_prefix(s1, "defined"@) {
        None => None,
        Some(r0) => {
            let rest = trim_start(r0);
            if rest.len() > 0 && rest[0] == '(' {
                let inner = rest.subrange(1, rest.len() as int);
                let close = first_index(inner, ')', 0);
                if close >= inner.len() {
                    None
                } else {
                    let name = trim(inner.take(close));
                    if name.len() == 0 {
                        None
                    } else {
                        Some((name, inner.subrange(close + 1, inner.len() as int)))
                    }
                }
            } else {
                let t = trim_start(rest);
                let end = ident_end(t, 0);
                if end == 0 {
                    None
                } else {
                    Some((t.take(end), t.subrange(end, t.len() as int)))
                }
            }
        },
    }
}

fn parse_defined(s: &[char]) -> (r: Option<(&[char], &[char])>)
    ensures
        match r {
            Some((n, rem)) => spec_parse_defined(s@) == Some((n@, rem@)),
            None => spec_parse_defined(s@) is None,
        },
{
    let s1 = trim_start_slice(s);
    let kw = chars_of("defined");
    let r0 = match strip_prefix_slice(s1, kw.as_slice()) {
        Some(r0) => r0,
        None => {
            return None;
        },
    };
    let rest = trim_start_slice(r0);
    if rest.len() > 0 && rest[0] == '(' {
        let inner = &rest[1..rest.len()];
        let close = find_char(inner, ')', 0);
        if close >= inner.len() {
            return None;
        }
        let name = trim_slice(&inner[0..close]);
        if name.len() == 0 {
            return None;
        }
        Some((name, &inner[close + 1..inner.len()]))
    } else {
        let t = trim_start_slice(rest);
        let end = ident_len(t);
        if end == 0 {
            return None;
        }
        Some((&t[0..end], &t[end..t.len()]))
    }
}

/// Classifies an `#if` condition that isn't the literal `0`:
/// `defined(NAME)` / `defined NAME`, optionally negated with a leading `!`,
/// optionally followed by `&& ...` (only the `ThenDead` side survives a
/// trailing `&&`).
pub open spec fn spec_classify_if_condition(
    rest: Seq<char>,
    log: Seq<(Seq<char>, bool)>,
    commented: Seq<Seq<char>>,
) -> BranchKind {
    let trimmed = trim(spec_strip_trailing_comment(rest));
    match strip_prefix(trimmed, "!"@) {
        Some(after_bang) => match spec_parse_defined(trim_start(after_bang)) {
            Some((name, remainder)) => if trim(remainder).len() == 0 {
                spec_classify_name(name, true, log, commented)
            } else {
                BranchKind::Neutral
            },
            None => BranchKind::Neutral,
        },
        None => match spec_parse_defined(trimmed) {
            Some((name, remainder)) => {
                let kind = spec_classify_name(name, false, log, commented);
                let rem = trim_start(remainder);
                let bare = rem.len() == 0;
                let leading_and = crate::text::has_prefix(rem, "&&"@) && kind is ThenDead;
                if bare || leading_and {
                    kind
                } else {
                    BranchKind::Neutral
                }
            },
            None => BranchKind::Neutral,
        },
    }
}

fn classify_if_condition(
    rest: &[char],
    log: &Vec<(Vec<char>, bool)>,
    commented: &Vec<Vec<char>>,
) -> (r: BranchKind)
    ensures
        r == spec_classify_if_condition(rest@, log_view(log@), names_view(commented@)),
{
    let trimmed = trim_slice(strip_trailing_comment(rest));
    let bang = chars_of("!");
    if let Some(after_bang) = strip_prefix_slice(trimmed, bang.as_slice()) {
        return match parse_defined(trim_start_slice(after_bang)) {
            Some((name, remainder)) => {
                if trim_slice(remainder).len() == 0 {
                    classify_name(name, true, log, commented)
                } else {
                    BranchKind::Neutral
                }
            },
            None => BranchKind::Neutral,
        };
    }
    match parse_defined(trimmed) {
        Some((name, remainder)) => {
            let kind = classify_name(name, false, log, commented);
            let rem = trim_start_slice(remainder);
            let bare = rem.len() == 0;
            let and = chars_of("&&");
            let leading_and = crate::text::starts_with(rem, and.as_slice()) && matches!(kind, BranchKind::ThenDead(_));
            if bare || leading_and {
                kind
            } else {
                BranchKind::Neutral
            }
        },
        None => BranchKind::Neutral,
    }
}

/// The preprocessor directives the scanner distinguishes.
#[derive(Clone, Copy, PartialEq, Eq, Structural)]
pub enum Directive {
    If,
    Ifdef,
    Ifndef,
    Elif,
    Else,
    Endif,
    Define,
    Undef,
    Other,
}

/// The directive a keyword names.
pub open spec fn spec_directive(word: Seq<char>) -> Directive {
    if word == "if"@ {
        Directive::If
    } else if word == "ifdef"@ {
        Directive::Ifdef
    } else if word == "ifndef"@ {
        Directive::Ifndef
    } else if word == "elif"@ {
        Directive::Elif
    } else if word == "else"@ {
        Directive::Else
    } else if word == "endif"@ {
        Directive::Endif
    } else if word == "define"@ {
        Directive::Define
    } else if word == "undef"@ {
        Directive::Undef
    } else {
        Directive::Other
    }
}

fn directive_of(word: &[char]) -> (r: Directive)
    ensures
        r == spec_directive(word@),
{
    if chars_eq(word, chars_of("if").as_slice()) {
        Directive::If
    } else if chars_eq(word, chars_of("ifdef").as_slice()) {
        Directive::Ifdef
    } else if chars_eq(word, chars_of("ifndef").as_slice()) {
        Directive::Ifndef
    } else if chars_eq(word, chars_of("elif").as_slice()) {
        Directive::Elif
    } else if chars_eq(word, chars_of("else").as_slice()) {
        Directive::Else
    } else if chars_eq(word, chars_of("endif").as_slice()) {
        Directive::Endif
    } else if chars_eq(word, chars_of("define").as_slice()) {
        Directive::Define
    } else if chars_eq(word, chars_of("undef").as_slice()) {
        Directive::Undef
    } else {
        Directive::Other
    }
}

/// Classifies an `#if`/`#ifdef`/`#ifndef` line. `rest` is everything after
/// the directive keyword.
pub open spec fn spec_classify_conditional(
    d: Directive,
    rest: Seq<char>,
    log: Seq<(Seq<char>, bool)>,
    commented: Seq<Seq<char>>,
) -> BranchKind {
    match d {
        Directive::Ifdef => match spec_first_ident(rest) {
            Some(n) => spec_classify_name(n, false, log, commented),
            None => BranchKind::Neutral,
        },
        Directive::Ifndef => match spec_first_ident(rest) {
            Some(n) => spec_classify_name(n, true, log, commented),
            None => BranchKind::Neutral,
        },
        Directive::If => if spec_is_zero_condition(rest) {
            BranchKind::ThenDead(DeadCodeReason::IfZero)
        } else {
            spec_classify_if_condition(rest, log, commented)
        },
        _ => BranchKind::Neutral,
    }
}

fn classify_conditional(
    d: Directive,
    rest: &[char],
    log: &Vec<(Vec<char>, bool)>,
    commented: &Vec<Vec<char>>,
) -> (r: BranchKind)
    ensures
        r == spec_classify_conditional(d, rest@, log_view(log@), names_view(commented@)),
{
    match d {
        Directive::Ifdef => match first_ident(rest) {
            Some(n) => classify_name(n, false, log, commented),
            None => BranchKind::Neutral,
        },
        Directive::Ifndef => match first_ident(rest) {
            Some(n) => classify_name(n, true, log, commented),
            None => BranchKind::Neutral,
        },
        Directive::If => {
            if is_zero_condition(rest) {
                BranchKind::ThenDead(DeadCodeReason::IfZero)
            } else {
                classify_if_condition(rest, log, commented)
            }
        },
        _ => BranchKind::Neutral,
    }
}

/// Index of the first non-ASCII-letter at or after `i`.
pub open spec fn alpha_end(s: Seq<char>, i: int) -> int
    decreases s.len() - i,
{
    if i < 0 || i >= s.len() {
        s.len() as int
    } else if ('a' <= s[i] && s[i] <= 'z') || ('A' <= s[i] && s[i] <= 'Z') {
        alpha_end(s, i + 1)
    } else {
        i
    }
}

/// A `#`-directive line split into its keyword and the rest of the line.
pub open spec fn spec_parse_directive(line: Seq<char>) -> Option<(Seq<char>, Seq<char>)> {
    match strip_prefix(trim_start(line), "#"@) {
        None => None,
        Some(after) => {
            let a = trim_start(after);
            let end = alpha_end(a, 0);
            if end == 0 {
                None
            } else {
                Some((a.take(end), a.subrange(end, a.len() as int)))
            }
        },
    }
}

/// Splits `line` into a leading `#`-directive keyword and the rest of the
/// line, if `line` is a preprocessor directive at all.
pub fn parse_directive(line: &[char]) -> (r: Option<(&[char], &[char])>)
    ensures
        match r {
            Some((w, rest)) => spec_parse_directive(line@) == Some((w@, rest@)),
            None => spec_parse_directive(line@) is None,
        },
{
    let hash = chars_of("#");
    let after = match strip_prefix_slice(trim_start_slice(line), hash.as_slice()) {
        Some(a) => a,
        None => {
            return None;
        },
    };
    let a = trim_start_slice(after);
    let mut end: usize = 0;
    while end < a.len() && (('a' <= a[end] && a[end] <= 'z') || ('A' <= a[end] && a[end] <= 'Z'))
        invariant
            end <= a@.len(),
            alpha_end(a@, 0) == alpha_end(a@, end as int),
        decreases a.len() - end,
    {
        end = end + 1;
    }
    if end == 0 {
        return None;
    }
    Some((&a[0..end], &a[end..a.len()]))
}

/// The name of a commented-out `#define` on this line, if the line is
/// entirely a `//` or single-line `/* */` comment holding one.
pub open spec fn commented_define(line: Seq<char>) -> Option<Seq<char>> {
    match spec_marker_text(line, SlocMode::Default) {
        None => None,
        Some(text) => match strip_prefix(trim_start(text), "#"@) {
            None => None,
            Some(r1) => match strip_prefix(trim_start(r1), "define"@) {
                None => None,
                Some(r2) => spec_first_ident(r2),
            },
        },
    }
}

/// The commented-out `#define` names of lines `idx..` of `ls`, in order.
pub open spec fn commented_from(ls: Seq<Seq<char>>, idx: int) -> Seq<Seq<char>>
    decreases ls.len() - idx,
{
    if idx < 0 || idx >= ls.len() {
        Seq::empty()
    } else {
        match commented_define(ls[idx]) {
            Some(n) => seq![n] + commented_from(ls, idx + 1),
            None => commented_from(ls, idx + 1),
        }
    }
}

fn commented_define_exec(line: &[char]) -> (r: Option<&[char]>)
    ensures
        match r {
            Some(n) => commented_define(line@) == Some(n@),
            None => commented_define(line@) is None,
        },
{
    let text = match marker_text(line, SlocMode::Default) {
        Some(t) => t,
        None => {
            return None;
        },
    };
    let hash = chars_of("#");
    let r1 = match strip_prefix_slice(trim_start_slice(text), hash.as_slice()) {
        Some(r) => r,
        None => {
            return None;
        },
    };
    let kw = chars_of("define");
    let r2 = match strip_prefix_slice(trim_start_slice(r1), kw.as_slice()) {
        Some(r) => r,
        None => {
            return None;
        },
    };
    first_ident(r2)
}

/// Collects every macro name that appears as a commented-out `#define` (a
/// whole line that is entirely a `//` or single-line `/* */` comment whose
/// content is a `#define NAME` directive) anywhere in `source` — evidence
/// that the macro was meant to be locally defined but currently isn't.
pub fn commented_out_define_names(source: &str) -> (r: Vec<Vec<char>>)
    ensures
        names_view(r@) == commented_from(lines(source@), 0),
{
    let chars = chars_of(source);
    let ls = split_lines(chars.as_slice());
    let ghost lv = ls@.map_values(|l: Vec<char>| l@);
    assert(lv =~= lines(source@));
    let mut out: Vec<Vec<char>> = Vec::new();
    let mut idx: usize = 0;
    while idx < ls.len()
        invariant
            idx <= ls@.len(),
            lv == ls@.map_values(|l: Vec<char>| l@),
            lv == lines(source@),
            names_view(out@) + commented_from(lv, idx as int) == commented_from(lv, 0),
        decreases ls.len() - idx,
    {
        let ghost before = names_view(out@);
        assert(ls@[idx as int]@ == lv[idx as int]);
        match commented_define_exec(ls[idx].as_slice()) {
            Some(n) => {
                let v = vstd::slice::slice_to_vec(n);
                out.push(v);
                assert(names_view(out@) =~= before.push(n@));
                assert(before.push(n@) + commented_from(lv, idx + 1) =~= before + (seq![n@]
                    + commented_from(lv, idx + 1)));
            },
            None => {},
        }
        idx = idx + 1;
    }
    assert(commented_from(lv, ls@.len() as int) =~= Seq::<Seq<char>>::empty());
    assert(names_view(out@) =~= names_view(out@) + Seq::<Seq<char>>::empty());
    out
}

/// The scanner's state between lines.
pub struct ScanModel {
    pub regions: Seq<DeadCodeRegion>,
    pub stack: Seq<Frame>,
    /// The line of the directive that opened the current dead region.
    pub opened_at: Option<usize>,
    pub log: Seq<(Seq<char>, bool)>,
}

/// Appends the region from the line after `opened` through `end`, if it
/// holds at least one line.
pub open spec fn spec_push_region(
    regions: Seq<DeadCodeRegion>,
    opened: usize,
    end: usize,
    reason: DeadCodeReason,
) -> Seq<DeadCodeRegion> {
    if opened < end {
        regions.push(DeadCodeRegion { start_line: (opened + 1) as usize, end_line: end, reason })
    } else {
        regions
    }
}

/// Closes the open dead region (if any) at line `end`, recording it when
/// `kind` carries a reason.
pub open spec fn spec_close(st: ScanModel, end: usize, kind: BranchKind) -> ScanModel {
    match st.opened_at {
        Some(o) => ScanModel {
            regions: match kind_reason(kind) {
                Some(r) => spec_push_region(st.regions, o, end, r),
                None => st.regions,
            },
            opened_at: None,
            ..st
        },
        None => st,
    }
}

/// Sets the `self_caused` flag of the innermost frame.
pub open spec fn set_top(stack: Seq<Frame>, self_caused: bool) -> Seq<Frame> {
    stack.update(stack.len() - 1, Frame { self_caused, ..stack.last() })
}

/// The effect of directive `d` (with text `rest`) on line `line_no`.
pub open spec fn spec_directive_step(
    st: ScanModel,
    line_no: usize,
    d: Directive,
    rest: Seq<char>,
    commented: Seq<Seq<char>>,
) -> ScanModel {
    match d {
        Directive::If | Directive::Ifdef | Directive::Ifndef => {
            let kind = if st.opened_at is Some {
                BranchKind::Neutral
            } else {
                spec_classify_conditional(d, rest, st.log, commented)
            };
            let self_caused = st.opened_at is None && kind is ThenDead;
            ScanModel {
                opened_at: if self_caused {
                    Some(line_no)
                } else {
                    st.opened_at
                },
                stack: st.stack.push(Frame { kind, self_caused }),
                ..st
            }
        },
        Directive::Elif => if st.stack.len() > 0 && st.stack.last().self_caused {
            let closed = spec_close(st, (line_no - 1) as usize, st.stack.last().kind);
            ScanModel { stack: set_top(st.stack, false), ..closed }
        } else {
            st
        },
        Directive::Else => if st.stack.len() == 0 {
            st
        } else if st.stack.last().self_caused {
            let closed = spec_close(st, (line_no - 1) as usize, st.stack.last().kind);
            ScanModel { stack: set_top(st.stack, false), ..closed }
        } else if st.opened_at is None && st.stack.last().kind is ElseDead {
            ScanModel { opened_at: Some(line_no), stack: set_top(st.stack, true), ..st }
        } else {
            st
        },
        Directive::Endif => if st.stack.len() == 0 {
            st
        } else {
            let top = st.stack.last();
            let popped = ScanModel { stack: st.stack.drop_last(), ..st };
            if top.self_caused {
                spec_close(popped, (line_no - 1) as usize, top.kind)
            } else {
                popped
            }
        },
        Directive::Define | Directive::Undef => if st.stack.len() == 0 {
            match spec_first_ident(rest) {
                Some(name) => ScanModel { log: st.log.push((name, d is Define)), ..st },
                None => st,
            }
        } else {
            st
        },
        Directive::Other => st,
    }
}

/// The effect of line `line_no` (text `line`) on the scan.
pub open spec fn spec_line_step(
    st: ScanModel,
    line_no: usize,
    line: Seq<char>,
    commented: Seq<Seq<char>>,
) -> ScanModel {
    match spec_parse_directive(line) {
        None => st,
        Some((word, rest)) => spec_directive_step(st, line_no, spec_directive(word), rest, commented),
    }
}

/// The scan state after lines `0..n` of `ls`.
pub open spec fn scan_lines(ls: Seq<Seq<char>>, n: int, commented: Seq<Seq<char>>) -> ScanModel
    decreases n,
{
    if n <= 0 || n > ls.len() {
        ScanModel { regions: Seq::empty(), stack: Seq::empty(), opened_at: None, log: Seq::empty() }
    } else {
        spec_line_step(scan_lines(ls, n - 1, commented), n as usize, ls[n - 1], commented)
    }
}

/// The innermost self-caused frame's reason among `stack[..n]`.
pub open spec fn open_reason(stack: Seq<Frame>, n: int) -> Option<DeadCodeReason>
    decreases n,
{
    if n <= 0 || n > stack.len() {
        None
    } else if stack[n - 1].self_caused {
        kind_reason(stack[n - 1].kind)
    } else {
        open_reason(stack, n - 1)
    }
}

/// The regions once every line is scanned: a still-open dead region runs
/// to the last line.
pub open spec fn spec_finish(st: ScanModel, total: usize) -> Seq<DeadCodeRegion> {
    match st.opened_at {
        Some(o) => spec_push_region(
            st.regions,
            o,
            total,
            match open_reason(st.stack, st.stack.len() as int) {
                Some(r) => r,
                None => DeadCodeReason::IfZero,
            },
        ),
        None => st.regions,
    }
}

/// The dead-code regions of the C/C++ source `s`.
pub open spec fn spec_dead_code_ranges(s: Seq<char>) -> Seq<DeadCodeRegion> {
    let ls = lines(s);
    spec_finish(scan_lines(ls, ls.len() as int, commented_from(ls, 0)), ls.len() as usize)
}

/// `open_reason` of the whole stack, computed.
fn open_reason_exec(stack: &Vec<Frame>) -> (r: Option<DeadCodeReason>)
    ensures
        r == open_reason(stack@, stack@.len() as int),
{
    let mut n = stack.len();
    while n > 0
        invariant
            n <= stack@.len(),
            open_reason(stack@, stack@.len() as int) == open_reason(stack@, n as int),
        decreases n,
    {
        let f = stack[n - 1];
        if f.self_caused {
            return match f.kind {
                BranchKind::ThenDead(r) => Some(r),
                BranchKind::ElseDead(r) => Some(r),
                BranchKind::Neutral => None,
            };
        }
        n = n - 1;
    }
    None
}

/// The executable scan state.
struct Scan {
    regions: Vec<DeadCodeRegion>,
    stack: Vec<Frame>,
    opened_at: Option<usize>,
    log: Vec<(Vec<char>, bool)>,
}

impl Scan {
    spec fn model(&self) -> ScanModel {
        ScanModel {
            regions: self.regions@,
            stack: self.stack@,
            opened_at: self.opened_at,
            log: log_view(self.log@),
        }
    }

    fn close(&mut self, end: usize, kind: BranchKind)
        ensures
            final(self).model() == spec_close(old(self).model(), end, kind),
            final(self).stack@ == old(self).stack@,
            final(self).log@ == old(self).log@,
    {
        match self.opened_at {
            Some(o) => {
                self.opened_at = None;
                let reason = match kind {
                    BranchKind::ThenDead(r) => Some(r),
                    BranchKind::ElseDead(r) => Some(r),
                    BranchKind::Neutral => None,
                };
                match reason {
                    Some(r) => {
                        if o < end {
                            self.regions.push(DeadCodeRegion { start_line: o + 1, end_line: end, reason: r });
                        }
                    },
                    None => {},
                }
            },
            None => {},
        }
    }

    fn set_top(&mut self, self_caused: bool)
        requires
            old(self).stack@.len() > 0,
        ensures
            final(self).model() == (ScanModel { stack: set_top(old(self).model().stack, self_caused), ..old(self).model() }),
    {
        let n = self.stack.len();
        let top = self.stack[n - 1];
        self.stack.set(n - 1, Frame { kind: top.kind, self_caused });
    }

    fn directive_step(
        &mut self,
        line_no: usize,
        d: Directive,
        rest: &[char],
        commented: &Vec<Vec<char>>,
    )
        requires
            line_no >= 1,
        ensures
            final(self).model() == spec_directive_step(old(self).model(), line_no, d, rest@, names_view(commented@)),
    {
        match d {
            Directive::If | Directive::Ifdef | Directive::Ifndef => {
                let kind = if self.opened_at.is_some() {
                    BranchKind::Neutral
                } else {
                    classify_conditional(d, rest, &self.log, commented)
                };
                let self_caused = self.opened_at.is_none() && matches!(kind, BranchKind::ThenDead(_));
                if self_caused {
                    self.opened_at = Some(line_no);
                }
                self.stack.push(Frame { kind, self_caused });
            },
            Directive::Elif => {
                let n = self.stack.len();
                if n > 0 && self.stack[n - 1].self_caused {
                    let kind = self.stack[n - 1].kind;
                    self.close(line_no - 1, kind);
                    self.set_top(false);
                }
            },
            Directive::Else => {
                let n = self.stack.len();
                if n > 0 {
                    let top = self.stack[n - 1];
                    if top.self_caused {
                        self.close(line_no - 1, top.kind);
                        self.set_top(false);
                    } else if self.opened_at.is_none() && matches!(top.kind, BranchKind::ElseDead(_)) {
                        self.opened_at = Some(line_no);
                        self.set_top(true);
                    }
                }
            },
            Directive::Endif => {
                let n = self.stack.len();
                if n > 0 {
                    let top = self.stack.pop().unwrap();
                    if top.self_caused {
                        self.close(line_no - 1, top.kind);
                    }
                }
            },
            Directive::Define | Directive::Undef => {
                if self.stack.len() == 0 {
                    match first_ident(rest) {
                        Some(name) => {
                            let ghost before = log_view(self.log@);
                            let v = vstd::slice::slice_to_vec(name);
                            self.log.push((v, matches!(d, Directive::Define)));
                            assert(log_view(self.log@) =~= before.push((name@, d is Define)));
                        },
                        None => {},
                    }
                }
            },
            Directive::Other => {},
        }
    }
}

/// Computes the dead-code regions of `source`, a C or C++ translation unit.
pub fn dead_code_ranges(source: &str) -> (r: Vec<DeadCodeRegion>)
    ensures
        r@ == spec_dead_code_ranges(source@),
{
    let commented = commented_out_define_names(source);
    let chars = chars_of(source);
    let ls = split_lines(chars.as_slice());
    let ghost lv = ls@.map_values(|l: Vec<char>| l@);
    assert(lv =~= lines(source@));
    let ghost cv = names_view(commented@);
    let mut st = Scan { regions: Vec::new(), stack: Vec::new(), opened_at: None, log: Vec::new() };
    assert(st.model().regions =~= Seq::<DeadCodeRegion>::empty());
    assert(st.model().stack =~= Seq::<Frame>::empty());
    assert(st.model().log =~= Seq::<(Seq<char>, bool)>::empty());
    let mut idx: usize = 0;
    while idx < ls.len()
        invariant
            idx <= ls@.len(),
            lv == ls@.map_values(|l: Vec<char>| l@),
            cv == names_view(commented@),
            st.model() == scan_lines(lv, idx as int, cv),
        decreases ls.len() - idx,
    {
        let line_no = idx + 1;
        assert(ls@[idx as int]@ == lv[idx as int]);
        match parse_directive(ls[idx].as_slice()) {
            Some((word, rest)) => {
                let d = directive_of(word);
                st.directive_step(line_no, d, rest, &commented);
            },
            None => {},
        }
        idx = idx + 1;
    }
    let total = ls.len();
    match st.opened_at {
        Some(o) => {
            let reason = match open_reason_exec(&st.stack) {
                Some(r) => r,
                None => DeadCodeReason::IfZero,
            };
            if o < total {
                st.regions.push(DeadCodeRegion { start_line: o + 1, end_line: total, reason });
            }
        },
        None => {},
    }
    st.regions
}

/// The scan invariant after `n` lines: every region lies within lines
/// `2..=n`, regions are in order and disjoint, and an open dead region
/// starts after all of them.
pub open spec fn scan_ok(st: ScanModel, n: int) -> bool {
    &&& forall|k: int|
        0 <= k < st.regions.len() ==> 2 <= #[trigger] st.regions[k].start_line
            <= st.regions[k].end_line <= n
    &&& forall|i: int, j: int|
        0 <= i < j < st.regions.len() ==> #[trigger] st.regions[i].end_line
            < #[trigger] st.regions[j].start_line
    &&& (st.opened_at matches Some(o) ==> {
        &&& 1 <= o <= n
        &&& forall|k: int| 0 <= k < st.regions.len() ==> #[trigger] st.regions[k].end_line < o
    })
}

proof fn lemma_close_ok(st: ScanModel, n: int, kind: BranchKind)
    requires
        scan_ok(st, n),
        0 <= n <= usize::MAX,
    ensures
        scan_ok(spec_close(st, n as usize, kind), n),
        spec_close(st, n as usize, kind).opened_at is None,
{
    let c = spec_close(st, n as usize, kind);
    if let Some(o) = st.opened_at {
        if let Some(r) = kind_reason(kind) {
            if o < n {
                let len = st.regions.len();
                assert(c.regions == st.regions.push(
                    DeadCodeRegion { start_line: (o + 1) as usize, end_line: n as usize, reason: r },
                ));
                assert forall|i: int, j: int| 0 <= i < j < c.regions.len() implies #[trigger] c.regions[i].end_line
                    < #[trigger] c.regions[j].start_line by {
                    if j == len {
                        assert(st.regions[i].end_line < o);
                    }
                }
            }
        }
    }
}

proof fn lemma_step_ok(st: ScanModel, line_no: usize, line: Seq<char>, commented: Seq<Seq<char>>)
    requires
        line_no >= 1,
        scan_ok(st, line_no - 1),
    ensures
        scan_ok(spec_line_step(st, line_no, line, commented), line_no as int),
{
    let n = line_no - 1;
    assert(scan_ok(st, line_no as int));
    assert forall|k: int| 0 <= k < st.regions.len() implies #[trigger] st.regions[k].end_line < line_no by {
        assert(2 <= st.regions[k].start_line <= st.regions[k].end_line <= n);
    }
    if let Some((word, rest)) = spec_parse_directive(line) {
        let d = spec_directive(word);
        match d {
            Directive::Elif => {
                if st.stack.len() > 0 && st.stack.last().self_caused {
                    lemma_close_ok(st, n, st.stack.last().kind);
                    let c = spec_close(st, n as usize, st.stack.last().kind);
                    assert(scan_ok(c, line_no as int));
                }
            },
            Directive::Else => {
                if st.stack.len() > 0 && st.stack.last().self_caused {
                    lemma_close_ok(st, n, st.stack.last().kind);
                    let c = spec_close(st, n as usize, st.stack.last().kind);
                    assert(scan_ok(c, line_no as int));
                }
            },
            Directive::Endif => {
                if st.stack.len() > 0 {
                    let popped = ScanModel { stack: st.stack.drop_last(), ..st };
                    assert(scan_ok(popped, n));
                    lemma_close_ok(popped, n, st.stack.last().kind);
                    let c = spec_close(popped, n as usize, st.stack.last().kind);
                    assert(scan_ok(c, line_no as int));
                }
            },
            _ => {},
        }
    }
}

proof fn lemma_scan_ok(ls: Seq<Seq<char>>, n: int, commented: Seq<Seq<char>>)
    requires
        0 <= n <= ls.len(),
        ls.len() <= usize::MAX,
    ensures
        scan_ok(scan_lines(ls, n, commented), n),
    decreases n,
{
    if n > 0 {
        lemma_scan_ok(ls, n - 1, commented);
        lemma_step_ok(scan_lines(ls, n - 1, commented), n as usize, ls[n - 1], commented);
    }
}

/// Every dead region lies within the file's lines (1-based, inclusive,
/// start before end), and regions come in line order without overlapping.
pub proof fn dead_regions_are_ordered_lines(source: Seq<char>)
    requires
        lines(source).len() <= usize::MAX,
    ensures
        forall|k: int|
            0 <= k < spec_dead_code_ranges(source).len() ==> 1 <= #[trigger] spec_dead_code_ranges(
                source,
            )[k].start_line <= spec_dead_code_ranges(source)[k].end_line <= lines(source).len(),
        forall|i: int, j: int|
            0 <= i < j < spec_dead_code_ranges(source).len() ==> #[trigger] spec_dead_code_ranges(
                source,
            )[i].end_line < #[trigger] spec_dead_code_ranges(source)[j].start_line,
{
    let ls = lines(source);
    let commented = commented_from(ls, 0);
    let st = scan_lines(ls, ls.len() as int, commented);
    lemma_scan_ok(ls, ls.len() as int, commented);
    let r = spec_dead_code_ranges(source);
    if let Some(o) = st.opened_at {
        if o < ls.len() {
            let len = st.regions.len();
            assert forall|i: int, j: int| 0 <= i < j < r.len() implies #[trigger] r[i].end_line
                < #[trigger] r[j].start_line by {
                if j == len {
                    assert(st.regions[i].end_line < o);
                }
            }
        }
    }
}

/// A region one line further down.
pub open spec fn shift_region(r: DeadCodeRegion) -> DeadCodeRegion {
    DeadCodeRegion { start_line: (r.start_line + 1) as usize, end_line: (r.end_line + 1) as usize, reason: r.reason }
}

/// Regions one line further down.
pub open spec fn shift_regions(rs: Seq<DeadCodeRegion>) -> Seq<DeadCodeRegion> {
    rs.map_values(|r: DeadCodeRegion| shift_region(r))
}

/// A scan state one line further down.
pub open spec fn shift_scan(st: ScanModel) -> ScanModel {
    ScanModel {
        regions: shift_regions(st.regions),
        opened_at: match st.opened_at {
            Some(o) => Some((o + 1) as usize),
            None => None,
        },
        ..st
    }
}

proof fn lemma_shift_push(rs: Seq<DeadCodeRegion>, o: usize, end: usize, reason: DeadCodeReason)
    requires
        o + 2 <= usize::MAX,
        end + 1 <= usize::MAX,
    ensures
        shift_regions(spec_push_region(rs, o, end, reason)) == spec_push_region(
            shift_regions(rs),
            (o + 1) as usize,
            (end + 1) as usize,
            reason,
        ),
{
    if o < end {
        let x = DeadCodeRegion { start_line: (o + 1) as usize, end_line: end, reason };
        assert(shift_regions(rs.push(x)) =~= shift_regions(rs).push(shift_region(x)));
    }
}

proof fn lemma_shift_close(st: ScanModel, end: usize, kind: BranchKind)
    requires
        st.opened_at matches Some(o) ==> o + 2 <= usize::MAX,
        end + 1 <= usize::MAX,
    ensures
        spec_close(shift_scan(st), (end + 1) as usize, kind) == shift_scan(spec_close(st, end, kind)),
{
    if let Some(o) = st.opened_at {
        if let Some(r) = kind_reason(kind) {
            lemma_shift_push(st.regions, o, end, r);
        }
    }
}

/// One line's step commutes with moving the scan one line down.
proof fn lemma_shift_step(st: ScanModel, k: usize, line: Seq<char>, commented: Seq<Seq<char>>)
    requires
        1 <= k,
        k + 2 <= usize::MAX,
        st.opened_at matches Some(o) ==> o < k,
    ensures
        spec_line_step(shift_scan(st), (k + 1) as usize, line, commented) == shift_scan(
            spec_line_step(st, k, line, commented),
        ),
{
    let sh = shift_scan(st);
    match spec_parse_directive(line) {
        None => {},
        Some((word, rest)) => {
            let d = spec_directive(word);
            let end = (k - 1) as usize;
            assert(((k + 1) as usize - 1) as usize == (end + 1) as usize);
            match d {
                Directive::Elif | Directive::Else => {
                    lemma_shift_close(st, end, st.stack.last().kind);
                },
                Directive::Endif => {
                    if st.stack.len() > 0 {
                        let popped = ScanModel { stack: st.stack.drop_last(), ..st };
                        lemma_shift_close(popped, end, st.stack.last().kind);
                        assert(shift_scan(popped) == ScanModel { stack: sh.stack.drop_last(), ..sh });
                    }
                },
                _ => {},
            }
        },
    }
}

/// A scan's open region was opened on a line already scanned.
proof fn lemma_scan_opened_bound(ls: Seq<Seq<char>>, n: int, commented: Seq<Seq<char>>)
    requires
        0 <= n <= ls.len(),
        ls.len() < usize::MAX,
    ensures
        scan_lines(ls, n, commented).opened_at matches Some(o) ==> 1 <= o <= n,
    decreases n,
{
    if n > 0 {
        lemma_scan_opened_bound(ls, n - 1, commented);
        let st = scan_lines(ls, n - 1, commented);
        let line = ls[n - 1];
        match spec_parse_directive(line) {
            None => {},
            Some((word, rest)) => {
                let d = spec_directive(word);
                match d {
                    Directive::Elif | Directive::Else | Directive::Endif => {
                        if st.stack.len() > 0 {
                            let popped = ScanModel { stack: st.stack.drop_last(), ..st };
                            assert(spec_close(st, (n - 1) as usize, st.stack.last().kind).opened_at is None || spec_close(st, (n - 1) as usize, st.stack.last().kind).opened_at == st.opened_at);
                            assert(spec_close(popped, (n - 1) as usize, st.stack.last().kind).opened_at is None || spec_close(popped, (n - 1) as usize, st.stack.last().kind).opened_at == st.opened_at);
                        }
                    },
                    _ => {},
                }
            },
        }
    }
}

/// Scanning `[l0] + ls` through line `n + 1` is scanning `ls` through line
/// `n`, one line further down, when `l0` is no directive.
proof fn lemma_scan_shift(l0: Seq<char>, ls: Seq<Seq<char>>, n: int, commented: Seq<Seq<char>>)
    requires
        spec_parse_directive(l0) is None,
        0 <= n <= ls.len(),
        ls.len() + 3 <= usize::MAX,
    ensures
        scan_lines(seq![l0] + ls, n + 1, commented) == shift_scan(scan_lines(ls, n, commented)),
    decreases n,
{
    let ls2 = seq![l0] + ls;
    if n == 0 {
        assert(ls2[0] == l0);
        assert(shift_regions(Seq::<DeadCodeRegion>::empty()) =~= Seq::<DeadCodeRegion>::empty());
    } else {
        lemma_scan_shift(l0, ls, n - 1, commented);
        lemma_scan_opened_bound(ls, n - 1, commented);
        assert(ls2[n] == ls[n - 1]);
        lemma_shift_step(scan_lines(ls, n - 1, commented), n as usize, ls[n - 1], commented);
        assert(((n as usize) + 1) as usize == (n + 1) as usize);
    }
}

proof fn lemma_commented_from_shift(l0: Seq<char>, ls: Seq<Seq<char>>, i: int)
    requires
        0 <= i <= ls.len(),
    ensures
        commented_from(seq![l0] + ls, i + 1) == commented_from(ls, i),
    decreases ls.len() - i,
{
    if i < ls.len() {
        lemma_commented_from_shift(l0, ls, i + 1);
        assert((seq![l0] + ls)[i + 1] == ls[i]);
    }
}

/// Putting an ordinary line in front of a file (one that is no directive
/// and holds no commented-out `#define`) moves every dead region one line
/// down.
pub proof fn leading_line_shifts_dead_regions(l0: Seq<char>, s: Seq<char>)
    requires
        forall|k: int| 0 <= k < l0.len() ==> #[trigger] l0[k] != '\n',
        l0.len() == 0 || l0.last() != '\r',
        spec_parse_directive(l0) is None,
        commented_define(l0) is None,
        s.len() + 3 <= usize::MAX,
    ensures
        spec_dead_code_ranges(l0.push('\n') + s) == shift_regions(spec_dead_code_ranges(s)),
{
    let ls = lines(s);
    crate::text::lemma_lines_leading(l0, s);
    crate::text::lemma_lines_len_bound(s, 0);
    let ls2 = seq![l0] + ls;
    assert(lines(l0.push('\n') + s) == ls2);
    lemma_commented_from_shift(l0, ls, 0);
    assert(ls2[0] == l0);
    assert(commented_from(ls2, 0) == commented_from(ls, 0));
    let c = commented_from(ls, 0);
    lemma_scan_shift(l0, ls, ls.len() as int, c);
    lemma_scan_opened_bound(ls, ls.len() as int, c);
    let st = scan_lines(ls, ls.len() as int, c);
    assert(ls2.len() == ls.len() + 1);
    assert(scan_lines(ls2, ls2.len() as int, c) == shift_scan(st));
    if let Some(o) = st.opened_at {
        lemma_shift_push(
            st.regions,
            o,
            ls.len() as usize,
            match open_reason(st.stack, st.stack.len() as int) {
                Some(r) => r,
                None => DeadCodeReason::IfZero,
            },
        );
    }
}

/// `a` immediately followed by `b` nowhere in `s[i..m]`.
pub open spec fn no_pair_in(s: Seq<char>, a: char, b: char, i: int, m: int) -> bool {
    forall|j: int| i <= j < m && j + 1 < s.len() ==> !(#[trigger] s[j] == a && s[j + 1] == b)
}

proof fn lemma_find_pair_skip(s: Seq<char>, a: char, b: char, i: int, m: int)
    requires
        0 <= i <= m,
        no_pair_in(s, a, b, i, m),
    ensures
        find_pair(s, a, b, i) == if m + 1 >= s.len() { s.len() as int } else { find_pair(s, a, b, m) },
    decreases m - i,
{
    if i < m && i + 1 < s.len() {
        assert(!(s[i] == a && s[i + 1] == b));
        lemma_find_pair_skip(s, a, b, i + 1, m);
    }
}

proof fn lemma_find_pair_at_least(s: Seq<char>, a: char, b: char, i: int)
    requires
        0 <= i,
    ensures
        find_pair(s, a, b, i) >= i || find_pair(s, a, b, i) == s.len(),
    decreases s.len() - i,
{
    if i + 1 < s.len() && !(s[i] == a && s[i + 1] == b) {
        lemma_find_pair_at_least(s, a, b, i + 1);
    }
}

/// `cond` holds no comment opener and does not end with `/`.
pub open spec fn comment_free(cond: Seq<char>) -> bool {
    &&& no_pair_in(cond, '/', '/', 0, cond.len() as int)
    &&& no_pair_in(cond, '/', '*', 0, cond.len() as int)
    &&& (cond.len() == 0 || cond.last() != '/')
}

proof fn lemma_strip_at_opener(cond: Seq<char>, opener: char, x: Seq<char>)
    requires
        comment_free(cond),
        opener == '/' || opener == '*',
    ensures
        spec_strip_trailing_comment(cond + seq!['/', opener] + x) == cond,
        spec_strip_trailing_comment(cond) == cond,
{
    let s = cond + seq!['/', opener] + x;
    let m = cond.len() as int;
    assert(s[m] == '/' && s[m + 1] == opener);
    assert forall|j: int| 0 <= j < m && j + 1 < s.len() implies !(#[trigger] s[j] == '/' && s[j + 1] == '/') by {
        assert(s[j] == cond[j]);
        if j + 1 < m {
            assert(s[j + 1] == cond[j + 1]);
        } else {
            assert(cond[j] == cond.last());
        }
    }
    assert forall|j: int| 0 <= j < m && j + 1 < s.len() implies !(#[trigger] s[j] == '/' && s[j + 1] == '*') by {
        assert(s[j] == cond[j]);
        if j + 1 < m {
            assert(s[j + 1] == cond[j + 1]);
        } else {
            assert(cond[j] == cond.last());
        }
    }
    lemma_find_pair_skip(s, '/', '/', 0, m);
    lemma_find_pair_skip(s, '/', '*', 0, m);
    lemma_find_pair_at_least(s, '/', '/', m);
    lemma_find_pair_at_least(s, '/', '*', m);
    assert(s.take(m) =~= cond);
    lemma_find_pair_skip(cond, '/', '/', 0, m);
    lemma_find_pair_skip(cond, '/', '*', 0, m);
    assert(cond.take(m) =~= cond);
}

/// An `#if` condition is read up to its first `//` or `/*`: a trailing
/// comment of either kind after a comment-free condition leaves its
/// classification unchanged, so `#if 0 /* ... */` opens an `IfZero` region
/// exactly like `#if 0`.
pub proof fn if_condition_ignores_trailing_comment(
    cond: Seq<char>,
    comment: Seq<char>,
    log: Seq<(Seq<char>, bool)>,
    commented: Seq<Seq<char>>,
)
    requires
        comment_free(cond),
    ensures
        spec_classify_conditional(Directive::If, cond + seq!['/', '*'] + comment, log, commented)
            == spec_classify_conditional(Directive::If, cond, log, commented),
        spec_classify_conditional(Directive::If, cond + seq!['/', '/'] + comment, log, commented)
            == spec_classify_conditional(Directive::If, cond, log, commented),
{
    lemma_strip_at_opener(cond, '*', comment);
    lemma_strip_at_opener(cond, '/', comment);
}

} // verus!
