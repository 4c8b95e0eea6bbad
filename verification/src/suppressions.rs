//! Inline `tools:suppress TOOL:RULE` single-line suppression comments.
//!
//! Each suppression is anchored to its comment line and to the next
//! non-blank line after it (the statement being suppressed); mapping that
//! anchor to a tool's own notion of "the following statement" is left to
//! the tool.

use vstd::prelude::*;
use crate::registry::SlocMode;
use crate::regions::{marker_text, spec_marker_text, strings_view};
use crate::text::{
    chars_eq, chars_eq_ignore_ascii_case, chars_of, eq_ignore_ascii_case, find_char, first_index,
    is_whitespace, is_ws, lemma_first_index, lines, split_lines, str_eq, string_from_chars,
    strip_prefix, strip_prefix_slice, trim, trim_slice,
};

verus! {

/// The view of an optional string.
pub open spec fn opt_str_view(s: Option<String>) -> Option<Seq<char>> {
    match s {
        Some(v) => Some(v@),
        None => None,
    }
}

/// A single-line `tools:suppress` comment.
#[derive(Debug, Clone, PartialEq, Eq)]
pub struct Suppression {
    /// 1-indexed line number of the `tools:suppress` comment itself.
    pub comment_line: usize,
    /// 1-indexed line number of the next non-blank line after the comment —
    /// the statement being suppressed. `None` if the comment is the last
    /// non-blank content in the file.
    pub target_line: Option<usize>,
    /// Tool name, e.g. `"knots"`, `"sqc"`, `"funky"`.
    pub tool: String,
    /// Rule or metric ID within that tool, e.g. `"cognitive"`, `"INT30-C"`.
    pub rule: String,
    /// Truncated SHA-256 tamper-detection hash — required by sqc, unused by
    /// other tools.
    pub hash: Option<String>,
    /// Free-text justification, if present.
    pub justification: Option<String>,
}

/// The mathematical content of a [`Suppression`].
#[verifier::ext_equal]
pub struct SuppressionModel {
    pub comment_line: int,
    pub target_line: Option<int>,
    pub tool: Seq<char>,
    pub rule: Seq<char>,
    pub hash: Option<Seq<char>>,
    pub justification: Option<Seq<char>>,
}

impl View for Suppression {
    type V = SuppressionModel;

    open spec fn view(&self) -> SuppressionModel {
        SuppressionModel {
            comment_line: self.comment_line as int,
            target_line: match self.target_line {
                Some(t) => Some(t as int),
                None => None,
            },
            tool: self.tool@,
            rule: self.rule@,
            hash: opt_str_view(self.hash),
            justification: opt_str_view(self.justification),
        }
    }
}

impl Suppression {
    /// Whether this suppression covers `tool`'s `rule`. Tool names match
    /// case-insensitively; rule IDs are case-sensitive since IDs like
    /// `INT30-C` are case-significant.
    pub fn applies_to(&self, tool: &str, rule: &str) -> (r: bool)
        ensures
            r == (eq_ignore_ascii_case(self.tool@, tool@) && self.rule@ == rule@),
    {
        let a = chars_of(self.tool.as_str());
        let b = chars_of(tool);
        chars_eq_ignore_ascii_case(a.as_slice(), b.as_slice()) && str_eq(self.rule.as_str(), rule)
    }
}

/// The whitespace-separated tokens of `s[i..]`, where double-quoted spans
/// count as part of one token, continuing a token `cur` (with `quoted`
/// telling whether a quote is open).
pub open spec fn tokens_from(s: Seq<char>, i: int, cur: Seq<char>, quoted: bool) -> Seq<Seq<char>>
    decreases s.len() - i,
{
    if i < 0 || i >= s.len() {
        if cur.len() > 0 {
            seq![cur]
        } else {
            Seq::empty()
        }
    } else if s[i] == '"' {
        tokens_from(s, i + 1, cur.push(s[i]), !quoted)
    } else if is_ws(s[i]) && !quoted {
        if cur.len() > 0 {
            seq![cur] + tokens_from(s, i + 1, Seq::empty(), quoted)
        } else {
            tokens_from(s, i + 1, Seq::empty(), quoted)
        }
    } else {
        tokens_from(s, i + 1, cur.push(s[i]), quoted)
    }
}

/// The tokens of `s`: split on whitespace, with double-quoted spans kept
/// inside one token.
pub open spec fn spec_tokenize(s: Seq<char>) -> Seq<Seq<char>> {
    tokens_from(s, 0, Seq::empty(), false)
}

/// Splits `s` on whitespace, treating double-quoted spans (e.g.
/// `JUSTIFICATION:"legacy, JIRA-123"`) as a single token.
fn tokenize(s: &[char]) -> (r: Vec<Vec<char>>)
    ensures
        r@.map_values(|t: Vec<char>| t@) == spec_tokenize(s@),
{
    let mut tokens: Vec<Vec<char>> = Vec::new();
    let mut current: Vec<char> = Vec::new();
    let mut in_quotes = false;
    let mut i: usize = 0;
    while i < s.len()
        invariant
            i <= s@.len(),
            tokens@.map_values(|t: Vec<char>| t@) + tokens_from(s@, i as int, current@, in_quotes)
                == spec_tokenize(s@),
        decreases s.len() - i,
    {
        let c = s[i];
        let ghost before = tokens@.map_values(|t: Vec<char>| t@);
        if c == '"' {
            in_quotes = !in_quotes;
            current.push(c);
        } else if is_whitespace(c) && !in_quotes {
            if current.len() > 0 {
                let ghost cur = current@;
                let done = current;
                current = Vec::new();
                tokens.push(done);
                assert(tokens@.map_values(|t: Vec<char>| t@) =~= before.push(cur));
                assert(before.push(cur) + tokens_from(s@, i + 1, Seq::empty(), in_quotes) =~= before + (
                seq![cur] + tokens_from(s@, i + 1, Seq::empty(), in_quotes)));
            } else {
                assert(current@ =~= Seq::<char>::empty());
            }
        } else {
            current.push(c);
        }
        i = i + 1;
    }
    if current.len() > 0 {
        let ghost before = tokens@.map_values(|t: Vec<char>| t@);
        let ghost cur = current@;
        tokens.push(current);
        assert(tokens@.map_values(|t: Vec<char>| t@) =~= before + seq![cur]);
    } else {
        assert(tokens@.map_values(|t: Vec<char>| t@) =~= tokens@.map_values(|t: Vec<char>| t@) + Seq::<
            Seq<char>,
        >::empty());
    }
    tokens
}

/// Index of the first character at or after `i` that is not `c`.
pub open spec fn first_not(s: Seq<char>, c: char, i: int) -> int
    decreases s.len() - i,
{
    if i < 0 || i >= s.len() {
        s.len() as int
    } else if s[i] == c {
        first_not(s, c, i + 1)
    } else {
        i
    }
}

/// One past the last character before `j` that is not `c`.
pub open spec fn last_not(s: Seq<char>, c: char, j: int) -> int
    decreases j,
{
    if j <= 0 || j > s.len() {
        0
    } else if s[j - 1] == c {
        last_not(s, c, j - 1)
    } else {
        j
    }
}

/// `str::trim_matches('"')`: `s` without its leading and trailing quotes.
pub open spec fn trim_quotes(s: Seq<char>) -> Seq<char> {
    let a = first_not(s, '"', 0);
    let b = last_not(s, '"', s.len() as int);
    if a < b {
        s.subrange(a, b)
    } else {
        Seq::empty()
    }
}

/// `trim_quotes`, computed.
fn trim_quotes_slice(s: &[char]) -> (r: &[char])
    ensures
        r@ == trim_quotes(s@),
{
    let mut a: usize = 0;
    while a < s.len() && s[a] == '"'
        invariant
            a <= s@.len(),
            first_not(s@, '"', 0) == first_not(s@, '"', a as int),
        decreases s.len() - a,
    {
        a = a + 1;
    }
    let mut b: usize = s.len();
    while b > 0 && s[b - 1] == '"'
        invariant
            b <= s@.len(),
            last_not(s@, '"', s@.len() as int) == last_not(s@, '"', b as int),
        decreases b,
    {
        b = b - 1;
    }
    if a < b {
        &s[a..b]
    } else {
        &s[0..0]
    }
}

/// The parsed content of a `tools:suppress` marker.
pub struct ParsedModel {
    pub tool: Seq<char>,
    pub rule: Seq<char>,
    pub hash: Option<Seq<char>>,
    pub justification: Option<Seq<char>>,
}

/// The `HASH:` and `JUSTIFICATION:` values among `toks[j..]`, the last
/// occurrence of each winning, starting from `hash` and `just`.
pub open spec fn options_from(
    toks: Seq<Seq<char>>,
    j: int,
    hash: Option<Seq<char>>,
    just: Option<Seq<char>>,
) -> (Option<Seq<char>>, Option<Seq<char>>)
    decreases toks.len() - j,
{
    if j < 0 || j >= toks.len() {
        (hash, just)
    } else {
        match strip_prefix(toks[j], "HASH:"@) {
            Some(v) => options_from(toks, j + 1, Some(v), just),
            None => match strip_prefix(toks[j], "JUSTIFICATION:"@) {
                Some(v) => options_from(toks, j + 1, hash, Some(trim_quotes(v))),
                None => options_from(toks, j + 1, hash, just),
            },
        }
    }
}

/// Comment text as a `tools:suppress TOOL:RULE [HASH:...]
/// [JUSTIFICATION:"..."]` marker.
pub open spec fn spec_parse_suppress(text: Seq<char>) -> Option<ParsedModel> {
    match strip_prefix(text, "tools:suppress "@) {
        None => None,
        Some(rest) => {
            let toks = spec_tokenize(trim(rest));
            if toks.len() == 0 {
                None
            } else {
                let head = toks[0];
                let k = first_index(head, ':', 0);
                if k >= head.len() {
                    None
                } else {
                    let tool = head.subrange(0, k);
                    let rule = head.subrange(k + 1, head.len() as int);
                    if tool.len() == 0 || rule.len() == 0 {
                        None
                    } else {
                        let (hash, just) = options_from(toks, 1, None, None);
                        Some(ParsedModel { tool, rule, hash, justification: just })
                    }
                }
            }
        },
    }
}

struct ParsedSuppress {
    tool: String,
    rule: String,
    hash: Option<String>,
    justification: Option<String>,
}

/// Parses comment text as a `tools:suppress TOOL:RULE [HASH:...]
/// [JUSTIFICATION:"..."]` marker. Returns `None` if the text isn't a
/// recognized marker.
fn parse_suppress(text: &[char]) -> (r: Option<ParsedSuppress>)
    ensures
        match r {
            Some(p) => spec_parse_suppress(text@) == Some(
                ParsedModel {
                    tool: p.tool@,
                    rule: p.rule@,
                    hash: opt_str_view(p.hash),
                    justification: opt_str_view(p.justification),
                },
            ),
            None => spec_parse_suppress(text@) is None,
        },
{
    let prefix = chars_of("tools:suppress ");
    let rest = match strip_prefix_slice(text, prefix.as_slice()) {
        Some(rest) => rest,
        None => {
            return None;
        },
    };
    let tokens = tokenize(trim_slice(rest));
    let ghost toks = tokens@.map_values(|t: Vec<char>| t@);
    if tokens.len() == 0 {
        return None;
    }
    let head = tokens[0].as_slice();
    assert(head@ == toks[0]);
    let k = find_char(head, ':', 0);
    if k >= head.len() {
        return None;
    }
    let tool = &head[0..k];
    let rule = &head[k + 1..head.len()];
    if tool.len() == 0 || rule.len() == 0 {
        return None;
    }
    let hash_p = chars_of("HASH:");
    let just_p = chars_of("JUSTIFICATION:");
    let mut hash: Option<String> = None;
    let mut justification: Option<String> = None;
    let mut j: usize = 1;
    while j < tokens.len()
        invariant
            1 <= j <= tokens@.len(),
            toks == tokens@.map_values(|t: Vec<char>| t@),
            hash_p@ == "HASH:"@,
            just_p@ == "JUSTIFICATION:"@,
            options_from(toks, j as int, opt_str_view(hash), opt_str_view(justification))
                == options_from(toks, 1, None, None),
        decreases tokens.len() - j,
    {
        let tok = tokens[j].as_slice();
        assert(tok@ == toks[j as int]);
        match strip_prefix_slice(tok, hash_p.as_slice()) {
            Some(v) => {
                hash = Some(string_from_chars(v));
            },
            None => match strip_prefix_slice(tok, just_p.as_slice()) {
                Some(v) => {
                    justification = Some(string_from_chars(trim_quotes_slice(v)));
                },
                None => {},
            },
        }
        j = j + 1;
    }
    Some(
        ParsedSuppress {
            tool: string_from_chars(tool),
            rule: string_from_chars(rule),
            hash,
            justification,
        },
    )
}

/// The first index at or after `j` of a line with non-whitespace content.
pub open spec fn next_nonblank(ls: Seq<Seq<char>>, j: int) -> Option<int>
    decreases ls.len() - j,
{
    if j < 0 || j >= ls.len() {
        None
    } else if trim(ls[j]).len() > 0 {
        Some(j)
    } else {
        next_nonblank(ls, j + 1)
    }
}

/// The suppressions on lines `idx..` of `ls`.
pub open spec fn suppressions_from(ls: Seq<Seq<char>>, mode: SlocMode, idx: int) -> Seq<
    SuppressionModel,
>
    decreases ls.len() - idx,
{
    if idx < 0 || idx >= ls.len() {
        Seq::empty()
    } else {
        let rest = suppressions_from(ls, mode, idx + 1);
        match spec_marker_text(ls[idx], mode) {
            Some(text) => match spec_parse_suppress(text) {
                Some(p) => seq![
                    SuppressionModel {
                        comment_line: idx + 1,
                        target_line: match next_nonblank(ls, idx + 1) {
                            Some(k) => Some(k + 1),
                            None => None,
                        },
                        tool: p.tool,
                        rule: p.rule,
                        hash: p.hash,
                        justification: p.justification,
                    },
                ] + rest,
                None => rest,
            },
            None => rest,
        }
    }
}

/// The `tools:suppress` comments of `s` under `mode`'s comment syntax.
pub open spec fn spec_suppressions(s: Seq<char>, mode: SlocMode) -> Seq<SuppressionModel> {
    suppressions_from(lines(s), mode, 0)
}

/// The first line at or after `j` with non-whitespace content.
fn find_nonblank(ls: &Vec<Vec<char>>, j: usize) -> (r: Option<usize>)
    requires
        j <= ls@.len(),
    ensures
        match r {
            Some(k) => next_nonblank(ls@.map_values(|l: Vec<char>| l@), j as int) == Some(k as int),
            None => next_nonblank(ls@.map_values(|l: Vec<char>| l@), j as int) is None,
        },
        r matches Some(k) ==> j <= k < ls@.len(),
{
    let ghost lv = ls@.map_values(|l: Vec<char>| l@);
    let mut k = j;
    while k < ls.len()
        invariant
            j <= k <= ls@.len(),
            lv == ls@.map_values(|l: Vec<char>| l@),
            next_nonblank(lv, j as int) == next_nonblank(lv, k as int),
        decreases ls.len() - k,
    {
        assert(ls@[k as int]@ == lv[k as int]);
        if trim_slice(ls[k].as_slice()).len() > 0 {
            return Some(k);
        }
        k = k + 1;
    }
    None
}

/// Scans `source` for `tools:suppress TOOL:RULE` comments, using the comment
/// syntax implied by `sloc_mode`.
pub fn suppressions(source: &str, sloc_mode: SlocMode) -> (r: Vec<Suppression>)
    ensures
        r@.map_values(|x: Suppression| x@) == spec_suppressions(source@, sloc_mode),
{
    let chars = chars_of(source);
    let ls = split_lines(chars.as_slice());
    let ghost lv = ls@.map_values(|l: Vec<char>| l@);
    assert(lv =~= lines(source@));
    let mut out: Vec<Suppression> = Vec::new();
    let mut idx: usize = 0;
    while idx < ls.len()
        invariant
            idx <= ls@.len(),
            lv == ls@.map_values(|l: Vec<char>| l@),
            lv == lines(source@),
            out@.map_values(|x: Suppression| x@) + suppressions_from(lv, sloc_mode, idx as int)
                == spec_suppressions(source@, sloc_mode),
        decreases ls.len() - idx,
    {
        let ghost before = out@.map_values(|x: Suppression| x@);
        let line = ls[idx].as_slice();
        assert(line@ == lv[idx as int]);
        match marker_text(line, sloc_mode) {
            Some(text) => match parse_suppress(text) {
                Some(parsed) => {
                    let target_line = match find_nonblank(&ls, idx + 1) {
                        Some(k) => Some(k + 1),
                        None => None,
                    };
                    let s = Suppression {
                        comment_line: idx + 1,
                        target_line,
                        tool: parsed.tool,
                        rule: parsed.rule,
                        hash: parsed.hash,
                        justification: parsed.justification,
                    };
                    out.push(s);
                    assert(out@.map_values(|x: Suppression| x@) =~= before.push(s@));
                    assert(before.push(s@) + suppressions_from(lv, sloc_mode, idx + 1) =~= before + (
                    seq![s@] + suppressions_from(lv, sloc_mode, idx + 1)));
                },
                None => {},
            },
            None => {},
        }
        idx = idx + 1;
    }
    out
}

proof fn lemma_next_nonblank_bounds(ls: Seq<Seq<char>>, j: int)
    requires
        0 <= j,
    ensures
        next_nonblank(ls, j) matches Some(k) ==> j <= k < ls.len(),
    decreases ls.len() - j,
{
    if j < ls.len() && trim(ls[j]).len() == 0 {
        lemma_next_nonblank_bounds(ls, j + 1);
    }
}

/// The suppressions of lines `idx..` sit on those lines, in line order,
/// each targeting a later line of the file.
proof fn lemma_suppressions_from_ordered(ls: Seq<Seq<char>>, mode: SlocMode, idx: int)
    requires
        0 <= idx,
    ensures
        forall|k: int|
            0 <= k < suppressions_from(ls, mode, idx).len() ==> {
                let x = #[trigger] suppressions_from(ls, mode, idx)[k];
                &&& idx + 1 <= x.comment_line <= ls.len()
                &&& x.target_line matches Some(t) ==> x.comment_line < t <= ls.len()
            },
        forall|a: int, b: int|
            0 <= a < b < suppressions_from(ls, mode, idx).len() ==> (#[trigger] suppressions_from(ls, mode, idx)[a]).comment_line
                < (#[trigger] suppressions_from(ls, mode, idx)[b]).comment_line,
    decreases ls.len() - idx,
{
    if idx < ls.len() {
        lemma_suppressions_from_ordered(ls, mode, idx + 1);
        lemma_next_nonblank_bounds(ls, idx + 1);
        let rest = suppressions_from(ls, mode, idx + 1);
        let r = suppressions_from(ls, mode, idx);
        if r.len() == rest.len() + 1 {
            assert forall|k: int| 0 < k < r.len() implies r[k] == rest[k - 1] by {}
        } else {
            assert(r == rest);
        }
    }
}

/// Every suppression sits on a line of the file, and names a target line
/// after it (when it has one) that is also in the file; suppressions come
/// in line order.
pub proof fn suppressions_are_ordered(source: Seq<char>, mode: SlocMode)
    ensures
        forall|k: int|
            0 <= k < spec_suppressions(source, mode).len() ==> {
                let x = #[trigger] spec_suppressions(source, mode)[k];
                &&& 1 <= x.comment_line <= lines(source).len()
                &&& x.target_line matches Some(t) ==> x.comment_line < t <= lines(source).len()
            },
        forall|a: int, b: int|
            0 <= a < b < spec_suppressions(source, mode).len() ==> (#[trigger] spec_suppressions(source, mode)[a]).comment_line
                < (#[trigger] spec_suppressions(source, mode)[b]).comment_line,
{
    lemma_suppressions_from_ordered(lines(source), mode, 0);
}

} // verus!
