//! Dead-code region detection for Swift's `#if`/`#elseif`/`#else`/`#endif`
//! conditional compilation, on the syntax tree.
//!
//! tree-sitter-swift splices a `directive` node for each `#if`, `#elseif`,
//! `#else` and `#endif` line into the surrounding rule as an ordinary
//! sibling of the guarded content, so chains are matched up among
//! siblings (tracking the nesting of inner chains). Swift has no
//! `#define`; the one locally provable condition is one built purely from
//! `true`/`false`, `!`, `&&`, `||` and parentheses. Anything else
//! (`os(...)`, a custom flag, a literal mixed with a flag) is left
//! unclassified.

use vstd::prelude::*;
use crate::grammar::{Grammar, is_parse_of, parse_bytes, parse_succeeds};
use crate::syntax::{SyntaxTree, TreeModel, lemma_child_nested};
use crate::text::{chars_eq, chars_of};

verus! {

/// A Swift preprocessor-dead region: a `#if`/`#elseif`/`#else` branch whose
/// condition is a compile-time-constant `false`.
#[derive(Debug, Clone, Copy, PartialEq, Eq, Structural)]
pub struct SwiftDeadCodeRegion {
    /// 1-based, inclusive first line of the dead region.
    pub start_line: usize,
    /// 1-based, inclusive last line of the dead region.
    pub end_line: usize,
}

/// A token of a directive's condition.
#[derive(Clone, Copy, PartialEq, Eq, Structural, Debug)]
pub enum Tok {
    True,
    False,
    Not,
    And,
    Or,
    LParen,
    RParen,
    /// Anything else (`os(...)`, a flag, `.`, ...): it makes the whole
    /// condition unclassifiable.
    Other,
}

/// An `||`-expression from `pos`: its value and the position after it.
pub open spec fn eval_or(toks: Seq<Tok>, pos: int) -> Option<(bool, int)>
    decreases toks.len() - pos, 4int,
{
    match eval_and(toks, pos) {
        Some((v, p)) => if pos < p <= toks.len() {
            or_rest(toks, p, v)
        } else {
            None
        },
        None => None,
    }
}

/// The `|| operand` continuations from `pos`, folded into `acc`.
pub open spec fn or_rest(toks: Seq<Tok>, pos: int, acc: bool) -> Option<(bool, int)>
    decreases toks.len() - pos, 5int,
{
    if 0 <= pos < toks.len() && toks[pos] == Tok::Or {
        match eval_and(toks, pos + 1) {
            Some((v, p)) => if pos + 1 < p <= toks.len() {
                or_rest(toks, p, v || acc)
            } else {
                None
            },
            None => None,
        }
    } else {
        Some((acc, pos))
    }
}

/// An `&&`-expression from `pos`.
pub open spec fn eval_and(toks: Seq<Tok>, pos: int) -> Option<(bool, int)>
    decreases toks.len() - pos, 3int,
{
    match eval_unary(toks, pos) {
        Some((v, p)) => if pos < p <= toks.len() {
            and_rest(toks, p, v)
        } else {
            None
        },
        None => None,
    }
}

/// The `&& operand` continuations from `pos`, folded into `acc`.
pub open spec fn and_rest(toks: Seq<Tok>, pos: int, acc: bool) -> Option<(bool, int)>
    decreases toks.len() - pos, 5int,
{
    if 0 <= pos < toks.len() && toks[pos] == Tok::And {
        match eval_unary(toks, pos + 1) {
            Some((v, p)) => if pos + 1 < p <= toks.len() {
                and_rest(toks, p, v && acc)
            } else {
                None
            },
            None => None,
        }
    } else {
        Some((acc, pos))
    }
}

/// A `!`-prefixed operand from `pos`.
pub open spec fn eval_unary(toks: Seq<Tok>, pos: int) -> Option<(bool, int)>
    decreases toks.len() - pos, 2int,
{
    if 0 <= pos < toks.len() && toks[pos] == Tok::Not {
        match eval_unary(toks, pos + 1) {
            Some((v, p)) => Some((!v, p)),
            None => None,
        }
    } else {
        eval_primary(toks, pos)
    }
}

/// A literal or parenthesized expression from `pos`.
pub open spec fn eval_primary(toks: Seq<Tok>, pos: int) -> Option<(bool, int)>
    decreases toks.len() - pos, 1int,
{
    if pos < 0 || pos >= toks.len() {
        None
    } else if toks[pos] == Tok::True {
        Some((true, pos + 1))
    } else if toks[pos] == Tok::False {
        Some((false, pos + 1))
    } else if toks[pos] == Tok::LParen {
        match eval_or(toks, pos + 1) {
            Some((v, p)) => if 0 <= p < toks.len() && toks[p] == Tok::RParen {
                Some((v, p + 1))
            } else {
                None
            },
            None => None,
        }
    } else {
        None
    }
}

/// The value of a condition made only of literals and connectives (`!`
/// binds tightest, then `&&`, then `||`), when all of it parses as one
/// expression.
pub open spec fn spec_classify_constant_condition(toks: Seq<Tok>) -> Option<bool> {
    match eval_or(toks, 0) {
        Some((v, p)) => if p == toks.len() {
            Some(v)
        } else {
            None
        },
        None => None,
    }
}

/// Each parse step consumes what it parses: a successful `||`-expression
/// ends after its start and within the tokens.
proof fn lemma_or_bounds(toks: Seq<Tok>, pos: int)
    requires
        0 <= pos,
    ensures
        eval_or(toks, pos) matches Some((v, p)) ==> pos < p <= toks.len(),
    decreases toks.len() - pos, 4int,
{
    lemma_and_bounds(toks, pos);
    if let Some((v, p)) = eval_and(toks, pos) {
        if pos < p <= toks.len() {
            lemma_or_rest_bounds(toks, p, v);
        }
    }
}

proof fn lemma_or_rest_bounds(toks: Seq<Tok>, pos: int, acc: bool)
    requires
        0 <= pos <= toks.len(),
    ensures
        or_rest(toks, pos, acc) matches Some((v, p)) ==> pos <= p <= toks.len(),
    decreases toks.len() - pos, 5int,
{
    if 0 <= pos < toks.len() && toks[pos] == Tok::Or {
        lemma_and_bounds(toks, pos + 1);
        if let Some((v, p)) = eval_and(toks, pos + 1) {
            if pos + 1 < p <= toks.len() {
                lemma_or_rest_bounds(toks, p, v || acc);
            }
        }
    }
}

proof fn lemma_and_bounds(toks: Seq<Tok>, pos: int)
    requires
        0 <= pos,
    ensures
        eval_and(toks, pos) matches Some((v, p)) ==> pos < p <= toks.len(),
    decreases toks.len() - pos, 3int,
{
    lemma_unary_bounds(toks, pos);
    if let Some((v, p)) = eval_unary(toks, pos) {
        if pos < p <= toks.len() {
            lemma_and_rest_bounds(toks, p, v);
        }
    }
}

proof fn lemma_and_rest_bounds(toks: Seq<Tok>, pos: int, acc: bool)
    requires
        0 <= pos <= toks.len(),
    ensures
        and_rest(toks, pos, acc) matches Some((v, p)) ==> pos <= p <= toks.len(),
    decreases toks.len() - pos, 5int,
{
    if 0 <= pos < toks.len() && toks[pos] == Tok::And {
        lemma_unary_bounds(toks, pos + 1);
        if let Some((v, p)) = eval_unary(toks, pos + 1) {
            if pos + 1 < p <= toks.len() {
                lemma_and_rest_bounds(toks, p, v && acc);
            }
        }
    }
}

proof fn lemma_unary_bounds(toks: Seq<Tok>, pos: int)
    requires
        0 <= pos,
    ensures
        eval_unary(toks, pos) matches Some((v, p)) ==> pos < p <= toks.len(),
    decreases toks.len() - pos, 2int,
{
    if 0 <= pos < toks.len() && toks[pos] == Tok::Not {
        lemma_unary_bounds(toks, pos + 1);
    } else {
        lemma_primary_bounds(toks, pos);
    }
}

proof fn lemma_primary_bounds(toks: Seq<Tok>, pos: int)
    requires
        0 <= pos,
    ensures
        eval_primary(toks, pos) matches Some((v, p)) ==> pos < p <= toks.len(),
    decreases toks.len() - pos, 1int,
{
    if 0 <= pos < toks.len() && toks[pos] == Tok::LParen {
        lemma_or_bounds(toks, pos + 1);
    }
}

/// The spec result of a parse step, as an executable-width value.
pub open spec fn as_step(r: Option<(bool, usize)>) -> Option<(bool, int)> {
    match r {
        Some((v, p)) => Some((v, p as int)),
        None => None,
    }
}

fn eval_or_exec(toks: &[Tok], pos: usize) -> (r: Option<(bool, usize)>)
    requires
        pos <= toks@.len(),
    ensures
        as_step(r) == eval_or(toks@, pos as int),
    decreases toks@.len() - pos, 4int,
{
    proof {
        lemma_and_bounds(toks@, pos as int);
    }
    match eval_and_exec(toks, pos) {
        Some((v, p)) => or_rest_exec(toks, p, v),
        None => None,
    }
}

fn or_rest_exec(toks: &[Tok], pos: usize, acc: bool) -> (r: Option<(bool, usize)>)
    requires
        pos <= toks@.len(),
    ensures
        as_step(r) == or_rest(toks@, pos as int, acc),
    decreases toks@.len() - pos, 5int,
{
    if pos < toks.len() && toks[pos] == Tok::Or {
        proof {
            lemma_and_bounds(toks@, pos + 1);
        }
        match eval_and_exec(toks, pos + 1) {
            Some((v, p)) => or_rest_exec(toks, p, v || acc),
            None => None,
        }
    } else {
        Some((acc, pos))
    }
}

fn eval_and_exec(toks: &[Tok], pos: usize) -> (r: Option<(bool, usize)>)
    requires
        pos <= toks@.len(),
    ensures
        as_step(r) == eval_and(toks@, pos as int),
    decreases toks@.len() - pos, 3int,
{
    proof {
        lemma_unary_bounds(toks@, pos as int);
    }
    match eval_unary_exec(toks, pos) {
        Some((v, p)) => and_rest_exec(toks, p, v),
        None => None,
    }
}

fn and_rest_exec(toks: &[Tok], pos: usize, acc: bool) -> (r: Option<(bool, usize)>)
    requires
        pos <= toks@.len(),
    ensures
        as_step(r) == and_rest(toks@, pos as int, acc),
    decreases toks@.len() - pos, 5int,
{
    if pos < toks.len() && toks[pos] == Tok::And {
        proof {
            lemma_unary_bounds(toks@, pos + 1);
        }
        match eval_unary_exec(toks, pos + 1) {
            Some((v, p)) => and_rest_exec(toks, p, v && acc),
            None => None,
        }
    } else {
        Some((acc, pos))
    }
}

fn eval_unary_exec(toks: &[Tok], pos: usize) -> (r: Option<(bool, usize)>)
    requires
        pos <= toks@.len(),
    ensures
        as_step(r) == eval_unary(toks@, pos as int),
    decreases toks@.len() - pos, 2int,
{
    if pos < toks.len() && toks[pos] == Tok::Not {
        match eval_unary_exec(toks, pos + 1) {
            Some((v, p)) => Some((!v, p)),
            None => None,
        }
    } else {
        eval_primary_exec(toks, pos)
    }
}

fn eval_primary_exec(toks: &[Tok], pos: usize) -> (r: Option<(bool, usize)>)
    requires
        pos <= toks@.len(),
    ensures
        as_step(r) == eval_primary(toks@, pos as int),
    decreases toks@.len() - pos, 1int,
{
    if pos >= toks.len() {
        None
    } else if toks[pos] == Tok::True {
        Some((true, pos + 1))
    } else if toks[pos] == Tok::False {
        Some((false, pos + 1))
    } else if toks[pos] == Tok::LParen {
        proof {
            lemma_or_bounds(toks@, pos + 1);
        }
        match eval_or_exec(toks, pos + 1) {
            Some((v, p)) => {
                if p < toks.len() && toks[p] == Tok::RParen {
                    Some((v, p + 1))
                } else {
                    None
                }
            },
            None => None,
        }
    } else {
        None
    }
}

/// Evaluates `tokens` as a boolean expression (`!` > `&&` > `||`, with
/// parens) if and only if every token is a literal or connective — `None`
/// as soon as an `Other` token appears anywhere, or on malformed syntax.
pub fn classify_constant_condition(tokens: &[Tok]) -> (r: Option<bool>)
    ensures
        r == spec_classify_constant_condition(tokens@),
{
    match eval_or_exec(tokens, 0) {
        Some((v, p)) => {
            if p == tokens.len() {
                Some(v)
            } else {
                None
            }
        },
        None => None,
    }
}

/// No token in `toks[lo..hi]` is `Other`.
pub open spec fn all_known(toks: Seq<Tok>, lo: int, hi: int) -> bool {
    forall|k: int| lo <= k < hi ==> toks[k] != Tok::Other
}

proof fn lemma_or_known(toks: Seq<Tok>, pos: int)
    requires
        0 <= pos,
    ensures
        eval_or(toks, pos) matches Some((v, p)) ==> all_known(toks, pos, p),
    decreases toks.len() - pos, 4int,
{
    lemma_and_known(toks, pos);
    if let Some((v, p)) = eval_and(toks, pos) {
        if pos < p <= toks.len() {
            lemma_or_rest_known(toks, p, v);
        }
    }
}

proof fn lemma_or_rest_known(toks: Seq<Tok>, pos: int, acc: bool)
    requires
        0 <= pos <= toks.len(),
    ensures
        or_rest(toks, pos, acc) matches Some((v, p)) ==> all_known(toks, pos, p),
    decreases toks.len() - pos, 5int,
{
    if 0 <= pos < toks.len() && toks[pos] == Tok::Or {
        lemma_and_known(toks, pos + 1);
        if let Some((v, p)) = eval_and(toks, pos + 1) {
            if pos + 1 < p <= toks.len() {
                lemma_or_rest_known(toks, p, v || acc);
            }
        }
    }
}

proof fn lemma_and_known(toks: Seq<Tok>, pos: int)
    requires
        0 <= pos,
    ensures
        eval_and(toks, pos) matches Some((v, p)) ==> all_known(toks, pos, p),
    decreases toks.len() - pos, 3int,
{
    lemma_unary_known(toks, pos);
    if let Some((v, p)) = eval_unary(toks, pos) {
        if pos < p <= toks.len() {
            lemma_and_rest_known(toks, p, v);
        }
    }
}

proof fn lemma_and_rest_known(toks: Seq<Tok>, pos: int, acc: bool)
    requires
        0 <= pos <= toks.len(),
    ensures
        and_rest(toks, pos, acc) matches Some((v, p)) ==> all_known(toks, pos, p),
    decreases toks.len() - pos, 5int,
{
    if 0 <= pos < toks.len() && toks[pos] == Tok::And {
        lemma_unary_known(toks, pos + 1);
        if let Some((v, p)) = eval_unary(toks, pos + 1) {
            if pos + 1 < p <= toks.len() {
                lemma_and_rest_known(toks, p, v && acc);
            }
        }
    }
}

proof fn lemma_unary_known(toks: Seq<Tok>, pos: int)
    requires
        0 <= pos,
    ensures
        eval_unary(toks, pos) matches Some((v, p)) ==> all_known(toks, pos, p),
    decreases toks.len() - pos, 2int,
{
    if 0 <= pos < toks.len() && toks[pos] == Tok::Not {
        lemma_unary_known(toks, pos + 1);
    } else {
        lemma_primary_known(toks, pos);
    }
}

proof fn lemma_primary_known(toks: Seq<Tok>, pos: int)
    requires
        0 <= pos,
    ensures
        eval_primary(toks, pos) matches Some((v, p)) ==> all_known(toks, pos, p),
    decreases toks.len() - pos, 1int,
{
    if 0 <= pos < toks.len() && toks[pos] == Tok::LParen {
        lemma_or_known(toks, pos + 1);
    }
}

/// A condition holding any token other than a literal or connective is
/// never classified: one unknown operand makes the whole condition
/// unclassifiable.
pub proof fn other_token_is_unclassifiable(toks: Seq<Tok>, k: int)
    requires
        0 <= k < toks.len(),
        toks[k] == Tok::Other,
    ensures
        spec_classify_constant_condition(toks) is None,
{
    lemma_or_known(toks, 0);
}

/// Which directive a `directive` node is.
#[derive(Clone, Copy, PartialEq, Eq, Structural)]
pub enum DirectiveKind {
    If,
    ElseIf,
    Else,
    EndIf,
}

/// The directive node `n` is, judged by its first child's kind.
pub open spec fn directive_kind(t: TreeModel, n: int) -> Option<DirectiveKind> {
    if t.kind(n) != "directive"@ || t.children(n).len() == 0 {
        None
    } else {
        let k = t.kind(t.children(n)[0] as int);
        if k == "#if"@ {
            Some(DirectiveKind::If)
        } else if k == "#elseif"@ {
            Some(DirectiveKind::ElseIf)
        } else if k == "#else"@ {
            Some(DirectiveKind::Else)
        } else if k == "#endif"@ {
            Some(DirectiveKind::EndIf)
        } else {
            None
        }
    }
}

fn directive_kind_exec(tree: &SyntaxTree, n: usize) -> (r: Option<DirectiveKind>)
    requires
        n < tree@.nodes.len(),
    ensures
        r == directive_kind(tree@, n as int),
{
    tree.assert_wf();
    if !tree.kind_is(n, "directive") || tree.node(n).children.len() == 0 {
        return None;
    }
    proof {
        lemma_child_nested(tree@, n as int, 0);
    }
    let c = tree.node(n).children[0];
    if tree.kind_is(c, "#if") {
        Some(DirectiveKind::If)
    } else if tree.kind_is(c, "#elseif") {
        Some(DirectiveKind::ElseIf)
    } else if tree.kind_is(c, "#else") {
        Some(DirectiveKind::Else)
    } else if tree.kind_is(c, "#endif") {
        Some(DirectiveKind::EndIf)
    } else {
        None
    }
}

/// The token a condition node stands for.
pub open spec fn tok_of(t: TreeModel, n: int) -> Tok {
    let k = t.kind(n);
    if k == "boolean_literal"@ {
        if t.text(n) == Some("true"@) {
            Tok::True
        } else if t.text(n) == Some("false"@) {
            Tok::False
        } else {
            Tok::Other
        }
    } else if k == "!"@ {
        Tok::Not
    } else if k == "&&"@ {
        Tok::And
    } else if k == "||"@ {
        Tok::Or
    } else if k == "("@ {
        Tok::LParen
    } else if k == ")"@ {
        Tok::RParen
    } else {
        Tok::Other
    }
}

/// The condition tokens of a directive: its children after the keyword.
pub open spec fn condition_tokens(t: TreeModel, d: int) -> Seq<Tok> {
    Seq::new((t.children(d).len() - 1) as nat, |i: int| tok_of(t, t.children(d)[i + 1] as int))
}

fn text_is(tree: &SyntaxTree, n: usize, lit: &str) -> (r: bool)
    requires
        n < tree@.nodes.len(),
    ensures
        r == (tree@.text(n as int) == Some(lit@)),
{
    match tree.text(n) {
        Some(t) => chars_eq(t, chars_of(lit).as_slice()),
        None => false,
    }
}

fn condition_tokens_exec(tree: &SyntaxTree, d: usize) -> (r: Vec<Tok>)
    requires
        d < tree@.nodes.len(),
        tree@.children(d as int).len() >= 1,
    ensures
        r@ == condition_tokens(tree@, d as int),
{
    tree.assert_wf();
    let ghost t = tree@;
    let nc = tree.node(d).children.len();
    let mut out: Vec<Tok> = Vec::new();
    let mut k: usize = 1;
    while k < nc
        invariant
            t == tree@,
            t.wf(),
            d < t.nodes.len(),
            nc == t.children(d as int).len(),
            1 <= k <= nc,
            out@ == condition_tokens(t, d as int).take(k - 1),
        decreases nc - k,
    {
        proof {
            lemma_child_nested(t, d as int, k as int);
        }
        let c = tree.node(d).children[k];
        let tok = if tree.kind_is(c, "boolean_literal") {
            if text_is(tree, c, "true") {
                Tok::True
            } else if text_is(tree, c, "false") {
                Tok::False
            } else {
                Tok::Other
            }
        } else if tree.kind_is(c, "!") {
            Tok::Not
        } else if tree.kind_is(c, "&&") {
            Tok::And
        } else if tree.kind_is(c, "||") {
            Tok::Or
        } else if tree.kind_is(c, "(") {
            Tok::LParen
        } else if tree.kind_is(c, ")") {
            Tok::RParen
        } else {
            Tok::Other
        };
        out.push(tok);
        assert(out@ =~= condition_tokens(t, d as int).take(k as int));
        k = k + 1;
    }
    assert(out@ =~= condition_tokens(t, d as int));
    out
}

/// The named children of `p` from child position `k` on.
pub open spec fn named_kids(t: TreeModel, p: int, k: int) -> Seq<int>
    decreases t.children(p).len() - k,
{
    if k < 0 || k >= t.children(p).len() {
        Seq::empty()
    } else if t.nodes[t.children(p)[k] as int].named {
        seq![t.children(p)[k] as int] + named_kids(t, p, k + 1)
    } else {
        named_kids(t, p, k + 1)
    }
}

pub proof fn lemma_named_kids_nested(t: TreeModel, p: int, k: int)
    requires
        t.wf(),
        t.valid(p),
        0 <= k,
    ensures
        forall|i: int| 0 <= i < named_kids(t, p, k).len() ==> t.nested_in(#[trigger] named_kids(t, p, k)[i], p),
    decreases t.children(p).len() - k,
{
    if k < t.children(p).len() {
        lemma_child_nested(t, p, k);
        lemma_named_kids_nested(t, p, k + 1);
        let rest = named_kids(t, p, k + 1);
        if t.nodes[t.children(p)[k] as int].named {
            assert forall|i: int| 0 <= i < named_kids(t, p, k).len() implies t.nested_in(#[trigger] named_kids(t, p, k)[i], p) by {
                if i > 0 {
                    assert(named_kids(t, p, k)[i] == rest[i - 1]);
                }
            }
        }
    }
}

/// Where the branch body starting at `cs[j]` ends: the next `#elseif`,
/// `#else` or `#endif` of this chain (inner chains' directives skipped by
/// nesting depth), or `hi`.
pub open spec fn body_end(t: TreeModel, cs: Seq<int>, j: int, hi: int, depth: nat) -> int
    decreases hi - j,
{
    if j < 0 || j >= hi || j >= cs.len() {
        if j < hi { j } else { hi }
    } else {
        match directive_kind(t, cs[j]) {
            Some(DirectiveKind::If) => body_end(t, cs, j + 1, hi, depth + 1),
            Some(DirectiveKind::EndIf) => if depth == 0 {
                j
            } else {
                body_end(t, cs, j + 1, hi, (depth - 1) as nat)
            },
            Some(DirectiveKind::ElseIf) | Some(DirectiveKind::Else) => if depth == 0 {
                j
            } else {
                body_end(t, cs, j + 1, hi, depth)
            },
            None => body_end(t, cs, j + 1, hi, depth),
        }
    }
}

pub proof fn lemma_body_end(t: TreeModel, cs: Seq<int>, j: int, hi: int, depth: nat)
    requires
        0 <= j <= hi <= cs.len(),
    ensures
        j <= body_end(t, cs, j, hi, depth) <= hi,
    decreases hi - j,
{
    if j < hi {
        match directive_kind(t, cs[j]) {
            Some(DirectiveKind::If) => lemma_body_end(t, cs, j + 1, hi, depth + 1),
            Some(DirectiveKind::EndIf) => if depth > 0 {
                lemma_body_end(t, cs, j + 1, hi, (depth - 1) as nat)
            },
            Some(DirectiveKind::ElseIf) | Some(DirectiveKind::Else) => if depth > 0 {
                lemma_body_end(t, cs, j + 1, hi, depth)
            },
            None => lemma_body_end(t, cs, j + 1, hi, depth),
        }
    }
}

/// Records `cs[lo..hi]` as dead, when it is not empty.
pub open spec fn push_dead(t: TreeModel, cs: Seq<int>, lo: int, hi: int, regs: Seq<SwiftDeadCodeRegion>) -> Seq<SwiftDeadCodeRegion> {
    if lo < hi {
        regs.push(
            SwiftDeadCodeRegion {
                start_line: (t.nodes[cs[lo]].start_row + 1) as usize,
                end_line: (t.nodes[cs[hi - 1]].end_row + 1) as usize,
            },
        )
    } else {
        regs
    }
}

/// The scan of the named children `lo..hi` of `p`: each `#if` chain among
/// them is matched up and classified, and every other child (and every
/// live branch) is descended into.
pub open spec fn scan_slice(t: TreeModel, p: int, lo: int, hi: int, regs: Seq<SwiftDeadCodeRegion>) -> Seq<SwiftDeadCodeRegion>
    decreases t.end(p) - p, hi - lo, 1int,
    when t.wf() && t.valid(p) && 0 <= lo && hi <= named_kids(t, p, 0).len()
{
    let cs = named_kids(t, p, 0);
    if lo >= hi {
        regs
    } else if directive_kind(t, cs[lo]) == Some(DirectiveKind::If) {
        let (r2, nxt) = scan_chain(t, p, lo, hi, false, regs);
        if lo < nxt <= hi {
            scan_slice(t, p, nxt, hi, r2)
        } else {
            r2
        }
    } else {
        proof {
            lemma_named_kids_nested(t, p, 0);
            assert(t.nested_in(cs[lo], p));
        }
        let c = cs[lo];
        let r2 = scan_slice(t, c, 0, named_kids(t, c, 0).len() as int, regs);
        scan_slice(t, p, lo + 1, hi, r2)
    }
}

/// The scan of one chain among `p`'s named children, from its branch
/// directive at `i` on (`resolved` when an earlier branch always runs):
/// the regions, and the position after the chain's `#endif`.
pub open spec fn scan_chain(
    t: TreeModel,
    p: int,
    i: int,
    hi: int,
    resolved: bool,
    regs: Seq<SwiftDeadCodeRegion>,
) -> (Seq<SwiftDeadCodeRegion>, int)
    decreases t.end(p) - p, hi - i, 0int,
    when t.wf() && t.valid(p) && 0 <= i && hi <= named_kids(t, p, 0).len()
{
    let cs = named_kids(t, p, 0);
    if i >= hi {
        (regs, i)
    } else {
        match directive_kind(t, cs[i]) {
            None => (regs, i),
            Some(DirectiveKind::EndIf) => (regs, i + 1),
            Some(kind) => {
                proof {
                    lemma_body_end(t, cs, i + 1, hi, 0);
                }
                let be = body_end(t, cs, i + 1, hi, 0);
                let (r2, res2) = if resolved {
                    (push_dead(t, cs, i + 1, be, regs), true)
                } else if kind == DirectiveKind::Else {
                    (scan_slice(t, p, i + 1, be, regs), false)
                } else {
                    match spec_classify_constant_condition(condition_tokens(t, cs[i])) {
                        Some(true) => (scan_slice(t, p, i + 1, be, regs), true),
                        Some(false) => (push_dead(t, cs, i + 1, be, regs), false),
                        None => (scan_slice(t, p, i + 1, be, regs), false),
                    }
                };
                scan_chain(t, p, be, hi, res2, r2)
            },
        }
    }
}

/// The dead regions of a parsed Swift file.
pub open spec fn spec_swift_regions(t: TreeModel) -> Seq<SwiftDeadCodeRegion> {
    scan_slice(t, 0, 0, named_kids(t, 0, 0).len() as int, Seq::empty())
}

/// A sequence of node indices, as integers.
pub open spec fn as_ints(s: Seq<usize>) -> Seq<int> {
    s.map_values(|x: usize| x as int)
}

fn named_kids_exec(tree: &SyntaxTree, p: usize) -> (r: Vec<usize>)
    requires
        p < tree@.nodes.len(),
    ensures
        as_ints(r@) == named_kids(tree@, p as int, 0),
{
    tree.assert_wf();
    let ghost t = tree@;
    let nc = tree.node(p).children.len();
    let mut out: Vec<usize> = Vec::new();
    let mut k: usize = 0;
    while k < nc
        invariant
            t == tree@,
            t.wf(),
            p < t.nodes.len(),
            nc == t.children(p as int).len(),
            k <= nc,
            as_ints(out@) + named_kids(t, p as int, k as int) == named_kids(t, p as int, 0),
        decreases nc - k,
    {
        proof {
            lemma_child_nested(t, p as int, k as int);
        }
        let c = tree.node(p).children[k];
        if tree.is_named(c) {
            let ghost before = as_ints(out@);
            out.push(c);
            assert(as_ints(out@) =~= before.push(c as int));
            assert(before.push(c as int) + named_kids(t, p as int, k + 1) =~= before + named_kids(t, p as int, k as int));
        }
        k = k + 1;
    }
    assert(as_ints(out@) + named_kids(t, p as int, nc as int) =~= as_ints(out@));
    out
}

fn body_end_exec(tree: &SyntaxTree, cs: &Vec<usize>, j0: usize, hi: usize) -> (r: usize)
    requires
        j0 <= hi <= cs.len(),
        forall|k: int| 0 <= k < cs.len() ==> (#[trigger] cs@[k]) < tree@.nodes.len(),
    ensures
        r as int == body_end(tree@, as_ints(cs@), j0 as int, hi as int, 0),
{
    let ghost t = tree@;
    let ghost csi = as_ints(cs@);
    let ghost goal = body_end(t, csi, j0 as int, hi as int, 0);
    let mut j = j0;
    let mut depth: usize = 0;
    while j < hi
        invariant
            t == tree@,
            csi == as_ints(cs@),
            forall|k: int| 0 <= k < cs.len() ==> (#[trigger] cs@[k]) < tree@.nodes.len(),
            j0 <= j <= hi <= cs.len(),
            depth <= j - j0,
            goal == body_end(t, csi, j0 as int, hi as int, 0),
            body_end(t, csi, j as int, hi as int, depth as nat) == goal,
        decreases hi - j,
    {
        assert(csi[j as int] == cs@[j as int] as int);
        match directive_kind_exec(tree, cs[j]) {
            Some(DirectiveKind::If) => {
                depth = depth + 1;
            },
            Some(DirectiveKind::EndIf) => {
                if depth == 0 {
                    return j;
                }
                depth = depth - 1;
            },
            Some(DirectiveKind::ElseIf) | Some(DirectiveKind::Else) => {
                if depth == 0 {
                    return j;
                }
            },
            None => {},
        }
        j = j + 1;
    }
    j
}

fn push_dead_exec(tree: &SyntaxTree, cs: &Vec<usize>, lo: usize, hi: usize, out: &mut Vec<SwiftDeadCodeRegion>)
    requires
        lo <= hi <= cs.len(),
        forall|k: int| 0 <= k < cs.len() ==> (#[trigger] cs@[k]) < tree@.nodes.len(),
    ensures
        final(out)@ == push_dead(tree@, as_ints(cs@), lo as int, hi as int, old(out)@),
{
    tree.assert_wf();
    if lo < hi {
        let first = cs[lo];
        let last = cs[hi - 1];
        assert(tree@.node_wf(first as int));
        assert(tree@.node_wf(last as int));
        out.push(
            SwiftDeadCodeRegion {
                start_line: tree.node(first).start_row + 1,
                end_line: tree.node(last).end_row + 1,
            },
        );
    }
}

fn scan_slice_exec(
    tree: &SyntaxTree,
    p: usize,
    cs: &Vec<usize>,
    lo: usize,
    hi: usize,
    out: &mut Vec<SwiftDeadCodeRegion>,
)
    requires
        p < tree@.nodes.len(),
        as_ints(cs@) == named_kids(tree@, p as int, 0),
        lo <= hi <= cs.len(),
    ensures
        final(out)@ == scan_slice(tree@, p as int, lo as int, hi as int, old(out)@),
    decreases tree@.end(p as int) - p, hi - lo, 1int,
{
    tree.assert_wf();
    let ghost t = tree@;
    let ghost goal = scan_slice(t, p as int, lo as int, hi as int, out@);
    proof {
        lemma_named_kids_nested(t, p as int, 0);
        assert forall|k: int| 0 <= k < cs.len() implies (#[trigger] cs@[k]) < tree@.nodes.len() by {
            assert(as_ints(cs@)[k] == cs@[k] as int);
        }
    }
    let mut i = lo;
    while i < hi
        invariant
            t == tree@,
            t.wf(),
            p < t.nodes.len(),
            as_ints(cs@) == named_kids(t, p as int, 0),
            forall|k: int| 0 <= k < named_kids(t, p as int, 0).len() ==> t.nested_in(#[trigger] named_kids(t, p as int, 0)[k], p as int),
            forall|k: int| 0 <= k < cs.len() ==> (#[trigger] cs@[k]) < tree@.nodes.len(),
            lo <= i <= hi <= cs.len(),
            scan_slice(t, p as int, i as int, hi as int, out@) == goal,
        decreases hi - i,
    {
        let c = cs[i];
        assert(as_ints(cs@)[i as int] == c as int);
        if let Some(DirectiveKind::If) = directive_kind_exec(tree, c) {
            let nxt = scan_chain_exec(tree, p, cs, i, hi, false, out);
            if i < nxt && nxt <= hi {
                i = nxt;
            } else {
                i = hi;
            }
        } else {
            assert(t.nested_in(c as int, p as int));
            let kids = named_kids_exec(tree, c);
            scan_slice_exec(tree, c, &kids, 0, kids.len(), out);
            i = i + 1;
        }
    }
}

fn scan_chain_exec(
    tree: &SyntaxTree,
    p: usize,
    cs: &Vec<usize>,
    i0: usize,
    hi: usize,
    resolved0: bool,
    out: &mut Vec<SwiftDeadCodeRegion>,
) -> (r: usize)
    requires
        p < tree@.nodes.len(),
        as_ints(cs@) == named_kids(tree@, p as int, 0),
        i0 <= hi <= cs.len(),
    ensures
        (final(out)@, r as int) == scan_chain(tree@, p as int, i0 as int, hi as int, resolved0, old(out)@),
    decreases tree@.end(p as int) - p, hi - i0, 0int,
{
    tree.assert_wf();
    let ghost t = tree@;
    let ghost goal = scan_chain(t, p as int, i0 as int, hi as int, resolved0, out@);
    proof {
        lemma_named_kids_nested(t, p as int, 0);
        assert forall|k: int| 0 <= k < cs.len() implies (#[trigger] cs@[k]) < tree@.nodes.len() by {
            assert(as_ints(cs@)[k] == cs@[k] as int);
        }
    }
    let mut i = i0;
    let mut resolved = resolved0;
    loop
        invariant
            t == tree@,
            t.wf(),
            p < t.nodes.len(),
            as_ints(cs@) == named_kids(t, p as int, 0),
            forall|k: int| 0 <= k < cs.len() ==> (#[trigger] cs@[k]) < tree@.nodes.len(),
            i0 <= i <= hi <= cs.len(),
            goal == scan_chain(t, p as int, i0 as int, hi as int, resolved0, old(out)@),
            scan_chain(t, p as int, i as int, hi as int, resolved, out@) == goal,
        decreases hi - i,
    {
        if i >= hi {
            return i;
        }
        let d = cs[i];
        assert(as_ints(cs@)[i as int] == d as int);
        let kind = match directive_kind_exec(tree, d) {
            None => {
                return i;
            },
            Some(DirectiveKind::EndIf) => {
                return i + 1;
            },
            Some(k) => k,
        };
        proof {
            lemma_body_end(t, as_ints(cs@), i + 1, hi as int, 0);
        }
        let be = body_end_exec(tree, cs, i + 1, hi);
        if resolved {
            push_dead_exec(tree, cs, i + 1, be, out);
        } else if let DirectiveKind::Else = kind {
            scan_slice_exec(tree, p, cs, i + 1, be, out);
        } else {
            let toks = condition_tokens_exec(tree, d);
            match classify_constant_condition(toks.as_slice()) {
                Some(true) => {
                    scan_slice_exec(tree, p, cs, i + 1, be, out);
                    resolved = true;
                },
                Some(false) => {
                    push_dead_exec(tree, cs, i + 1, be, out);
                },
                None => {
                    scan_slice_exec(tree, p, cs, i + 1, be, out);
                },
            }
        }
        i = be;
    }
}

/// The dead regions of a parsed Swift file.
pub fn swift_dead_code_regions_in(tree: &SyntaxTree) -> (r: Vec<SwiftDeadCodeRegion>)
    ensures
        r@ == spec_swift_regions(tree@),
{
    tree.assert_wf();
    let kids = named_kids_exec(tree, 0);
    let mut out: Vec<SwiftDeadCodeRegion> = Vec::new();
    scan_slice_exec(tree, 0, &kids, 0, kids.len(), &mut out);
    out
}

/// Computes the dead-code regions of `source`, a Swift file: branches of a
/// `#if`/`#elseif`/`#else` chain that a compile-time-constant condition
/// proves unreachable, in its parse. A file that is not UTF-8 is parsed as
/// bytes (node texts only where the bytes are valid UTF-8). No regions when
/// the grammar or the parse fails.
pub fn swift_dead_code_regions(source: &[u8]) -> (r: Vec<SwiftDeadCodeRegion>)
    ensures
        !parse_succeeds(Grammar::Swift, source@) ==> r@.len() == 0,
        parse_succeeds(Grammar::Swift, source@) ==> exists|t: TreeModel|
            #[trigger] is_parse_of(t, Grammar::Swift, source@) && r@ == spec_swift_regions(t),
{
    match parse_bytes(source, Grammar::Swift) {
        Some(tree) => {
            tree.assert_wf();
            let r = swift_dead_code_regions_in(&tree);
            assert(is_parse_of(tree@, Grammar::Swift, source@));
            r
        },
        None => Vec::new(),
    }
}

} // verus!
