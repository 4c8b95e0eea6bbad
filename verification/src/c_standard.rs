//! Best-effort lower bound on which C standard a file's syntax requires.
//!
//! Only syntax with no earlier-standard meaning at all (and no
//! long-standing GNU-extension precedent) counts as a marker, so the
//! result never overstates what the file needs. Markers inside untaken
//! `#if` branches still count: the tree has no preprocessor.

use vstd::prelude::*;
use crate::query::node_text;
use crate::syntax::{SyntaxTree, TreeModel, lemma_child_nested};
use crate::text::{chars_of, has_prefix, starts_with, str_eq};

verus! {

/// A lower bound on the C standard a file's syntax requires, ordered
/// `C99 < C11 < C23`.
#[derive(Debug, Clone, Copy, PartialEq, Eq, Structural, PartialOrd, Ord, Hash)]
pub enum CStandard {
    C99,
    /// Stands for "C11 or C17": C17 has no syntax of its own.
    C11,
    C23,
}

/// The position of a standard in the order `C99 < C11 < C23`.
pub open spec fn rank(s: CStandard) -> int {
    match s {
        CStandard::C99 => 0,
        CStandard::C11 => 1,
        CStandard::C23 => 2,
    }
}

fn rank_exec(s: CStandard) -> (r: u8)
    ensures
        r as int == rank(s),
{
    match s {
        CStandard::C99 => 0,
        CStandard::C11 => 1,
        CStandard::C23 => 2,
    }
}

/// Some child of `i` from position `k` on is a `designator` that is a
/// field or subscript designator (`.a = 1`, `[0] = 1`).
pub open spec fn has_designator_from(t: TreeModel, i: int, k: int) -> bool
    decreases t.children(i).len() - k,
{
    if k < 0 || k >= t.children(i).len() {
        false
    } else {
        let c = t.children(i)[k] as int;
        if t.nodes[c].field matches Some(name) && name@ == "designator"@ && (t.kind(c)
            == "field_designator"@ || t.kind(c) == "subscript_designator"@) {
            true
        } else {
            has_designator_from(t, i, k + 1)
        }
    }
}

/// The standard node `i` implies on its own, if it is a marker.
pub open spec fn marker_standard(t: TreeModel, i: int) -> Option<CStandard> {
    let k = t.kind(i);
    let tx = t.text_or_empty(i);
    if k == "generic_expression"@ {
        Some(CStandard::C11)
    } else if k == "alignas_qualifier"@ {
        Some(CStandard::C11)
    } else if k == "alignof_expression"@ {
        if has_prefix(tx, "_Alignof"@) || has_prefix(tx, "alignof"@) {
            Some(CStandard::C11)
        } else {
            None
        }
    } else if k == "type_qualifier"@ {
        if tx == "restrict"@ {
            Some(CStandard::C99)
        } else if tx == "_Atomic"@ || tx == "_Noreturn"@ || tx == "noreturn"@ {
            Some(CStandard::C11)
        } else if tx == "constexpr"@ {
            Some(CStandard::C23)
        } else {
            None
        }
    } else if k == "initializer_pair"@ {
        if has_designator_from(t, i, 0) {
            Some(CStandard::C99)
        } else {
            None
        }
    } else if k == "array_declarator"@ || k == "abstract_array_declarator"@ {
        match t.field_child(i, "size"@) {
            Some(s) => if !t.nodes[s].named && t.text_or_empty(s) == "*"@ {
                Some(CStandard::C99)
            } else {
                None
            },
            None => None,
        }
    } else if k == "null"@ {
        if tx == "nullptr"@ {
            Some(CStandard::C23)
        } else {
            None
        }
    } else if k == "attribute_declaration"@ {
        Some(CStandard::C23)
    } else if k == "preproc_call"@ {
        match t.field_child(i, "directive"@) {
            Some(d) => if t.text_or_empty(d) == "#embed"@ {
                Some(CStandard::C23)
            } else {
                None
            },
            None => None,
        }
    } else if k == "identifier"@ {
        if tx == "_Static_assert"@ || tx == "static_assert"@ {
            Some(CStandard::C11)
        } else {
            None
        }
    } else {
        None
    }
}

/// The higher of two optional standards.
pub open spec fn join(a: Option<CStandard>, b: Option<CStandard>) -> Option<CStandard> {
    match (a, b) {
        (Some(x), Some(y)) => if rank(y) > rank(x) {
            Some(y)
        } else {
            Some(x)
        },
        (None, _) => b,
        (_, None) => a,
    }
}

/// The highest marker among nodes `0..n`.
pub open spec fn best_upto(t: TreeModel, n: int) -> Option<CStandard>
    decreases n,
{
    if n <= 0 {
        None
    } else {
        join(best_upto(t, n - 1), marker_standard(t, n - 1))
    }
}

/// The lowest standard the whole tree's syntax requires.
pub open spec fn spec_min_c_standard(t: TreeModel) -> Option<CStandard> {
    best_upto(t, t.len())
}

/// The fold is the maximum: no marker among `0..n` ranks above it, and
/// when it is some standard, some node among `0..n` is that marker.
pub proof fn lemma_best_upto(t: TreeModel, n: int)
    ensures
        forall|i: int|
            0 <= i < n ==> (#[trigger] marker_standard(t, i) matches Some(s) ==> best_upto(t, n) matches Some(b)
                && rank(s) <= rank(b)),
        best_upto(t, n) matches Some(b) ==> exists|i: int| 0 <= i < n && #[trigger] marker_standard(t, i) == Some(b),
    decreases n,
{
    if n > 0 {
        lemma_best_upto(t, n - 1);
        if best_upto(t, n) == marker_standard(t, n - 1) {
            if let Some(b) = best_upto(t, n) {
                assert(marker_standard(t, n - 1) == Some(b));
            }
        }
    }
}

/// Once `C23` is reached the fold stays there.
proof fn lemma_c23_stays(t: TreeModel, a: int, n: int)
    requires
        a <= n,
        best_upto(t, a) == Some(CStandard::C23),
    ensures
        best_upto(t, n) == Some(CStandard::C23),
    decreases n - a,
{
    if a < n {
        lemma_c23_stays(t, a, n - 1);
    }
}

fn text_is(tree: &SyntaxTree, n: usize, lit: &str) -> (r: bool)
    requires
        n < tree@.nodes.len(),
    ensures
        r == (tree@.text_or_empty(n as int) == lit@),
{
    let s = node_text(tree, n);
    str_eq(s.as_str(), lit)
}

fn text_starts_with(tree: &SyntaxTree, n: usize, lit: &str) -> (r: bool)
    requires
        n < tree@.nodes.len(),
    ensures
        r == has_prefix(tree@.text_or_empty(n as int), lit@),
{
    let s = node_text(tree, n);
    let cs = chars_of(s.as_str());
    let ps = chars_of(lit);
    starts_with(cs.as_slice(), ps.as_slice())
}

fn has_designator(tree: &SyntaxTree, i: usize) -> (r: bool)
    requires
        i < tree@.nodes.len(),
    ensures
        r == has_designator_from(tree@, i as int, 0),
{
    tree.assert_wf();
    let ghost t = tree@;
    let nc = tree.node(i).children.len();
    let mut k: usize = 0;
    while k < nc
        invariant
            t == tree@,
            t.wf(),
            i < t.nodes.len(),
            nc == t.children(i as int).len(),
            k <= nc,
            has_designator_from(t, i as int, 0) == has_designator_from(t, i as int, k as int),
        decreases nc - k,
    {
        proof {
            lemma_child_nested(t, i as int, k as int);
        }
        let c = tree.node(i).children[k];
        let is_designator = match &tree.node(c).field {
            Some(name) => str_eq(name.as_str(), "designator"),
            None => false,
        };
        if is_designator && (tree.kind_is(c, "field_designator") || tree.kind_is(c, "subscript_designator")) {
            return true;
        }
        k = k + 1;
    }
    false
}

fn marker_standard_exec(tree: &SyntaxTree, i: usize) -> (r: Option<CStandard>)
    requires
        i < tree@.nodes.len(),
    ensures
        r == marker_standard(tree@, i as int),
{
    if tree.kind_is(i, "generic_expression") {
        Some(CStandard::C11)
    } else if tree.kind_is(i, "alignas_qualifier") {
        Some(CStandard::C11)
    } else if tree.kind_is(i, "alignof_expression") {
        if text_starts_with(tree, i, "_Alignof") || text_starts_with(tree, i, "alignof") {
            Some(CStandard::C11)
        } else {
            None
        }
    } else if tree.kind_is(i, "type_qualifier") {
        if text_is(tree, i, "restrict") {
            Some(CStandard::C99)
        } else if text_is(tree, i, "_Atomic") || text_is(tree, i, "_Noreturn") || text_is(tree, i, "noreturn") {
            Some(CStandard::C11)
        } else if text_is(tree, i, "constexpr") {
            Some(CStandard::C23)
        } else {
            None
        }
    } else if tree.kind_is(i, "initializer_pair") {
        if has_designator(tree, i) {
            Some(CStandard::C99)
        } else {
            None
        }
    } else if tree.kind_is(i, "array_declarator") || tree.kind_is(i, "abstract_array_declarator") {
        match tree.field_child(i, "size") {
            Some(s) => if !tree.is_named(s) && text_is(tree, s, "*") {
                Some(CStandard::C99)
            } else {
                None
            },
            None => None,
        }
    } else if tree.kind_is(i, "null") {
        if text_is(tree, i, "nullptr") {
            Some(CStandard::C23)
        } else {
            None
        }
    } else if tree.kind_is(i, "attribute_declaration") {
        Some(CStandard::C23)
    } else if tree.kind_is(i, "preproc_call") {
        match tree.field_child(i, "directive") {
            Some(d) => if text_is(tree, d, "#embed") {
                Some(CStandard::C23)
            } else {
                None
            },
            None => None,
        }
    } else if tree.kind_is(i, "identifier") {
        if text_is(tree, i, "_Static_assert") || text_is(tree, i, "static_assert") {
            Some(CStandard::C11)
        } else {
            None
        }
    } else {
        None
    }
}

/// Best-effort lower bound: the earliest C standard the tree's syntax
/// requires, the highest standard any single marker implies. `None` means
/// "consistent with C89", not "confirmed C89".
pub fn detect_min_c_standard(tree: &SyntaxTree) -> (r: Option<CStandard>)
    ensures
        r == spec_min_c_standard(tree@),
        forall|i: int|
            0 <= i < tree@.nodes.len() ==> (#[trigger] marker_standard(tree@, i) matches Some(s) ==> r matches Some(b)
                && rank(s) <= rank(b)),
        r matches Some(b) ==> exists|i: int|
            0 <= i < tree@.nodes.len() && #[trigger] marker_standard(tree@, i) == Some(b),
{
    let ghost t = tree@;
    proof {
        lemma_best_upto(t, t.len());
    }
    let n = tree.len();
    let mut best: Option<CStandard> = None;
    let mut i: usize = 0;
    while i < n
        invariant_except_break
            best == best_upto(t, i as int),
        invariant
            t == tree@,
            n == t.nodes.len(),
            i <= n,
        ensures
            best == best_upto(t, n as int),
        decreases n - i,
    {
        let found = marker_standard_exec(tree, i);
        match found {
            Some(f) => {
                match best {
                    Some(b) => {
                        if rank_exec(f) > rank_exec(b) {
                            best = Some(f);
                        }
                    },
                    None => {
                        best = Some(f);
                    },
                }
                if let Some(CStandard::C23) = best {
                    proof {
                        lemma_c23_stays(t, i + 1, n as int);
                    }
                    break;
                }
            },
            None => {},
        }
        i = i + 1;
    }
    best
}

} // verus!
