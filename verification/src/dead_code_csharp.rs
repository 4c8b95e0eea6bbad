//! Dead-code region detection for C#'s `#if`/`#elif`/`#else`/`#endif`
//! conditional compilation, on the syntax tree.
//!
//! `preproc_if`/`preproc_elif` nodes carry a `condition` field and an
//! `alternative` field chaining to the next `#elif` or a trailing `#else`,
//! and each branch's content is nested beneath them, so a walk following
//! those fields finds every branch. A condition is evaluated when locally
//! provable: `true`/`false` literals, `!`, `&&`, `||`, `==`, `!=`,
//! parentheses, and symbols whose definedness the file settles —
//! unconditionally `#define`d (or `#undef`d) earlier outside every branch,
//! or only ever `#define`d in a comment. `&&`/`||` short-circuit past an
//! unknown operand.

use vstd::prelude::*;
use vstd::utf8::valid_utf8;
use crate::dead_code::{commented_from, commented_out_define_names, log_view, lookup, lookup_define, names_contain, names_view};
use crate::grammar::{Grammar, is_parse_of, lemma_texts_match_utf8, parse_bytes, parse_source, parse_succeeds};
use crate::syntax::{SyntaxTree, TreeModel, lemma_child_nested, lemma_field_child_nested, lemma_named_child_nested};
use crate::text::{chars_eq, chars_of, decode_utf8, first_ident, lines, spec_first_ident};

verus! {

/// A C# preprocessor-dead region: an `#if`/`#elif`/`#else` branch proven
/// unreachable.
#[derive(Debug, Clone, Copy, PartialEq, Eq, Structural)]
pub struct CSharpDeadCodeRegion {
    /// 1-based, inclusive first line of the dead region.
    pub start_line: usize,
    /// 1-based, inclusive last line of the dead region.
    pub end_line: usize,
}

/// The scan state: the `#define`/`#undef` log and the regions found.
pub struct CsState {
    pub log: Seq<(Seq<char>, bool)>,
    pub regions: Seq<CSharpDeadCodeRegion>,
}

/// The symbol named by a `#define`/`#undef` node: the leading identifier
/// of its first named child's text.
pub open spec fn preproc_arg_name(t: TreeModel, n: int) -> Option<Seq<char>> {
    match t.first_named_child(n) {
        None => None,
        Some(arg) => match t.text(arg) {
            None => None,
            Some(text) => spec_first_ident(text),
        },
    }
}

/// Whether child position `k` of `p` is part of a branch body: a named
/// child other than the excluded `condition`/`alternative` nodes.
pub open spec fn in_body(t: TreeModel, p: int, k: int, ex_a: Option<int>, ex_b: Option<int>) -> bool {
    let c = t.children(p)[k] as int;
    &&& t.nodes[c].named
    &&& ex_a != Some(c)
    &&& ex_b != Some(c)
}

/// The first body child of `p` at or after position `k`.
pub open spec fn first_body(t: TreeModel, p: int, k: int, ex_a: Option<int>, ex_b: Option<int>) -> Option<int>
    decreases t.children(p).len() - k,
{
    if k < 0 || k >= t.children(p).len() {
        None
    } else if in_body(t, p, k, ex_a, ex_b) {
        Some(t.children(p)[k] as int)
    } else {
        first_body(t, p, k + 1, ex_a, ex_b)
    }
}

/// The last body child of `p` before position `k`.
pub open spec fn last_body(t: TreeModel, p: int, k: int, ex_a: Option<int>, ex_b: Option<int>) -> Option<int>
    decreases k,
{
    if k <= 0 || k > t.children(p).len() {
        None
    } else if in_body(t, p, k - 1, ex_a, ex_b) {
        Some(t.children(p)[k - 1] as int)
    } else {
        last_body(t, p, k - 1, ex_a, ex_b)
    }
}

/// Records the body of `p` as dead, when it has any content.
pub open spec fn push_dead(t: TreeModel, st: CsState, p: int, ex_a: Option<int>, ex_b: Option<int>) -> CsState {
    match (first_body(t, p, 0, ex_a, ex_b), last_body(t, p, t.children(p).len() as int, ex_a, ex_b)) {
        (Some(f), Some(l)) => CsState {
            regions: st.regions.push(
                CSharpDeadCodeRegion {
                    start_line: (t.nodes[f].start_row + 1) as usize,
                    end_line: (t.nodes[l].end_row + 1) as usize,
                },
            ),
            ..st
        },
        _ => st,
    }
}

/// The constant value of a condition expression, when locally provable.
pub open spec fn eval(t: TreeModel, n: int, log: Seq<(Seq<char>, bool)>, commented: Seq<Seq<char>>) -> Option<bool>
    decreases t.end(n) - n,
    when t.wf() && t.valid(n)
{
    let k = t.kind(n);
    if k == "boolean_literal"@ {
        match t.text(n) {
            Some(x) => if x == "true"@ {
                Some(true)
            } else if x == "false"@ {
                Some(false)
            } else {
                None
            },
            None => None,
        }
    } else if k == "identifier"@ {
        match t.text(n) {
            None => None,
            Some(name) => match lookup_define(log, log.len() as int, name) {
                Some(v) => Some(v),
                None => if commented.contains(name) {
                    Some(false)
                } else {
                    None
                },
            },
        }
    } else if k == "parenthesized_expression"@ {
        match t.first_named_child(n) {
            None => None,
            Some(c) => {
                proof {
                    lemma_named_child_nested(t, n, 0);
                }
                eval(t, c, log, commented)
            },
        }
    } else if k == "unary_expression"@ {
        match (t.field_child(n, "operator"@), t.field_child(n, "argument"@)) {
            (Some(op), Some(arg)) => if t.kind(op) != "!"@ {
                None
            } else {
                proof {
                    lemma_field_child_nested(t, n, "argument"@, 0);
                }
                match eval(t, arg, log, commented) {
                    Some(v) => Some(!v),
                    None => None,
                }
            },
            _ => None,
        }
    } else if k == "binary_expression"@ {
        match (t.field_child(n, "operator"@), t.field_child(n, "left"@), t.field_child(n, "right"@)) {
            (Some(op), Some(left), Some(right)) => {
                proof {
                    lemma_field_child_nested(t, n, "left"@, 0);
                    lemma_field_child_nested(t, n, "right"@, 0);
                }
                let l = eval(t, left, log, commented);
                let r = eval(t, right, log, commented);
                let o = t.kind(op);
                if o == "&&"@ {
                    if l == Some(false) || r == Some(false) {
                        Some(false)
                    } else if l is Some && r is Some {
                        Some(true)
                    } else {
                        None
                    }
                } else if o == "||"@ {
                    if l == Some(true) || r == Some(true) {
                        Some(true)
                    } else if l is Some && r is Some {
                        Some(false)
                    } else {
                        None
                    }
                } else if o == "=="@ {
                    match (l, r) {
                        (Some(a), Some(b)) => Some(a == b),
                        _ => None,
                    }
                } else if o == "!="@ {
                    match (l, r) {
                        (Some(a), Some(b)) => Some(a != b),
                        _ => None,
                    }
                } else {
                    None
                }
            },
            _ => None,
        }
    } else {
        None
    }
}

/// The scan of the body children of `p` from position `k` on (`top` when
/// outside every branch).
pub open spec fn scan_siblings(
    t: TreeModel,
    st: CsState,
    p: int,
    k: int,
    ex_a: Option<int>,
    ex_b: Option<int>,
    top: bool,
    commented: Seq<Seq<char>>,
) -> CsState
    decreases t.end(p) - p, 1int, t.children(p).len() - k,
    when t.wf() && t.valid(p) && k >= 0
{
    if k >= t.children(p).len() {
        st
    } else {
        proof {
            lemma_child_nested(t, p, k);
        }
        let c = t.children(p)[k] as int;
        let next = if in_body(t, p, k, ex_a, ex_b) {
            scan_node(t, st, c, top, commented)
        } else {
            st
        };
        scan_siblings(t, next, p, k + 1, ex_a, ex_b, top, commented)
    }
}

/// The scan of one sibling `c`: a `#define`/`#undef` outside every branch
/// updates the log, an `#if` chain is walked branch by branch, anything
/// else is descended into.
pub open spec fn scan_node(t: TreeModel, st: CsState, c: int, top: bool, commented: Seq<Seq<char>>) -> CsState
    decreases t.end(c) - c, 4int, 0int,
    when t.wf() && t.valid(c)
{
    let k = t.kind(c);
    if k == "preproc_define"@ || k == "preproc_undef"@ {
        if top {
            match preproc_arg_name(t, c) {
                Some(name) => CsState { log: st.log.push((name, k == "preproc_define"@)), ..st },
                None => st,
            }
        } else {
            st
        }
    } else if k == "preproc_if"@ {
        scan_chain(t, st, c, top, false, commented)
    } else {
        scan_siblings(t, st, c, 0, None, None, top, commented)
    }
}

/// The scan of an `#if`/`#elif`/`#else` chain from branch `n` on;
/// `resolved` tells that an earlier branch always runs.
pub open spec fn scan_chain(
    t: TreeModel,
    st: CsState,
    n: int,
    top: bool,
    resolved: bool,
    commented: Seq<Seq<char>>,
) -> CsState
    decreases t.end(n) - n, 3int, 0int,
    when t.wf() && t.valid(n)
{
    let cond = t.field_child(n, "condition"@);
    let alt = t.field_child(n, "alternative"@);
    let (st2, resolved2) = if resolved {
        (push_dead(t, st, n, cond, alt), true)
    } else {
        match cond {
            None => (scan_siblings(t, st, n, 0, cond, alt, false, commented), false),
            Some(cn) => match eval(t, cn, st.log, commented) {
                Some(true) => (scan_siblings(t, st, n, 0, cond, alt, false, commented), true),
                Some(false) => (push_dead(t, st, n, cond, alt), false),
                None => (scan_siblings(t, st, n, 0, cond, alt, false, commented), false),
            },
        }
    };
    match alt {
        Some(a) => {
            proof {
                lemma_field_child_nested(t, n, "alternative"@, 0);
            }
            scan_chain(t, st2, a, top, resolved2, commented)
        },
        None => st2,
    }
}

/// The dead regions of a parsed C# file whose commented-out `#define`
/// names are `commented`.
pub open spec fn spec_csharp_regions(t: TreeModel, commented: Seq<Seq<char>>) -> Seq<CSharpDeadCodeRegion> {
    scan_siblings(t, CsState { log: Seq::empty(), regions: Seq::empty() }, 0, 0, None, None, true, commented).regions
}

fn text_is(tree: &SyntaxTree, n: usize, lit: &str) -> (r: bool)
    requires
        n < tree@.nodes.len(),
    ensures
        r == (tree@.text(n as int) == Some(lit@)),
{
    match tree.text(n) {
        Some(t) => chars_eq(t, chars_of(lit).as_slice()),
        None => false,
    }
}

fn eval_exec(tree: &SyntaxTree, n: usize, log: &Vec<(Vec<char>, bool)>, commented: &Vec<Vec<char>>) -> (r: Option<bool>)
    requires
        n < tree@.nodes.len(),
    ensures
        r == eval(tree@, n as int, log_view(log@), names_view(commented@)),
    decreases tree@.end(n as int) - n,
{
    tree.assert_wf();
    let ghost t = tree@;
    if tree.kind_is(n, "boolean_literal") {
        if text_is(tree, n, "true") {
            Some(true)
        } else if text_is(tree, n, "false") {
            Some(false)
        } else {
            None
        }
    } else if tree.kind_is(n, "identifier") {
        match tree.text(n) {
            None => None,
            Some(name) => {
                assert(log_view(log@).len() == log@.len());
                match lookup(log, name) {
                    Some(v) => Some(v),
                    None => if names_contain(commented, name) {
                        Some(false)
                    } else {
                        None
                    },
                }
            },
        }
    } else if tree.kind_is(n, "parenthesized_expression") {
        match tree.first_named_child(n) {
            None => None,
            Some(c) => eval_exec(tree, c, log, commented),
        }
    } else if tree.kind_is(n, "unary_expression") {
        match (tree.field_child(n, "operator"), tree.field_child(n, "argument")) {
            (Some(op), Some(arg)) => {
                if !tree.kind_is(op, "!") {
                    None
                } else {
                    match eval_exec(tree, arg, log, commented) {
                        Some(v) => Some(!v),
                        None => None,
                    }
                }
            },
            _ => None,
        }
    } else if tree.kind_is(n, "binary_expression") {
        match (tree.field_child(n, "operator"), tree.field_child(n, "left"), tree.field_child(n, "right")) {
            (Some(op), Some(left), Some(right)) => {
                let l = eval_exec(tree, left, log, commented);
                let r = eval_exec(tree, right, log, commented);
                if tree.kind_is(op, "&&") {
                    if l == Some(false) || r == Some(false) {
                        Some(false)
                    } else if l.is_some() && r.is_some() {
                        Some(true)
                    } else {
                        None
                    }
                } else if tree.kind_is(op, "||") {
                    if l == Some(true) || r == Some(true) {
                        Some(true)
                    } else if l.is_some() && r.is_some() {
                        Some(false)
                    } else {
                        None
                    }
                } else if tree.kind_is(op, "==") {
                    match (l, r) {
                        (Some(a), Some(b)) => Some(a == b),
                        _ => None,
                    }
                } else if tree.kind_is(op, "!=") {
                    match (l, r) {
                        (Some(a), Some(b)) => Some(a != b),
                        _ => None,
                    }
                } else {
                    None
                }
            },
            _ => None,
        }
    } else {
        None
    }
}

fn in_body_exec(tree: &SyntaxTree, p: usize, k: usize, ex_a: Option<usize>, ex_b: Option<usize>) -> (r: bool)
    requires
        p < tree@.nodes.len(),
        k < tree@.children(p as int).len(),
    ensures
        r == in_body(tree@, p as int, k as int, opt_int(ex_a), opt_int(ex_b)),
{
    tree.assert_wf();
    proof {
        lemma_child_nested(tree@, p as int, k as int);
    }
    let c = tree.node(p).children[k];
    tree.is_named(c) && ex_a != Some(c) && ex_b != Some(c)
}

/// An optional node index as an integer.
pub open spec fn opt_int(o: Option<usize>) -> Option<int> {
    match o {
        Some(x) => Some(x as int),
        None => None,
    }
}

fn push_dead_exec(tree: &SyntaxTree, regions: &mut Vec<CSharpDeadCodeRegion>, log: &Vec<(Vec<char>, bool)>, p: usize, ex_a: Option<usize>, ex_b: Option<usize>)
    requires
        p < tree@.nodes.len(),
    ensures
        final(regions)@ == push_dead(tree@, CsState { log: log_view(log@), regions: old(regions)@ }, p as int, opt_int(ex_a), opt_int(ex_b)).regions,
{
    tree.assert_wf();
    let ghost t = tree@;
    let nc = tree.node(p).children.len();
    let mut k: usize = 0;
    while k < nc && !in_body_exec(tree, p, k, ex_a, ex_b)
        invariant
            t == tree@,
            t.wf(),
            p < t.nodes.len(),
            nc == t.children(p as int).len(),
            k <= nc,
            first_body(t, p as int, 0, opt_int(ex_a), opt_int(ex_b)) == first_body(t, p as int, k as int, opt_int(ex_a), opt_int(ex_b)),
        decreases nc - k,
    {
        k = k + 1;
    }
    if k >= nc {
        return ;
    }
    let mut e: usize = nc;
    while e > 0 && !in_body_exec(tree, p, e - 1, ex_a, ex_b)
        invariant
            t == tree@,
            t.wf(),
            p < t.nodes.len(),
            nc == t.children(p as int).len(),
            e <= nc,
            last_body(t, p as int, nc as int, opt_int(ex_a), opt_int(ex_b)) == last_body(t, p as int, e as int, opt_int(ex_a), opt_int(ex_b)),
        decreases e,
    {
        e = e - 1;
    }
    if e == 0 {
        return ;
    }
    proof {
        lemma_child_nested(t, p as int, k as int);
        lemma_child_nested(t, p as int, e - 1);
    }
    let f = tree.node(p).children[k];
    let l = tree.node(p).children[e - 1];
    proof {
        assert(t.node_wf(f as int));
        assert(t.node_wf(l as int));
    }
    regions.push(CSharpDeadCodeRegion { start_line: tree.node(f).start_row + 1, end_line: tree.node(l).end_row + 1 });
}

/// The executable scan state.
struct CsScan {
    log: Vec<(Vec<char>, bool)>,
    regions: Vec<CSharpDeadCodeRegion>,
}

impl CsScan {
    spec fn model(&self) -> CsState {
        CsState { log: log_view(self.log@), regions: self.regions@ }
    }
}

fn scan_siblings_exec(
    tree: &SyntaxTree,
    st: &mut CsScan,
    p: usize,
    ex_a: Option<usize>,
    ex_b: Option<usize>,
    top: bool,
    commented: &Vec<Vec<char>>,
)
    requires
        p < tree@.nodes.len(),
    ensures
        final(st).model() == scan_siblings(tree@, old(st).model(), p as int, 0, opt_int(ex_a), opt_int(ex_b), top, names_view(commented@)),
    decreases tree@.end(p as int) - p, 1int, 0int,
{
    tree.assert_wf();
    let ghost t = tree@;
    let ghost cv = names_view(commented@);
    let ghost goal = scan_siblings(t, st.model(), p as int, 0, opt_int(ex_a), opt_int(ex_b), top, cv);
    let nc = tree.node(p).children.len();
    let mut k: usize = 0;
    while k < nc
        invariant
            t == tree@,
            t.wf(),
            p < t.nodes.len(),
            nc == t.children(p as int).len(),
            k <= nc,
            cv == names_view(commented@),
            scan_siblings(t, st.model(), p as int, k as int, opt_int(ex_a), opt_int(ex_b), top, cv) == goal,
        decreases nc - k,
    {
        proof {
            lemma_child_nested(t, p as int, k as int);
        }
        let c = tree.node(p).children[k];
        if in_body_exec(tree, p, k, ex_a, ex_b) {
            scan_node_exec(tree, st, c, top, commented);
        }
        k = k + 1;
    }
}

fn scan_node_exec(tree: &SyntaxTree, st: &mut CsScan, c: usize, top: bool, commented: &Vec<Vec<char>>)
    requires
        c < tree@.nodes.len(),
    ensures
        final(st).model() == scan_node(tree@, old(st).model(), c as int, top, names_view(commented@)),
    decreases tree@.end(c as int) - c, 4int, 0int,
{
    tree.assert_wf();
    let is_define = tree.kind_is(c, "preproc_define");
    if is_define || tree.kind_is(c, "preproc_undef") {
        if top {
            match tree.first_named_child(c) {
                Some(arg) => match tree.text(arg) {
                    Some(text) => match first_ident(text) {
                        Some(name) => {
                            let ghost before = log_view(st.log@);
                            st.log.push((vstd::slice::slice_to_vec(name), is_define));
                            assert(log_view(st.log@) =~= before.push((name@, is_define)));
                        },
                        None => {},
                    },
                    None => {},
                },
                None => {},
            }
        }
    } else if tree.kind_is(c, "preproc_if") {
        scan_chain_exec(tree, st, c, top, false, commented);
    } else {
        scan_siblings_exec(tree, st, c, None, None, top, commented);
    }
}

fn scan_chain_exec(tree: &SyntaxTree, st: &mut CsScan, n: usize, top: bool, resolved: bool, commented: &Vec<Vec<char>>)
    requires
        n < tree@.nodes.len(),
    ensures
        final(st).model() == scan_chain(tree@, old(st).model(), n as int, top, resolved, names_view(commented@)),
    decreases tree@.end(n as int) - n, 3int, 0int,
{
    tree.assert_wf();
    let cond = tree.field_child(n, "condition");
    let alt = tree.field_child(n, "alternative");
    assert(opt_int(cond) == tree@.field_child(n as int, "condition"@));
    assert(opt_int(alt) == tree@.field_child(n as int, "alternative"@));
    let mut resolved2 = resolved;
    if resolved {
        push_dead_exec(tree, &mut st.regions, &st.log, n, cond, alt);
    } else {
        match cond {
            None => {
                scan_siblings_exec(tree, st, n, cond, alt, false, commented);
                resolved2 = false;
            },
            Some(cn) => match eval_exec(tree, cn, &st.log, commented) {
                Some(true) => {
                    scan_siblings_exec(tree, st, n, cond, alt, false, commented);
                    resolved2 = true;
                },
                Some(false) => {
                    push_dead_exec(tree, &mut st.regions, &st.log, n, cond, alt);
                    resolved2 = false;
                },
                None => {
                    scan_siblings_exec(tree, st, n, cond, alt, false, commented);
                    resolved2 = false;
                },
            },
        }
    }
    match alt {
        Some(a) => {
            scan_chain_exec(tree, st, a, top, resolved2, commented);
        },
        None => {},
    }
}

/// The dead regions of a parsed C# file (see the module documentation).
pub fn csharp_dead_code_regions_in(tree: &SyntaxTree) -> (r: Vec<CSharpDeadCodeRegion>)
    ensures
        r@ == spec_csharp_regions(tree@, commented_from(lines(tree@.source), 0)),
{
    tree.assert_wf();
    let text = crate::text::string_from_chars(tree.source());
    let commented = commented_out_define_names(text.as_str());
    regions_with(tree, &commented)
}

/// The dead regions of a parsed C# file, given the names that its text
/// `#define`s only inside comments.
fn regions_with(tree: &SyntaxTree, commented: &Vec<Vec<char>>) -> (r: Vec<CSharpDeadCodeRegion>)
    ensures
        r@ == spec_csharp_regions(tree@, names_view(commented@)),
{
    tree.assert_wf();
    let mut st = CsScan { log: Vec::new(), regions: Vec::new() };
    assert(st.model() == (CsState { log: Seq::empty(), regions: Seq::empty() })) by {
        assert(log_view(st.log@) =~= Seq::<(Seq<char>, bool)>::empty());
    }
    scan_siblings_exec(tree, &mut st, 0, None, None, true, commented);
    st.regions
}

/// Computes the dead-code regions of `source`, a C# file: those of its
/// parse. A file that is not UTF-8 is parsed as bytes (node texts only
/// where the bytes are valid UTF-8), and no name counts as `#define`d in a
/// comment. No regions when the grammar or the parse fails.
pub fn csharp_dead_code_regions(source: &[u8]) -> (r: Vec<CSharpDeadCodeRegion>)
    ensures
        !parse_succeeds(Grammar::CSharp, source@) ==> r@.len() == 0,
        parse_succeeds(Grammar::CSharp, source@) ==> exists|t: TreeModel|
            #[trigger] is_parse_of(t, Grammar::CSharp, source@) && r@ == (if valid_utf8(source@) {
                spec_csharp_regions(t, commented_from(lines(t.source), 0))
            } else {
                spec_csharp_regions(t, Seq::empty())
            }),
{
    match decode_utf8(source) {
        Some(text) => match parse_source(text, Grammar::CSharp) {
            Some(tree) => {
                tree.assert_wf();
                let r = csharp_dead_code_regions_in(&tree);
                proof {
                    lemma_texts_match_utf8(tree@);
                }
                assert(is_parse_of(tree@, Grammar::CSharp, source@));
                r
            },
            None => Vec::new(),
        },
        None => match parse_bytes(source, Grammar::CSharp) {
            Some(tree) => {
                tree.assert_wf();
                let none: Vec<Vec<char>> = Vec::new();
                let r = regions_with(&tree, &none);
                assert(names_view(none@) =~= Seq::<Seq<char>>::empty());
                assert(is_parse_of(tree@, Grammar::CSharp, source@));
                r
            },
            None => Vec::new(),
        },
    }
}

} // verus!
