//! Interrupt-handler (ISR) detection for C/C++.
//!
//! A function definition is reported only on real syntactic evidence: a
//! GNU `__attribute__((interrupt))` / `__attribute__((interrupt("...")))`,
//! a C23 `[[...::interrupt]]` attribute, or a macro-invocation-shaped
//! definition such as AVR-libc's `ISR(vector) { ... }`. Names alone
//! (`isr`, `irq`, ...) are never evidence. Every macro-shaped definition is
//! reported with its macro name; deciding which macro names mean
//! "interrupt handler" is left to the caller.

use vstd::prelude::*;
use crate::calls::{get_function_name, spec_function_name};
use crate::query::{find_descendants_of_kind, lemma_matching_upto_bounds, matching_upto, node_text};
use crate::suppressions::opt_str_view;
use crate::syntax::{SyntaxTree, TreeModel, lemma_child_nested};
use crate::text::str_eq;

verus! {

/// Why a function definition was identified as an interrupt handler.
#[derive(Debug, Clone, PartialEq, Eq)]
pub enum InterruptEvidence {
    /// `__attribute__((interrupt))` or `__attribute__((interrupt("...")))`.
    GnuAttribute {
        /// Always `"interrupt"`.
        attribute_name: String,
    },
    /// A C23 `[[...]]` attribute named `interrupt`, e.g. `[[gnu::interrupt]]`.
    C23Attribute {
        /// The attribute's namespace prefix (`Some("gnu")`), if any.
        prefix: Option<String>,
        /// Always `"interrupt"`.
        name: String,
    },
    /// A macro-invocation-shaped function definition, e.g.
    /// `ISR(TIMER1_COMPA_vect) { ... }`: the macro name sits in the `type`
    /// field and the declarator is parenthesized.
    MacroInvocation {
        /// The macro name, e.g. `"ISR"`.
        macro_name: String,
    },
}

/// The mathematical content of an [`InterruptEvidence`].
pub enum EvidenceModel {
    GnuAttribute { attribute_name: Seq<char> },
    C23Attribute { prefix: Option<Seq<char>>, name: Seq<char> },
    MacroInvocation { macro_name: Seq<char> },
}

impl View for InterruptEvidence {
    type V = EvidenceModel;

    open spec fn view(&self) -> EvidenceModel {
        match self {
            InterruptEvidence::GnuAttribute { attribute_name } => EvidenceModel::GnuAttribute {
                attribute_name: attribute_name@,
            },
            InterruptEvidence::C23Attribute { prefix, name } => EvidenceModel::C23Attribute {
                prefix: opt_str_view(*prefix),
                name: name@,
            },
            InterruptEvidence::MacroInvocation { macro_name } => EvidenceModel::MacroInvocation {
                macro_name: macro_name@,
            },
        }
    }
}

/// One function definition identified as an interrupt handler.
#[derive(Debug, PartialEq, Eq)]
pub struct InterruptHandler {
    /// The handler's name when resolvable; always `None` for a
    /// macro-shaped definition, which has no `name` field.
    pub name: Option<String>,
    /// Byte range of the `function_definition` node.
    pub node_range: (usize, usize),
    /// The evidence that identified it.
    pub evidence: InterruptEvidence,
}

/// The mathematical content of an [`InterruptHandler`].
pub struct InterruptHandlerModel {
    pub name: Option<Seq<char>>,
    pub node_range: (usize, usize),
    pub evidence: EvidenceModel,
}

impl View for InterruptHandler {
    type V = InterruptHandlerModel;

    open spec fn view(&self) -> InterruptHandlerModel {
        InterruptHandlerModel { name: opt_str_view(self.name), node_range: self.node_range, evidence: self.evidence@ }
    }
}

impl Clone for InterruptHandler {
    fn clone(&self) -> (r: Self) {
        InterruptHandler {
            name: self.name.clone(),
            node_range: (self.node_range.0, self.node_range.1),
            evidence: self.evidence.clone(),
        }
    }
}

/// The views of a list of handlers.
pub open spec fn handlers_view(v: Seq<InterruptHandler>) -> Seq<InterruptHandlerModel> {
    v.map_values(|h: InterruptHandler| h@)
}

/// The name an argument of a GNU attribute gives: an identifier's text, or
/// the text of a call's `function` field.
pub open spec fn gnu_name(t: TreeModel, c: int) -> Option<Seq<char>> {
    if t.kind(c) == "identifier"@ {
        Some(t.text_or_empty(c))
    } else if t.kind(c) == "call_expression"@ {
        match t.field_child(c, "function"@) {
            Some(f) => Some(t.text_or_empty(f)),
            None => None,
        }
    } else {
        None
    }
}

/// Some named child of `a`, from child position `k` on, names `interrupt`.
pub open spec fn names_interrupt_from(t: TreeModel, a: int, k: int) -> bool
    decreases t.children(a).len() - k,
{
    if k < 0 || k >= t.children(a).len() {
        false
    } else {
        let c = t.children(a)[k] as int;
        if t.nodes[c].named && gnu_name(t, c) == Some("interrupt"@) {
            true
        } else {
            names_interrupt_from(t, a, k + 1)
        }
    }
}

/// The first node of kind `kind` among `j..end(root)`, in pre-order.
pub open spec fn first_of_kind_from(t: TreeModel, root: int, kind: Seq<char>, j: int) -> Option<int>
    decreases t.end(root) - j,
{
    if j >= t.end(root) {
        None
    } else if t.kind(j) == kind {
        Some(j)
    } else {
        first_of_kind_from(t, root, kind, j + 1)
    }
}

/// Evidence from a GNU `attribute_specifier`: its first `argument_list`
/// names `interrupt`.
pub open spec fn gnu_attribute_evidence(t: TreeModel, s: int) -> Option<EvidenceModel> {
    match first_of_kind_from(t, s, "argument_list"@, s) {
        Some(a) => if names_interrupt_from(t, a, 0) {
            Some(EvidenceModel::GnuAttribute { attribute_name: "interrupt"@ })
        } else {
            None
        },
        None => None,
    }
}

/// Evidence from the first of the `attribute` nodes `attrs[k..]` whose
/// `name` field reads `interrupt`.
pub open spec fn c23_from(t: TreeModel, attrs: Seq<usize>, k: int) -> Option<EvidenceModel>
    decreases attrs.len() - k,
{
    if k < 0 || k >= attrs.len() {
        None
    } else {
        let a = attrs[k] as int;
        match t.field_child(a, "name"@) {
            Some(nn) => if t.text_or_empty(nn) == "interrupt"@ {
                Some(
                    EvidenceModel::C23Attribute {
                        prefix: match t.field_child(a, "prefix"@) {
                            Some(p) => Some(t.text_or_empty(p)),
                            None => None,
                        },
                        name: "interrupt"@,
                    },
                )
            } else {
                c23_from(t, attrs, k + 1)
            },
            None => c23_from(t, attrs, k + 1),
        }
    }
}

/// The `attribute` descendants of `d` (itself included), in pre-order.
pub open spec fn attributes_in(t: TreeModel, d: int) -> Seq<usize> {
    matching_upto(d, t.end(d), |i: int| t.kind(i) == "attribute"@)
}

/// Evidence from a C23 `attribute_declaration`.
pub open spec fn c23_attribute_evidence(t: TreeModel, d: int) -> Option<EvidenceModel> {
    c23_from(t, attributes_in(t, d), 0)
}

/// Attribute evidence among the children of `f` from position `k` on.
pub open spec fn attribute_evidence_from(t: TreeModel, f: int, k: int) -> Option<EvidenceModel>
    decreases t.children(f).len() - k,
{
    if k < 0 || k >= t.children(f).len() {
        None
    } else {
        let c = t.children(f)[k] as int;
        if t.kind(c) == "attribute_specifier"@ {
            match gnu_attribute_evidence(t, c) {
                Some(e) => Some(e),
                None => attribute_evidence_from(t, f, k + 1),
            }
        } else if t.kind(c) == "attribute_declaration"@ {
            match c23_attribute_evidence(t, c) {
                Some(e) => Some(e),
                None => attribute_evidence_from(t, f, k + 1),
            }
        } else {
            attribute_evidence_from(t, f, k + 1)
        }
    }
}

/// Evidence from a macro-invocation shape: a parenthesized declarator and
/// the macro name in the `type` field.
pub open spec fn macro_evidence(t: TreeModel, f: int) -> Option<EvidenceModel> {
    match t.field_child(f, "declarator"@) {
        Some(d) => if t.kind(d) != "parenthesized_declarator"@ {
            None
        } else {
            match t.field_child(f, "type"@) {
                Some(ty) => Some(EvidenceModel::MacroInvocation { macro_name: t.text_or_empty(ty) }),
                None => None,
            }
        },
        None => None,
    }
}

/// The evidence for `f`: attribute evidence first, else macro shape.
pub open spec fn evidence_of(t: TreeModel, f: int) -> Option<EvidenceModel> {
    match attribute_evidence_from(t, f, 0) {
        Some(e) => Some(e),
        None => macro_evidence(t, f),
    }
}

/// The handler record of function definition `f`, when it has evidence.
pub open spec fn handler_of(t: TreeModel, f: int) -> Option<InterruptHandlerModel> {
    match evidence_of(t, f) {
        Some(e) => Some(
            InterruptHandlerModel {
                name: spec_function_name(t, f),
                node_range: (t.nodes[f].start_byte, t.nodes[f].end_byte),
                evidence: e,
            },
        ),
        None => None,
    }
}

/// The handler records of the function definitions `fs[0..n]`, in order.
pub open spec fn handlers_upto(t: TreeModel, fs: Seq<usize>, n: int) -> Seq<InterruptHandlerModel>
    decreases n,
{
    if n <= 0 {
        Seq::empty()
    } else {
        match handler_of(t, fs[n - 1] as int) {
            Some(h) => handlers_upto(t, fs, n - 1).push(h),
            None => handlers_upto(t, fs, n - 1),
        }
    }
}

/// The `function_definition` descendants of `root` (itself included).
pub open spec fn function_definitions(t: TreeModel, root: int) -> Seq<usize> {
    matching_upto(root, t.end(root), |i: int| t.kind(i) == "function_definition"@)
}

/// The interrupt handlers under `root`, in pre-order.
pub open spec fn spec_interrupt_handlers(t: TreeModel, root: int) -> Seq<InterruptHandlerModel> {
    let fs = function_definitions(t, root);
    handlers_upto(t, fs, fs.len() as int)
}

fn text_is(tree: &SyntaxTree, n: usize, lit: &str) -> (r: bool)
    requires
        n < tree@.nodes.len(),
    ensures
        r == (tree@.text_or_empty(n as int) == lit@),
{
    let s = node_text(tree, n);
    str_eq(s.as_str(), lit)
}

fn names_interrupt(tree: &SyntaxTree, a: usize) -> (r: bool)
    requires
        a < tree@.nodes.len(),
    ensures
        r == names_interrupt_from(tree@, a as int, 0),
{
    tree.assert_wf();
    let ghost t = tree@;
    let nc = tree.node(a).children.len();
    let mut k: usize = 0;
    while k < nc
        invariant
            t == tree@,
            t.wf(),
            a < t.nodes.len(),
            nc == t.children(a as int).len(),
            k <= nc,
            names_interrupt_from(t, a as int, 0) == names_interrupt_from(t, a as int, k as int),
        decreases nc - k,
    {
        proof {
            lemma_child_nested(t, a as int, k as int);
        }
        let c = tree.node(a).children[k];
        if tree.is_named(c) {
            let hit = if tree.kind_is(c, "identifier") {
                text_is(tree, c, "interrupt")
            } else if tree.kind_is(c, "call_expression") {
                match tree.field_child(c, "function") {
                    Some(f) => text_is(tree, f, "interrupt"),
                    None => false,
                }
            } else {
                false
            };
            if hit {
                return true;
            }
        }
        k = k + 1;
    }
    false
}

fn first_of_kind(tree: &SyntaxTree, root: usize, kind: &str) -> (r: Option<usize>)
    requires
        root < tree@.nodes.len(),
    ensures
        match r {
            Some(x) => first_of_kind_from(tree@, root as int, kind@, root as int) == Some(x as int),
            None => first_of_kind_from(tree@, root as int, kind@, root as int) is None,
        },
        r matches Some(x) ==> x < tree@.nodes.len(),
{
    tree.assert_wf();
    let ghost t = tree@;
    let end = tree.end(root);
    let mut j = root;
    while j < end
        invariant
            t == tree@,
            end == t.end(root as int),
            end <= t.nodes.len(),
            root <= j <= end,
            first_of_kind_from(t, root as int, kind@, root as int) == first_of_kind_from(t, root as int, kind@, j as int),
        decreases end - j,
    {
        if tree.kind_is(j, kind) {
            return Some(j);
        }
        j = j + 1;
    }
    None
}

fn gnu_attribute_evidence_exec(tree: &SyntaxTree, s: usize) -> (r: Option<InterruptEvidence>)
    requires
        s < tree@.nodes.len(),
    ensures
        match r {
            Some(e) => gnu_attribute_evidence(tree@, s as int) == Some(e@),
            None => gnu_attribute_evidence(tree@, s as int) is None,
        },
{
    match first_of_kind(tree, s, "argument_list") {
        Some(a) => {
            if names_interrupt(tree, a) {
                let name = "interrupt".to_owned();
                Some(InterruptEvidence::GnuAttribute { attribute_name: name })
            } else {
                None
            }
        },
        None => None,
    }
}

fn c23_attribute_evidence_exec(tree: &SyntaxTree, d: usize) -> (r: Option<InterruptEvidence>)
    requires
        d < tree@.nodes.len(),
    ensures
        match r {
            Some(e) => c23_attribute_evidence(tree@, d as int) == Some(e@),
            None => c23_attribute_evidence(tree@, d as int) is None,
        },
{
    tree.assert_wf();
    let ghost t = tree@;
    let count = tree.len();
    let attrs = find_descendants_of_kind(tree, d, "attribute");
    assert(attrs@ == attributes_in(t, d as int)) by {
        assert((|i: int| t.kind(i) == "attribute"@) =~= (|i: int| tree@.kind(i) == "attribute"@));
    }
    proof {
        lemma_matching_upto_bounds(d as int, t.end(d as int), |i: int| t.kind(i) == "attribute"@);
        assert(t.node_wf(d as int));
    }
    let mut k: usize = 0;
    while k < attrs.len()
        invariant
            t == tree@,
            t.wf(),
            d < t.nodes.len(),
            attrs@ == attributes_in(t, d as int),
            forall|j: int| 0 <= j < attrs@.len() ==> (#[trigger] attrs@[j]) < t.nodes.len(),
            k <= attrs.len(),
            c23_from(t, attrs@, 0) == c23_from(t, attrs@, k as int),
        decreases attrs.len() - k,
    {
        let a = attrs[k];
        match tree.field_child(a, "name") {
            Some(nn) => {
                if text_is(tree, nn, "interrupt") {
                    let prefix = match tree.field_child(a, "prefix") {
                        Some(p) => Some(node_text(tree, p)),
                        None => None,
                    };
                    let name = "interrupt".to_owned();
                    return Some(InterruptEvidence::C23Attribute { prefix, name });
                }
            },
            None => {},
        }
        k = k + 1;
    }
    None
}

fn attribute_evidence(tree: &SyntaxTree, f: usize) -> (r: Option<InterruptEvidence>)
    requires
        f < tree@.nodes.len(),
    ensures
        match r {
            Some(e) => attribute_evidence_from(tree@, f as int, 0) == Some(e@),
            None => attribute_evidence_from(tree@, f as int, 0) is None,
        },
{
    tree.assert_wf();
    let ghost t = tree@;
    let nc = tree.node(f).children.len();
    let mut k: usize = 0;
    while k < nc
        invariant
            t == tree@,
            t.wf(),
            f < t.nodes.len(),
            nc == t.children(f as int).len(),
            k <= nc,
            attribute_evidence_from(t, f as int, 0) == attribute_evidence_from(t, f as int, k as int),
        decreases nc - k,
    {
        proof {
            lemma_child_nested(t, f as int, k as int);
        }
        let c = tree.node(f).children[k];
        if tree.kind_is(c, "attribute_specifier") {
            match gnu_attribute_evidence_exec(tree, c) {
                Some(e) => {
                    return Some(e);
                },
                None => {},
            }
        } else if tree.kind_is(c, "attribute_declaration") {
            match c23_attribute_evidence_exec(tree, c) {
                Some(e) => {
                    return Some(e);
                },
                None => {},
            }
        }
        k = k + 1;
    }
    None
}

fn macro_evidence_exec(tree: &SyntaxTree, f: usize) -> (r: Option<InterruptEvidence>)
    requires
        f < tree@.nodes.len(),
    ensures
        match r {
            Some(e) => macro_evidence(tree@, f as int) == Some(e@),
            None => macro_evidence(tree@, f as int) is None,
        },
{
    let d = match tree.field_child(f, "declarator") {
        Some(d) => d,
        None => {
            return None;
        },
    };
    if !tree.kind_is(d, "parenthesized_declarator") {
        return None;
    }
    match tree.field_child(f, "type") {
        Some(ty) => Some(InterruptEvidence::MacroInvocation { macro_name: node_text(tree, ty) }),
        None => None,
    }
}

/// Finds every function definition under `root` (itself included)
/// carrying syntactic evidence of being an interrupt handler, in
/// pre-order: attribute evidence when present, else a macro-invocation
/// shape.
pub fn interrupt_handlers(tree: &SyntaxTree, root: usize) -> (r: Vec<InterruptHandler>)
    requires
        root < tree@.nodes.len(),
    ensures
        handlers_view(r@) == spec_interrupt_handlers(tree@, root as int),
{
    tree.assert_wf();
    let ghost t = tree@;
    let count = tree.len();
    let fs = find_descendants_of_kind(tree, root, "function_definition");
    assert(fs@ == function_definitions(t, root as int)) by {
        assert((|i: int| t.kind(i) == "function_definition"@) =~= (|i: int| tree@.kind(i) == "function_definition"@));
    }
    proof {
        lemma_matching_upto_bounds(root as int, t.end(root as int), |i: int| t.kind(i) == "function_definition"@);
        assert(t.node_wf(root as int));
    }
    let mut out: Vec<InterruptHandler> = Vec::new();
    let mut k: usize = 0;
    while k < fs.len()
        invariant
            t == tree@,
            t.wf(),
            fs@ == function_definitions(t, root as int),
            forall|j: int| 0 <= j < fs@.len() ==> (#[trigger] fs@[j]) < t.nodes.len(),
            k <= fs.len(),
            handlers_view(out@) == handlers_upto(t, fs@, k as int),
        decreases fs.len() - k,
    {
        let func = fs[k];
        let evidence = match attribute_evidence(tree, func) {
            Some(e) => Some(e),
            None => macro_evidence_exec(tree, func),
        };
        match evidence {
            Some(e) => {
                let h = InterruptHandler {
                    name: get_function_name(tree, func),
                    node_range: (tree.start_byte(func), tree.end_byte(func)),
                    evidence: e,
                };
                let ghost before = out@;
                out.push(h);
                assert(handlers_view(out@) =~= handlers_view(before).push(h@));
            },
            None => {},
        }
        k = k + 1;
    }
    out
}

/// An argument of a GNU attribute that reads `interrupt`: the identifier
/// `interrupt`, or a call whose function is `interrupt`.
pub open spec fn reads_interrupt(t: TreeModel, c: int) -> bool {
    ||| t.kind(c) == "identifier"@ && t.text_or_empty(c) == "interrupt"@
    ||| t.kind(c) == "call_expression"@ && (t.field_child(c, "function"@) matches Some(f) && t.text_or_empty(f)
        == "interrupt"@)
}

proof fn lemma_reads_interrupt(t: TreeModel, c: int)
    ensures
        reads_interrupt(t, c) <==> gnu_name(t, c) == Some("interrupt"@),
{
    reveal_strlit("identifier");
    reveal_strlit("call_expression");
    assert("identifier"@.len() != "call_expression"@.len());
}

proof fn lemma_names_interrupt_from(t: TreeModel, a: int, k: int)
    requires
        0 <= k,
    ensures
        names_interrupt_from(t, a, k) <==> exists|j: int|
            k <= j < t.children(a).len() && t.nodes[t.children(a)[j] as int].named && #[trigger] reads_interrupt(
                t,
                t.children(a)[j] as int,
            ),
    decreases t.children(a).len() - k,
{
    if k < t.children(a).len() {
        lemma_names_interrupt_from(t, a, k + 1);
        let c = t.children(a)[k] as int;
        lemma_reads_interrupt(t, c);
        if t.nodes[c].named && gnu_name(t, c) == Some("interrupt"@) {
            assert(reads_interrupt(t, c));
        }
        if names_interrupt_from(t, a, k + 1) {
        } else if exists|j: int|
            k <= j < t.children(a).len() && t.nodes[t.children(a)[j] as int].named && #[trigger] reads_interrupt(
                t,
                t.children(a)[j] as int,
            ) {
            let j = choose|j: int|
                k <= j < t.children(a).len() && t.nodes[t.children(a)[j] as int].named && #[trigger] reads_interrupt(
                    t,
                    t.children(a)[j] as int,
                );
            assert(j == k);
        }
    }
}

/// A GNU `attribute_specifier` is interrupt evidence exactly when some
/// named argument of its argument list, at any position, is the identifier
/// `interrupt` or a call whose function is `interrupt`; the evidence then
/// names the `interrupt` attribute.
pub proof fn gnu_evidence_is_any_interrupt_argument(t: TreeModel, s: int)
    ensures
        gnu_attribute_evidence(t, s) is Some <==> (first_of_kind_from(t, s, "argument_list"@, s) matches Some(a)
            && exists|j: int|
            0 <= j < t.children(a).len() && t.nodes[t.children(a)[j] as int].named && #[trigger] reads_interrupt(
                t,
                t.children(a)[j] as int,
            )),
        gnu_attribute_evidence(t, s) matches Some(e) ==> e == (EvidenceModel::GnuAttribute {
            attribute_name: "interrupt"@,
        }),
{
    if let Some(a) = first_of_kind_from(t, s, "argument_list"@, s) {
        lemma_names_interrupt_from(t, a, 0);
    }
}

} // verus!
