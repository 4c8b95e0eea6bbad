//! Call-graph edge extraction.
//!
//! Records, for every named function or macro of a file, each call target
//! its body names, and whether that target is one of the file's own
//! function/macro names. The call-node vocabulary (`call_expression`,
//! `call`, `method_invocation`, ...) is shared across enough grammars that
//! one generic walk covers every language, without a per-language table.
//!
//! No cross-file resolution happens here: `is_external` only means "not one
//! of the names this file itself defines".

use vstd::prelude::*;
use crate::regions::strings_view;
use crate::syntax::{
    SyntaxTree, TreeModel, lemma_child_nested, lemma_child_of_kinds_nested,
    lemma_field_child_nested,
};
use crate::text::{chars_eq, chars_of, str_eq, string_from_chars};

verus! {

/// One call site: `caller` (a function/macro name defined in this file)
/// invoked `callee`. `is_external` is true when `callee` is not among the
/// function/macro names this file defines.
#[derive(Debug, Clone, PartialEq, Eq)]
pub struct CallEdge {
    pub caller: String,
    pub callee: String,
    pub is_external: bool,
}

/// The mathematical content of a [`CallEdge`].
pub struct CallEdgeModel {
    pub caller: Seq<char>,
    pub callee: Seq<char>,
    pub is_external: bool,
}

impl View for CallEdge {
    type V = CallEdgeModel;

    open spec fn view(&self) -> CallEdgeModel {
        CallEdgeModel { caller: self.caller@, callee: self.callee@, is_external: self.is_external }
    }
}

/// Whether `kind` is a function-like node this module treats as a
/// potential call-graph caller.
pub open spec fn spec_is_function_kind(k: Seq<char>) -> bool {
    ||| k == "function_definition"@
    ||| k == "function_item"@
    ||| k == "function_declaration"@
    ||| k == "function_expression"@
    ||| k == "arrow_function"@
    ||| k == "method_definition"@
    ||| k == "generator_function_declaration"@
    ||| k == "generator_function"@
    ||| k == "subprogram_body"@
    ||| k == "expression_function_declaration"@
    ||| k == "task_body"@
    ||| k == "method_declaration"@
    ||| k == "func_literal"@
    ||| k == "constructor_declaration"@
    ||| k == "local_function_statement"@
    ||| k == "init_declaration"@
    ||| k == "function"@
    ||| k == "subroutine"@
    ||| k == "module_procedure"@
    ||| k == "program"@
}

/// Returns `true` if `kind` is a function-like node this module treats as a
/// potential call-graph caller.
pub fn is_function_kind(kind: &str) -> (r: bool)
    ensures
        r == spec_is_function_kind(kind@),
{
    str_eq(kind, "function_definition") || str_eq(kind, "function_item") || str_eq(
        kind,
        "function_declaration",
    ) || str_eq(kind, "function_expression") || str_eq(kind, "arrow_function") || str_eq(
        kind,
        "method_definition",
    ) || str_eq(kind, "generator_function_declaration") || str_eq(kind, "generator_function")
        || str_eq(kind, "subprogram_body") || str_eq(kind, "expression_function_declaration")
        || str_eq(kind, "task_body") || str_eq(kind, "method_declaration") || str_eq(
        kind,
        "func_literal",
    ) || str_eq(kind, "constructor_declaration") || str_eq(kind, "local_function_statement")
        || str_eq(kind, "init_declaration") || str_eq(kind, "function") || str_eq(
        kind,
        "subroutine",
    ) || str_eq(kind, "module_procedure") || str_eq(kind, "program")
}

/// A C function-like macro parsed as a `function_definition` (its
/// declarator is parenthesized).
pub open spec fn is_macro_function_definition(t: TreeModel, n: int) -> bool {
    &&& t.kind(n) == "function_definition"@
    &&& t.field_child(n, "declarator"@) matches Some(d) && t.kind(d) == "parenthesized_declarator"@
}

fn is_macro_function_definition_exec(tree: &SyntaxTree, n: usize) -> (r: bool)
    requires
        n < tree@.nodes.len(),
    ensures
        r == is_macro_function_definition(tree@, n as int),
{
    if !tree.kind_is(n, "function_definition") {
        return false;
    }
    match tree.field_child(n, "declarator") {
        Some(d) => tree.kind_is(d, "parenthesized_declarator"),
        None => false,
    }
}

/// A node that can be a caller: function-like, and not a macro.
pub open spec fn is_function_node(t: TreeModel, n: int) -> bool {
    spec_is_function_kind(t.kind(n)) && !is_macro_function_definition(t, n)
}

fn is_function_node_exec(tree: &SyntaxTree, n: usize) -> (r: bool)
    requires
        n < tree@.nodes.len(),
    ensures
        r == is_function_node(tree@, n as int),
{
    is_function_kind(tree.node(n).kind.as_str()) && !is_macro_function_definition_exec(tree, n)
}

/// The text of `n`'s `field` child, when it has one with text.
pub open spec fn field_text(t: TreeModel, n: int, field: Seq<char>) -> Option<Seq<char>> {
    match t.field_child(n, field) {
        Some(c) => t.text(c),
        None => None,
    }
}

pub(crate) fn field_text_exec(tree: &SyntaxTree, n: usize, field: &str) -> (r: Option<String>)
    requires
        n < tree@.nodes.len(),
    ensures
        match r {
            Some(s) => field_text(tree@, n as int, field@) == Some(s@),
            None => field_text(tree@, n as int, field@) is None,
        },
{
    match tree.field_child(n, field) {
        Some(c) => text_exec(tree, c),
        None => None,
    }
}

/// The text of node `n`, as an owned string.
fn text_exec(tree: &SyntaxTree, n: usize) -> (r: Option<String>)
    requires
        n < tree@.nodes.len(),
    ensures
        match r {
            Some(s) => tree@.text(n as int) == Some(s@),
            None => tree@.text(n as int) is None,
        },
{
    match tree.text(n) {
        Some(t) => Some(string_from_chars(t)),
        None => None,
    }
}

/// The text of `n`'s first child of kind `kind`, when it has one with text.
pub open spec fn kind_child_text(t: TreeModel, n: int, kind: Seq<char>) -> Option<Seq<char>> {
    match t.child_of_kinds(n, seq![kind]) {
        Some(c) => t.text(c),
        None => None,
    }
}

/// The `name` field text of `n`'s first child of kind `kind`.
pub open spec fn name_in_child(t: TreeModel, n: int, kind: Seq<char>) -> Option<Seq<char>> {
    match t.child_of_kinds(n, seq![kind]) {
        Some(c) => field_text(t, c, "name"@),
        None => None,
    }
}

/// A declarator name node kind.
pub open spec fn is_declarator_name_kind(k: Seq<char>) -> bool {
    ||| k == "identifier"@
    ||| k == "qualified_identifier"@
    ||| k == "destructor_name"@
    ||| k == "operator_name"@
    ||| k == "field_identifier"@
}

/// The name a C/C++ declarator `n` declares, searching its children from
/// position `k`: the first name node's text, or the first name found
/// inside a nested pointer or function declarator.
pub open spec fn declarator_name(t: TreeModel, n: int, k: int) -> Option<Seq<char>>
    decreases t.end(n) - n, t.children(n).len() - k,
    when t.wf() && t.valid(n) && k >= 0
{
    if k >= t.children(n).len() {
        None
    } else {
        proof {
            lemma_child_nested(t, n, k);
        }
        let c = t.children(n)[k] as int;
        if is_declarator_name_kind(t.kind(c)) {
            t.text(c)
        } else if t.kind(c) == "pointer_declarator"@ || t.kind(c) == "function_declarator"@ {
            match declarator_name(t, c, 0) {
                Some(name) => Some(name),
                None => declarator_name(t, n, k + 1),
            }
        } else {
            declarator_name(t, n, k + 1)
        }
    }
}

/// The function name under pointer declarator `n`, searching its children
/// from position `k`: a `function_declarator` child decides; a nested
/// pointer declarator is searched first.
pub open spec fn pointer_declarator_name(t: TreeModel, n: int, k: int) -> Option<Seq<char>>
    decreases t.end(n) - n, t.children(n).len() - k,
    when t.wf() && t.valid(n) && k >= 0
{
    if k >= t.children(n).len() {
        None
    } else {
        proof {
            lemma_child_nested(t, n, k);
        }
        let c = t.children(n)[k] as int;
        if t.kind(c) == "function_declarator"@ {
            declarator_name(t, c, 0)
        } else if t.kind(c) == "pointer_declarator"@ {
            match pointer_declarator_name(t, c, 0) {
                Some(name) => Some(name),
                None => pointer_declarator_name(t, n, k + 1),
            }
        } else {
            pointer_declarator_name(t, n, k + 1)
        }
    }
}

/// The C-style name of function node `n`, searching its children from
/// position `k`.
pub open spec fn c_name(t: TreeModel, n: int, k: int) -> Option<Seq<char>>
    decreases t.children(n).len() - k,
    when t.wf() && t.valid(n) && k >= 0
{
    if k >= t.children(n).len() {
        None
    } else {
        proof {
            lemma_child_nested(t, n, k);
        }
        let c = t.children(n)[k] as int;
        if t.kind(c) == "function_declarator"@ {
            declarator_name(t, c, 0)
        } else if t.kind(c) == "pointer_declarator"@ {
            match pointer_declarator_name(t, c, 0) {
                Some(name) => Some(name),
                None => c_name(t, n, k + 1),
            }
        } else {
            c_name(t, n, k + 1)
        }
    }
}

fn declarator_name_exec(tree: &SyntaxTree, n: usize) -> (r: Option<String>)
    requires
        n < tree@.nodes.len(),
    ensures
        match r {
            Some(s) => declarator_name(tree@, n as int, 0) == Some(s@),
            None => declarator_name(tree@, n as int, 0) is None,
        },
    decreases tree@.end(n as int) - n,
{
    tree.assert_wf();
    let nc = tree.node(n).children.len();
    let mut k: usize = 0;
    while k < nc
        invariant
            tree@.wf(),
            n < tree@.nodes.len(),
            nc == tree@.children(n as int).len(),
            k <= nc,
            declarator_name(tree@, n as int, 0) == declarator_name(tree@, n as int, k as int),
        decreases nc - k,
    {
        let c = tree.node(n).children[k];
        proof {
            lemma_child_nested(tree@, n as int, k as int);
        }
        if tree.kind_is(c, "identifier") || tree.kind_is(c, "qualified_identifier") || tree.kind_is(
            c,
            "destructor_name",
        ) || tree.kind_is(c, "operator_name") || tree.kind_is(c, "field_identifier") {
            return text_exec(tree, c);
        }
        if tree.kind_is(c, "pointer_declarator") || tree.kind_is(c, "function_declarator") {
            match declarator_name_exec(tree, c) {
                Some(name) => {
                    return Some(name);
                },
                None => {},
            }
        }
        k = k + 1;
    }
    None
}

fn pointer_declarator_name_exec(tree: &SyntaxTree, n: usize) -> (r: Option<String>)
    requires
        n < tree@.nodes.len(),
    ensures
        match r {
            Some(s) => pointer_declarator_name(tree@, n as int, 0) == Some(s@),
            None => pointer_declarator_name(tree@, n as int, 0) is None,
        },
    decreases tree@.end(n as int) - n,
{
    tree.assert_wf();
    let nc = tree.node(n).children.len();
    let mut k: usize = 0;
    while k < nc
        invariant
            tree@.wf(),
            n < tree@.nodes.len(),
            nc == tree@.children(n as int).len(),
            k <= nc,
            pointer_declarator_name(tree@, n as int, 0) == pointer_declarator_name(tree@, n as int, k as int),
        decreases nc - k,
    {
        let c = tree.node(n).children[k];
        proof {
            lemma_child_nested(tree@, n as int, k as int);
        }
        if tree.kind_is(c, "function_declarator") {
            return declarator_name_exec(tree, c);
        }
        if tree.kind_is(c, "pointer_declarator") {
            match pointer_declarator_name_exec(tree, c) {
                Some(name) => {
                    return Some(name);
                },
                None => {},
            }
        }
        k = k + 1;
    }
    None
}

fn c_name_exec(tree: &SyntaxTree, n: usize) -> (r: Option<String>)
    requires
        n < tree@.nodes.len(),
    ensures
        match r {
            Some(s) => c_name(tree@, n as int, 0) == Some(s@),
            None => c_name(tree@, n as int, 0) is None,
        },
{
    tree.assert_wf();
    let nc = tree.node(n).children.len();
    let mut k: usize = 0;
    while k < nc
        invariant
            tree@.wf(),
            n < tree@.nodes.len(),
            nc == tree@.children(n as int).len(),
            k <= nc,
            c_name(tree@, n as int, 0) == c_name(tree@, n as int, k as int),
        decreases nc - k,
    {
        let c = tree.node(n).children[k];
        proof {
            lemma_child_nested(tree@, n as int, k as int);
        }
        if tree.kind_is(c, "function_declarator") {
            return declarator_name_exec(tree, c);
        }
        if tree.kind_is(c, "pointer_declarator") {
            match pointer_declarator_name_exec(tree, c) {
                Some(name) => {
                    return Some(name);
                },
                None => {},
            }
        }
        k = k + 1;
    }
    None
}

/// The first named child of `n` whose kind is `kind`, from child position
/// `k` on.
pub open spec fn named_child_of_kind_from(t: TreeModel, n: int, kind: Seq<char>, k: int) -> Option<int>
    decreases t.children(n).len() - k,
{
    if k < 0 || k >= t.children(n).len() {
        None
    } else {
        let c = t.children(n)[k] as int;
        if t.nodes[c].named && t.kind(c) == kind {
            Some(c)
        } else {
            named_child_of_kind_from(t, n, kind, k + 1)
        }
    }
}

fn named_child_of_kind(tree: &SyntaxTree, n: usize, kind: &str) -> (r: Option<usize>)
    requires
        n < tree@.nodes.len(),
    ensures
        match r {
            Some(c) => named_child_of_kind_from(tree@, n as int, kind@, 0) == Some(c as int),
            None => named_child_of_kind_from(tree@, n as int, kind@, 0) is None,
        },
        r matches Some(c) ==> c < tree@.nodes.len(),
{
    tree.assert_wf();
    let nc = tree.node(n).children.len();
    let mut k: usize = 0;
    while k < nc
        invariant
            tree@.wf(),
            n < tree@.nodes.len(),
            nc == tree@.children(n as int).len(),
            k <= nc,
            named_child_of_kind_from(tree@, n as int, kind@, 0) == named_child_of_kind_from(
                tree@,
                n as int,
                kind@,
                k as int,
            ),
        decreases nc - k,
    {
        let c = tree.node(n).children[k];
        proof {
            lemma_child_nested(tree@, n as int, k as int);
        }
        if tree.is_named(c) && tree.kind_is(c, kind) {
            return Some(c);
        }
        k = k + 1;
    }
    None
}

/// The name a Lua anonymous `function_definition` `n` gets from its
/// assignment context: a table field's identifier, or the variable at the
/// same position in an assignment's variable list.
pub open spec fn lua_assignment_name(t: TreeModel, n: int) -> Option<Seq<char>> {
    match t.parent(n) {
        None => None,
        Some(p) => if t.kind(p) == "field"@ {
            match named_child_of_kind_from(t, p, "identifier"@, 0) {
                Some(c) => t.text(c),
                None => None,
            }
        } else if t.kind(p) == "expression_list"@ {
            let idx = match t.named_position_from(p, n, 0) {
                Some(i) => i,
                None => 0,
            };
            match t.parent(p) {
                None => None,
                Some(assign) => if t.kind(assign) != "assignment_statement"@ {
                    None
                } else {
                    match t.child_of_kinds(assign, seq!["variable_list"@]) {
                        None => None,
                        Some(vl) => match t.nth_named_from(vl, idx, 0) {
                            None => None,
                            Some(var) => if t.kind(var) != "identifier"@ {
                                None
                            } else {
                                t.text(var)
                            },
                        },
                    }
                },
            }
        } else {
            None
        },
    }
}

fn lua_assignment_name_exec(tree: &SyntaxTree, n: usize) -> (r: Option<String>)
    requires
        n < tree@.nodes.len(),
    ensures
        match r {
            Some(s) => lua_assignment_name(tree@, n as int) == Some(s@),
            None => lua_assignment_name(tree@, n as int) is None,
        },
{
    tree.assert_wf();
    let p = match tree.parent(n) {
        Some(p) => p,
        None => {
            return None;
        },
    };
    if tree.kind_is(p, "field") {
        return match named_child_of_kind(tree, p, "identifier") {
            Some(c) => text_exec(tree, c),
            None => None,
        };
    }
    if !tree.kind_is(p, "expression_list") {
        return None;
    }
    let idx = match tree.named_position(p, n) {
        Some(i) => i,
        None => 0,
    };
    let assign = match tree.parent(p) {
        Some(a) => a,
        None => {
            return None;
        },
    };
    if !tree.kind_is(assign, "assignment_statement") {
        return None;
    }
    let kinds: [&'static str; 1] = ["variable_list"];
    let vl = tree.child_of_kinds(assign, &kinds);
    assert(crate::registry::str_views(kinds@) =~= seq!["variable_list"@]);
    let vl = match vl {
        Some(v) => v,
        None => {
            return None;
        },
    };
    let var = match tree.nth_named_child(vl, idx) {
        Some(v) => v,
        None => {
            return None;
        },
    };
    if !tree.kind_is(var, "identifier") {
        return None;
    }
    text_exec(tree, var)
}

/// The name an arrow function or anonymous function expression `n` gets
/// from the surrounding assignment context, if any.
pub open spec fn assignment_context_name(t: TreeModel, n: int) -> Option<Seq<char>> {
    match t.parent(n) {
        None => None,
        Some(p) => if t.kind(p) == "variable_declarator"@ {
            field_text(t, p, "name"@)
        } else if t.kind(p) == "pair"@ {
            field_text(t, p, "key"@)
        } else if t.kind(p) == "public_field_definition"@ {
            field_text(t, p, "name"@)
        } else {
            None
        },
    }
}

fn assignment_context_name_exec(tree: &SyntaxTree, n: usize) -> (r: Option<String>)
    requires
        n < tree@.nodes.len(),
    ensures
        match r {
            Some(s) => assignment_context_name(tree@, n as int) == Some(s@),
            None => assignment_context_name(tree@, n as int) is None,
        },
{
    let p = match tree.parent(n) {
        Some(p) => p,
        None => {
            return None;
        },
    };
    if tree.kind_is(p, "variable_declarator") {
        field_text_exec(tree, p, "name")
    } else if tree.kind_is(p, "pair") {
        field_text_exec(tree, p, "key")
    } else if tree.kind_is(p, "public_field_definition") {
        field_text_exec(tree, p, "name")
    } else {
        None
    }
}

/// `a`, or else `b`.
pub open spec fn or_else(a: Option<Seq<char>>, b: Option<Seq<char>>) -> Option<Seq<char>> {
    match a {
        Some(x) => Some(x),
        None => b,
    }
}

/// The name of function-like node `n`, or `None` for genuinely anonymous
/// usage that can't be traced back to a binding.
pub open spec fn spec_function_name(t: TreeModel, n: int) -> Option<Seq<char>> {
    let k = t.kind(n);
    if k == "function_item"@ || k == "method_definition"@ || k == "generator_function_declaration"@
        || k == "generator_function"@ || k == "method_declaration"@ || k
        == "constructor_declaration"@ || k == "local_function_statement"@ {
        field_text(t, n, "name"@)
    } else if k == "function_declaration"@ {
        or_else(field_text(t, n, "name"@), kind_child_text(t, n, "simple_identifier"@))
    } else if k == "function_definition"@ {
        or_else(field_text(t, n, "name"@), or_else(c_name(t, n, 0), lua_assignment_name(t, n)))
    } else if k == "function_expression"@ {
        or_else(field_text(t, n, "name"@), assignment_context_name(t, n))
    } else if k == "arrow_function"@ {
        assignment_context_name(t, n)
    } else if k == "init_declaration"@ {
        Some("init"@)
    } else if k == "func_literal"@ {
        None
    } else if k == "subprogram_body"@ || k == "expression_function_declaration"@ {
        match t.child_of_kinds(n, seq!["function_specification"@, "procedure_specification"@]) {
            Some(spec) => field_text(t, spec, "name"@),
            None => None,
        }
    } else if k == "task_body"@ {
        kind_child_text(t, n, "identifier"@)
    } else if k == "function"@ {
        name_in_child(t, n, "function_statement"@)
    } else if k == "subroutine"@ {
        name_in_child(t, n, "subroutine_statement"@)
    } else if k == "module_procedure"@ {
        name_in_child(t, n, "module_procedure_statement"@)
    } else if k == "program"@ {
        match t.child_of_kinds(n, seq!["program_statement"@]) {
            None => None,
            Some(stmt) => match t.first_named_child(stmt) {
                Some(c) => or_else(t.text(c), Some("program"@)),
                None => Some("program"@),
            },
        }
    } else {
        c_name(t, n, 0)
    }
}

fn child_of_kind(tree: &SyntaxTree, n: usize, kind: &'static str) -> (r: Option<usize>)
    requires
        n < tree@.nodes.len(),
    ensures
        match r {
            Some(c) => tree@.child_of_kinds(n as int, seq![kind@]) == Some(c as int),
            None => tree@.child_of_kinds(n as int, seq![kind@]) is None,
        },
        r matches Some(c) ==> c < tree@.nodes.len(),
{
    let kinds: [&'static str; 1] = [kind];
    let r = tree.child_of_kinds(n, &kinds);
    assert(crate::registry::str_views(kinds@) =~= seq![kind@]);
    r
}

fn kind_child_text_exec(tree: &SyntaxTree, n: usize, kind: &'static str) -> (r: Option<String>)
    requires
        n < tree@.nodes.len(),
    ensures
        match r {
            Some(s) => kind_child_text(tree@, n as int, kind@) == Some(s@),
            None => kind_child_text(tree@, n as int, kind@) is None,
        },
{
    match child_of_kind(tree, n, kind) {
        Some(c) => text_exec(tree, c),
        None => None,
    }
}

fn name_in_child_exec(tree: &SyntaxTree, n: usize, kind: &'static str) -> (r: Option<String>)
    requires
        n < tree@.nodes.len(),
    ensures
        match r {
            Some(s) => name_in_child(tree@, n as int, kind@) == Some(s@),
            None => name_in_child(tree@, n as int, kind@) is None,
        },
{
    match child_of_kind(tree, n, kind) {
        Some(c) => field_text_exec(tree, c, "name"),
        None => None,
    }
}

/// Resolves the name of a function-like node, or `None` for genuinely
/// anonymous usage (callbacks, IIFEs, return values, etc.) that can't be
/// traced back to a binding.
pub fn get_function_name(tree: &SyntaxTree, node: usize) -> (r: Option<String>)
    requires
        node < tree@.nodes.len(),
    ensures
        match r {
            Some(s) => spec_function_name(tree@, node as int) == Some(s@),
            None => spec_function_name(tree@, node as int) is None,
        },
{
    let n = node;
    if tree.kind_is(n, "function_item") || tree.kind_is(n, "method_definition") || tree.kind_is(
        n,
        "generator_function_declaration",
    ) || tree.kind_is(n, "generator_function") || tree.kind_is(n, "method_declaration")
        || tree.kind_is(n, "constructor_declaration") || tree.kind_is(n, "local_function_statement") {
        field_text_exec(tree, n, "name")
    } else if tree.kind_is(n, "function_declaration") {
        match field_text_exec(tree, n, "name") {
            Some(x) => Some(x),
            None => kind_child_text_exec(tree, n, "simple_identifier"),
        }
    } else if tree.kind_is(n, "function_definition") {
        match field_text_exec(tree, n, "name") {
            Some(x) => Some(x),
            None => match c_name_exec(tree, n) {
                Some(x) => Some(x),
                None => lua_assignment_name_exec(tree, n),
            },
        }
    } else if tree.kind_is(n, "function_expression") {
        match field_text_exec(tree, n, "name") {
            Some(x) => Some(x),
            None => assignment_context_name_exec(tree, n),
        }
    } else if tree.kind_is(n, "arrow_function") {
        assignment_context_name_exec(tree, n)
    } else if tree.kind_is(n, "init_declaration") {
        Some("init".to_string())
    } else if tree.kind_is(n, "func_literal") {
        None
    } else if tree.kind_is(n, "subprogram_body") || tree.kind_is(n, "expression_function_declaration") {
        let kinds: [&'static str; 2] = ["function_specification", "procedure_specification"];
        let spec = tree.child_of_kinds(n, &kinds);
        assert(crate::registry::str_views(kinds@) =~= seq!["function_specification"@, "procedure_specification"@]);
        match spec {
            Some(s) => field_text_exec(tree, s, "name"),
            None => None,
        }
    } else if tree.kind_is(n, "task_body") {
        kind_child_text_exec(tree, n, "identifier")
    } else if tree.kind_is(n, "function") {
        name_in_child_exec(tree, n, "function_statement")
    } else if tree.kind_is(n, "subroutine") {
        name_in_child_exec(tree, n, "subroutine_statement")
    } else if tree.kind_is(n, "module_procedure") {
        name_in_child_exec(tree, n, "module_procedure_statement")
    } else if tree.kind_is(n, "program") {
        match child_of_kind(tree, n, "program_statement") {
            None => None,
            Some(stmt) => match tree.first_named_child(stmt) {
                Some(c) => match text_exec(tree, c) {
                    Some(x) => Some(x),
                    None => Some("program".to_string()),
                },
                None => Some("program".to_string()),
            },
        }
    } else {
        c_name_exec(tree, n)
    }
}

/// A call's `function` child kinds whose whole text names the callee.
pub open spec fn is_callee_text_kind(k: Seq<char>) -> bool {
    ||| k == "identifier"@
    ||| k == "scoped_identifier"@
    ||| k == "attribute"@
    ||| k == "member_expression"@
    ||| k == "selector_expression"@
    ||| k == "member_access_expression"@
}

/// The one-element sequence holding `o`'s value, or the empty one.
pub open spec fn opt_seq(o: Option<Seq<char>>) -> Seq<Seq<char>> {
    match o {
        Some(x) => seq![x],
        None => Seq::empty(),
    }
}

/// The callee a call node `n` names through its `function` field: that
/// field's text for an identifier-like callee, its `field` child's text for
/// a `field_expression`.
pub open spec fn handle_call(t: TreeModel, n: int) -> Seq<Seq<char>> {
    match t.field_child(n, "function"@) {
        None => Seq::empty(),
        Some(f) => if is_callee_text_kind(t.kind(f)) {
            opt_seq(t.text(f))
        } else if t.kind(f) == "field_expression"@ {
            opt_seq(field_text(t, f, "field"@))
        } else {
            Seq::empty()
        },
    }
}

/// Child kinds of a field-less `call_expression` that are never its callee.
pub open spec fn is_call_suffix_kind(k: Seq<char>) -> bool {
    ||| k == "value_arguments"@
    ||| k == "type_arguments"@
    ||| k == "annotated_lambda"@
    ||| k == "call_suffix"@
}

/// The first named child of `n` from child position `k` that is not a call
/// suffix.
pub open spec fn callee_child_from(t: TreeModel, n: int, k: int) -> Option<int>
    decreases t.children(n).len() - k,
{
    if k < 0 || k >= t.children(n).len() {
        None
    } else {
        let c = t.children(n)[k] as int;
        if t.nodes[c].named && !is_call_suffix_kind(t.kind(c)) {
            Some(c)
        } else {
            callee_child_from(t, n, k + 1)
        }
    }
}

/// The callee a call-like node names through its `function` field.
pub open spec fn call_part(t: TreeModel, n: int) -> Seq<Seq<char>> {
    let k = t.kind(n);
    if k == "call_expression"@ || k == "call"@ || k == "invocation_expression"@ {
        handle_call(t, n)
    } else {
        Seq::empty()
    }
}

/// The callee a statement-form call names through its `name` field.
pub open spec fn name_part(t: TreeModel, n: int) -> Seq<Seq<char>> {
    let k = t.kind(n);
    if k == "procedure_call_statement"@ || k == "function_call"@ || k == "method_invocation"@ {
        opt_seq(field_text(t, n, "name"@))
    } else {
        Seq::empty()
    }
}

/// The callee of a `call_expression` without a `function` field: its first
/// named child that is not a call suffix.
pub open spec fn bare_call_part(t: TreeModel, n: int) -> Seq<Seq<char>> {
    if t.kind(n) == "call_expression"@ && t.field_child(n, "function"@) is None {
        match callee_child_from(t, n, 0) {
            Some(x) => seq![t.text_or_empty(x)],
            None => Seq::empty(),
        }
    } else {
        Seq::empty()
    }
}

/// The type an object creation instantiates.
pub open spec fn creation_part(t: TreeModel, n: int) -> Seq<Seq<char>> {
    if t.kind(n) == "object_creation_expression"@ {
        opt_seq(field_text(t, n, "type"@))
    } else {
        Seq::empty()
    }
}

/// The call targets node `n` itself names (not its descendants).
pub open spec fn node_calls(t: TreeModel, n: int) -> Seq<Seq<char>> {
    call_part(t, n) + name_part(t, n) + bare_call_part(t, n) + creation_part(t, n)
}

/// The call targets of the nodes of `f`'s subtree from pre-order index `j`
/// on; with `stop`, the subtrees of nested function nodes are skipped.
pub open spec fn calls_in(t: TreeModel, f: int, stop: bool, j: int) -> Seq<Seq<char>>
    decreases t.end(f) - j,
{
    if j < f || j >= t.end(f) || j >= t.nodes.len() {
        Seq::empty()
    } else if j != f && stop && is_function_node(t, j) {
        calls_in(t, f, stop, if j < t.end(j) <= t.end(f) {
            t.end(j)
        } else {
            j + 1
        })
    } else {
        node_calls(t, j) + calls_in(t, f, stop, j + 1)
    }
}

fn push_opt(out: &mut Vec<String>, o: Option<String>)
    ensures
        strings_view(final(out)@) == strings_view(old(out)@) + opt_seq(crate::suppressions::opt_str_view(o)),
{
    let ghost before = strings_view(out@);
    match o {
        Some(x) => {
            let ghost xv = x@;
            out.push(x);
            assert(strings_view(out@) =~= before + seq![xv]);
        },
        None => {
            assert(strings_view(out@) =~= before + Seq::<Seq<char>>::empty());
        },
    }
}

fn callee_child(tree: &SyntaxTree, n: usize) -> (r: Option<usize>)
    requires
        n < tree@.nodes.len(),
    ensures
        match r {
            Some(c) => callee_child_from(tree@, n as int, 0) == Some(c as int),
            None => callee_child_from(tree@, n as int, 0) is None,
        },
        r matches Some(c) ==> c < tree@.nodes.len(),
{
    tree.assert_wf();
    let nc = tree.node(n).children.len();
    let mut k: usize = 0;
    while k < nc
        invariant
            tree@.wf(),
            n < tree@.nodes.len(),
            nc == tree@.children(n as int).len(),
            k <= nc,
            callee_child_from(tree@, n as int, 0) == callee_child_from(tree@, n as int, k as int),
        decreases nc - k,
    {
        let c = tree.node(n).children[k];
        proof {
            lemma_child_nested(tree@, n as int, k as int);
        }
        if tree.is_named(c) && !(tree.kind_is(c, "value_arguments") || tree.kind_is(c, "type_arguments")
            || tree.kind_is(c, "annotated_lambda") || tree.kind_is(c, "call_suffix")) {
            return Some(c);
        }
        k = k + 1;
    }
    None
}

fn call_part_exec(tree: &SyntaxTree, n: usize, out: &mut Vec<String>)
    requires
        n < tree@.nodes.len(),
    ensures
        strings_view(final(out)@) == strings_view(old(out)@) + call_part(tree@, n as int),
{
    let ghost start = strings_view(out@);
    if tree.kind_is(n, "call_expression") || tree.kind_is(n, "call") || tree.kind_is(n, "invocation_expression") {
        match tree.field_child(n, "function") {
            None => {
                assert(strings_view(out@) =~= start + Seq::<Seq<char>>::empty());
            },
            Some(f) => {
                if tree.kind_is(f, "identifier") || tree.kind_is(f, "scoped_identifier") || tree.kind_is(
                    f,
                    "attribute",
                ) || tree.kind_is(f, "member_expression") || tree.kind_is(f, "selector_expression")
                    || tree.kind_is(f, "member_access_expression") {
                    push_opt(out, text_exec(tree, f));
                } else if tree.kind_is(f, "field_expression") {
                    push_opt(out, field_text_exec(tree, f, "field"));
                } else {
                    assert(strings_view(out@) =~= start + Seq::<Seq<char>>::empty());
                }
            },
        }
    } else {
        assert(strings_view(out@) =~= start + Seq::<Seq<char>>::empty());
    }
}

fn name_part_exec(tree: &SyntaxTree, n: usize, out: &mut Vec<String>)
    requires
        n < tree@.nodes.len(),
    ensures
        strings_view(final(out)@) == strings_view(old(out)@) + name_part(tree@, n as int),
{
    let ghost start = strings_view(out@);
    if tree.kind_is(n, "procedure_call_statement") || tree.kind_is(n, "function_call") || tree.kind_is(
        n,
        "method_invocation",
    ) {
        push_opt(out, field_text_exec(tree, n, "name"));
    } else {
        assert(strings_view(out@) =~= start + Seq::<Seq<char>>::empty());
    }
}

fn bare_call_part_exec(tree: &SyntaxTree, n: usize, out: &mut Vec<String>)
    requires
        n < tree@.nodes.len(),
    ensures
        strings_view(final(out)@) == strings_view(old(out)@) + bare_call_part(tree@, n as int),
{
    let ghost start = strings_view(out@);
    if tree.kind_is(n, "call_expression") && tree.field_child(n, "function").is_none() {
        match callee_child(tree, n) {
            Some(c) => {
                let text = tree.text_string(c);
                let ghost tv = text@;
                out.push(text);
                assert(strings_view(out@) =~= start + seq![tv]);
            },
            None => {
                assert(strings_view(out@) =~= start + Seq::<Seq<char>>::empty());
            },
        }
    } else {
        assert(strings_view(out@) =~= start + Seq::<Seq<char>>::empty());
    }
}

fn creation_part_exec(tree: &SyntaxTree, n: usize, out: &mut Vec<String>)
    requires
        n < tree@.nodes.len(),
    ensures
        strings_view(final(out)@) == strings_view(old(out)@) + creation_part(tree@, n as int),
{
    let ghost start = strings_view(out@);
    if tree.kind_is(n, "object_creation_expression") {
        push_opt(out, field_text_exec(tree, n, "type"));
    } else {
        assert(strings_view(out@) =~= start + Seq::<Seq<char>>::empty());
    }
}

fn node_calls_exec(tree: &SyntaxTree, n: usize, out: &mut Vec<String>)
    requires
        n < tree@.nodes.len(),
    ensures
        strings_view(final(out)@) == strings_view(old(out)@) + node_calls(tree@, n as int),
{
    let ghost start = strings_view(out@);
    call_part_exec(tree, n, out);
    name_part_exec(tree, n, out);
    bare_call_part_exec(tree, n, out);
    creation_part_exec(tree, n, out);
    assert(strings_view(out@) =~= start + node_calls(tree@, n as int));
}

/// Collects every call target name in `f`'s subtree, in pre-order; with
/// `stop_at_nested`, nested function-like nodes are not descended into (a
/// syntax error in `f` makes its span untrustworthy, and an apparent nested
/// function there is more likely a swallowed sibling).
fn collect_call_names(tree: &SyntaxTree, f: usize, stop_at_nested: bool) -> (r: Vec<String>)
    requires
        f < tree@.nodes.len(),
    ensures
        strings_view(r@) == calls_in(tree@, f as int, stop_at_nested, f as int),
{
    let ghost t = tree@;
    let end = tree.end(f);
    let mut out: Vec<String> = Vec::new();
    let mut j = f;
    assert(strings_view(out@) =~= Seq::<Seq<char>>::empty());
    while j < end
        invariant
            t == tree@,
            f <= j <= end,
            end == t.end(f as int),
            end <= t.nodes.len(),
            strings_view(out@) + calls_in(t, f as int, stop_at_nested, j as int) == calls_in(
                t,
                f as int,
                stop_at_nested,
                f as int,
            ),
        decreases end - j,
    {
        if j != f && stop_at_nested && is_function_node_exec(tree, j) {
            let e = tree.end(j);
            j = if j < e && e <= end {
                e
            } else {
                j + 1
            };
            proof {
                assert(calls_in(t, f as int, stop_at_nested, end as int) =~= Seq::<Seq<char>>::empty());
            }
        } else {
            let ghost before = strings_view(out@);
            node_calls_exec(tree, j, &mut out);
            assert(before + calls_in(t, f as int, stop_at_nested, j as int) =~= strings_view(out@) + calls_in(
                t,
                f as int,
                stop_at_nested,
                j + 1,
            ));
            j = j + 1;
        }
    }
    assert(strings_view(out@) =~= strings_view(out@) + calls_in(t, f as int, stop_at_nested, end as int));
    out
}

/// The name node `i` contributes to the file's own names: a function-like
/// node's name, or a `#define`d macro's name.
pub open spec fn local_name(t: TreeModel, i: int) -> Option<Seq<char>> {
    if spec_is_function_kind(t.kind(i)) {
        spec_function_name(t, i)
    } else if t.kind(i) == "preproc_def"@ || t.kind(i) == "preproc_function_def"@ {
        field_text(t, i, "name"@)
    } else {
        None
    }
}

/// The local names contributed by nodes `root..n`, in pre-order.
pub open spec fn local_names_upto(t: TreeModel, root: int, n: int) -> Seq<Seq<char>>
    decreases n - root,
{
    if n <= root {
        Seq::empty()
    } else {
        local_names_upto(t, root, n - 1) + opt_seq(local_name(t, n - 1))
    }
}

/// Adds the name `o`, if any, to the distinct names `out` when it is not
/// there yet.
fn insert_opt(out: &mut Vec<String>, o: Option<String>)
    requires
        strings_view(old(out)@).no_duplicates(),
    ensures
        strings_view(final(out)@).no_duplicates(),
        forall|x: Seq<char>|
            #![trigger strings_view(final(out)@).contains(x)]
            strings_view(final(out)@).contains(x) <==> strings_view(old(out)@).contains(x) || crate::suppressions::opt_str_view(o) == Some(x),
{
    let ghost before = strings_view(out@);
    match o {
        Some(x) => {
            if !contains_string(out, x.as_str()) {
                let ghost xv = x@;
                out.push(x);
                assert(strings_view(out@) =~= before.push(xv));
                assert forall|x: Seq<char>| strings_view(out@).contains(x) <==> before.contains(x) || xv == x by {
                    if strings_view(out@).contains(x) {
                        let k = choose|k: int| 0 <= k < strings_view(out@).len() && strings_view(out@)[k] == x;
                        if k < before.len() {
                            assert(before[k] == x);
                        }
                    }
                    if before.contains(x) {
                        let k = choose|k: int| 0 <= k < before.len() && before[k] == x;
                        assert(strings_view(out@)[k] == x);
                    }
                    if xv == x {
                        assert(strings_view(out@)[before.len() as int] == x);
                    }
                }
            }
        },
        None => {},
    }
}

/// The distinct function and macro names defined in `root`'s subtree, each
/// once. Used to classify call sites as local vs. external.
pub fn collect_local_names(tree: &SyntaxTree, root: usize) -> (r: Vec<String>)
    requires
        root < tree@.nodes.len(),
    ensures
        strings_view(r@).no_duplicates(),
        forall|x: Seq<char>|
            #![trigger strings_view(r@).contains(x)]
            strings_view(r@).contains(x) <==> local_names_upto(tree@, root as int, tree@.end(root as int)).contains(x),
{
    let end = tree.end(root);
    let mut out: Vec<String> = Vec::new();
    let mut i = root;
    let ghost mut all: Seq<Seq<char>> = Seq::empty();
    assert(strings_view(out@) =~= Seq::<Seq<char>>::empty());
    while i < end
        invariant
            root <= i <= end,
            end <= tree@.nodes.len(),
            all == local_names_upto(tree@, root as int, i as int),
            strings_view(out@).no_duplicates(),
            forall|x: Seq<char>|
                #![trigger strings_view(out@).contains(x)]
                strings_view(out@).contains(x) <==> all.contains(x),
        decreases end - i,
    {
        let name = if is_function_kind(tree.node(i).kind.as_str()) {
            get_function_name(tree, i)
        } else if tree.kind_is(i, "preproc_def") || tree.kind_is(i, "preproc_function_def") {
            field_text_exec(tree, i, "name")
        } else {
            None
        };
        let ghost nv = crate::suppressions::opt_str_view(name);
        let ghost before = all;
        proof {
            all = all + opt_seq(nv);
            assert forall|x: Seq<char>| all.contains(x) <==> before.contains(x) || nv == Some(x) by {
                if all.contains(x) {
                    let k = choose|k: int| 0 <= k < all.len() && all[k] == x;
                    if k < before.len() {
                        assert(before[k] == x);
                    }
                }
                if before.contains(x) {
                    let k = choose|k: int| 0 <= k < before.len() && before[k] == x;
                    assert(all[k] == x);
                }
                if nv == Some(x) {
                    assert(all[before.len() as int] == x);
                }
            }
        }
        let ghost o0 = strings_view(out@);
        insert_opt(&mut out, name);
        proof {
            assert forall|x: Seq<char>| #[trigger] strings_view(out@).contains(x) <==> all.contains(x) by {
                assert(o0.contains(x) <==> before.contains(x));
            }
        }
        i = i + 1;
    }
    out
}

/// The edges one caller `name` contributes for callees `cs`.
pub open spec fn edges_for(name: Seq<char>, cs: Seq<Seq<char>>, locals: Seq<Seq<char>>) -> Seq<CallEdgeModel> {
    cs.map_values(|c: Seq<char>| CallEdgeModel { caller: name, callee: c, is_external: !locals.contains(c) })
}

/// The edges of the named functions among nodes `root..n`, in pre-order.
pub open spec fn edges_upto(t: TreeModel, root: int, n: int, locals: Seq<Seq<char>>) -> Seq<CallEdgeModel>
    decreases n - root,
{
    if n <= root {
        Seq::empty()
    } else {
        let f = n - 1;
        let here = if is_function_node(t, f) {
            match spec_function_name(t, f) {
                Some(name) => edges_for(name, calls_in(t, f, t.nodes[f].has_error, f), locals),
                None => Seq::empty(),
            }
        } else {
            Seq::empty()
        };
        edges_upto(t, root, n - 1, locals) + here
    }
}

/// The call-graph edges of every named function in `root`'s subtree.
pub open spec fn spec_call_edges(t: TreeModel, root: int) -> Seq<CallEdgeModel> {
    edges_upto(t, root, t.end(root), local_names_upto(t, root, t.end(root)))
}

fn contains_string(v: &Vec<String>, x: &str) -> (r: bool)
    ensures
        r == strings_view(v@).contains(x@),
{
    let mut i: usize = 0;
    while i < v.len()
        invariant
            i <= v@.len(),
            forall|k: int| 0 <= k < i ==> strings_view(v@)[k] != x@,
        decreases v.len() - i,
    {
        assert(strings_view(v@)[i as int] == v@[i as int]@);
        if str_eq(v[i].as_str(), x) {
            return true;
        }
        i = i + 1;
    }
    false
}

/// Builds call-graph edges for every named function/macro in `root`'s
/// subtree (normally the whole file). A function whose subtree holds a
/// syntax error does not take in the calls of function-like nodes nested in
/// it.
pub fn call_edges(tree: &SyntaxTree, root: usize) -> (r: Vec<CallEdge>)
    requires
        root < tree@.nodes.len(),
    ensures
        r@.map_values(|e: CallEdge| e@) == spec_call_edges(tree@, root as int),
{
    let ghost t = tree@;
    let local_names = collect_local_names(tree, root);
    let ghost locals = local_names_upto(t, root as int, t.end(root as int));
    let end = tree.end(root);
    let mut edges: Vec<CallEdge> = Vec::new();
    let mut i = root;
    assert(edges@.map_values(|e: CallEdge| e@) =~= Seq::<CallEdgeModel>::empty());
    while i < end
        invariant
            t == tree@,
            root <= i <= end,
            end == t.end(root as int),
            end <= t.nodes.len(),
            locals == local_names_upto(t, root as int, end as int),
            forall|x: Seq<char>|
                #![trigger strings_view(local_names@).contains(x)]
                strings_view(local_names@).contains(x) <==> locals.contains(x),
            edges@.map_values(|e: CallEdge| e@) == edges_upto(t, root as int, i as int, locals),
        decreases end - i,
    {
        if is_function_node_exec(tree, i) {
            match get_function_name(tree, i) {
                Some(caller) => {
                    let callees = collect_call_names(tree, i, tree.has_error(i));
                    let ghost cs = strings_view(callees@);
                    let ghost base = edges@.map_values(|e: CallEdge| e@);
                    let mut k: usize = 0;
                    while k < callees.len()
                        invariant
                            k <= callees@.len(),
                            cs == strings_view(callees@),
                            forall|x: Seq<char>|
                                #![trigger strings_view(local_names@).contains(x)]
                                strings_view(local_names@).contains(x) <==> locals.contains(x),
                            edges@.map_values(|e: CallEdge| e@) == base + edges_for(caller@, cs.take(k as int), locals),
                        decreases callees.len() - k,
                    {
                        let callee = callees[k].clone();
                        let is_external = !contains_string(&local_names, callee.as_str());
                        let ghost before = edges@.map_values(|e: CallEdge| e@);
                        let e = CallEdge { caller: caller.clone(), callee, is_external };
                        edges.push(e);
                        proof {
                            assert(cs[k as int] == callees@[k as int]@);
                            assert(edges@.map_values(|e: CallEdge| e@) =~= before.push(e@));
                            assert(cs.take(k + 1) =~= cs.take(k as int).push(cs[k as int]));
                            assert(edges_for(caller@, cs.take(k + 1), locals) =~= edges_for(caller@, cs.take(k as int), locals).push(e@));
                        }
                        k = k + 1;
                    }
                    assert(cs.take(callees@.len() as int) =~= cs);
                },
                None => {},
            }
        }
        proof {
            let f = i as int;
            assert(edges_upto(t, root as int, f + 1, locals) == edges_upto(t, root as int, f, locals) + (if is_function_node(t, f) {
                match spec_function_name(t, f) {
                    Some(name) => edges_for(name, calls_in(t, f, t.nodes[f].has_error, f), locals),
                    None => Seq::empty(),
                }
            } else {
                Seq::empty()
            }));
        }
        assert(edges@.map_values(|e: CallEdge| e@) =~= edges_upto(t, root as int, i + 1, locals));
        i = i + 1;
    }
    edges
}

/// The local names of nodes `root..a` come first among those of `root..b`.
proof fn lemma_local_names_prefix(t: TreeModel, root: int, a: int, b: int)
    requires
        root <= a <= b,
    ensures
        local_names_upto(t, root, b).len() >= local_names_upto(t, root, a).len(),
        local_names_upto(t, root, b).take(local_names_upto(t, root, a).len() as int) == local_names_upto(t, root, a),
    decreases b - a,
{
    if a < b {
        lemma_local_names_prefix(t, root, a, b - 1);
        let s = local_names_upto(t, root, b - 1);
        let full = local_names_upto(t, root, b);
        assert(full == s + opt_seq(local_name(t, b - 1)));
        assert(full.take(local_names_upto(t, root, a).len() as int) =~= s.take(
            local_names_upto(t, root, a).len() as int,
        ));
    } else {
        assert(local_names_upto(t, root, b).take(local_names_upto(t, root, a).len() as int) =~= local_names_upto(t, root, a));
    }
}

/// Each edge among nodes `root..n` is external exactly when its callee is
/// not in `locals`, and its caller is a local name of `root..n`.
proof fn lemma_edges_classify(t: TreeModel, root: int, n: int, locals: Seq<Seq<char>>)
    requires
        root <= n,
    ensures
        forall|k: int|
            0 <= k < edges_upto(t, root, n, locals).len() ==> {
                let e = #[trigger] edges_upto(t, root, n, locals)[k];
                &&& e.is_external == !locals.contains(e.callee)
                &&& local_names_upto(t, root, n).contains(e.caller)
            },
    decreases n - root,
{
    if n > root {
        let f = n - 1;
        lemma_edges_classify(t, root, f, locals);
        let prev = edges_upto(t, root, f, locals);
        let here = if is_function_node(t, f) {
            match spec_function_name(t, f) {
                Some(name) => edges_for(name, calls_in(t, f, t.nodes[f].has_error, f), locals),
                None => Seq::empty(),
            }
        } else {
            Seq::empty()
        };
        assert(edges_upto(t, root, n, locals) == prev + here);
        let names_f = local_names_upto(t, root, f);
        let names_n = local_names_upto(t, root, n);
        assert(names_n == names_f + opt_seq(local_name(t, f)));
        assert forall|k: int| 0 <= k < edges_upto(t, root, n, locals).len() implies {
            let e = #[trigger] edges_upto(t, root, n, locals)[k];
            &&& e.is_external == !locals.contains(e.callee)
            &&& local_names_upto(t, root, n).contains(e.caller)
        } by {
            let e = edges_upto(t, root, n, locals)[k];
            if k < prev.len() {
                assert(e == prev[k]);
                let j = choose|j: int| 0 <= j < names_f.len() && names_f[j] == e.caller;
                assert(names_n[j] == e.caller);
            } else {
                assert(e == here[k - prev.len()]);
                let name = spec_function_name(t, f).unwrap();
                assert(local_name(t, f) == Some(name));
                assert(names_n[names_f.len() as int] == name);
            }
        }
    }
}

/// Every call-graph edge has a caller that is a function defined in the
/// file, and is external exactly when its callee is not a function or
/// macro name defined in the file.
pub proof fn call_edges_are_classified_by_local_names(t: TreeModel, root: int)
    requires
        t.wf(),
        0 <= root < t.nodes.len(),
    ensures
        forall|k: int|
            0 <= k < spec_call_edges(t, root).len() ==> {
                let e = #[trigger] spec_call_edges(t, root)[k];
                &&& e.is_external == !local_names_upto(t, root, t.end(root)).contains(e.callee)
                &&& local_names_upto(t, root, t.end(root)).contains(e.caller)
            },
{
    assert(t.node_wf(root));
    lemma_edges_classify(t, root, t.end(root), local_names_upto(t, root, t.end(root)));
}

/// A call node whose `function` is a `field_expression` with a readable
/// `field` child.
pub open spec fn field_call(t: TreeModel, n: int, x: Seq<char>) -> bool {
    &&& (t.kind(n) == "call_expression"@ || t.kind(n) == "call"@ || t.kind(n) == "invocation_expression"@)
    &&& t.field_child(n, "function"@) matches Some(fe) && t.kind(fe) == "field_expression"@ && field_text(
        t,
        fe,
        "field"@,
    ) == Some(x)
}

/// Node `n` lies in no function nested in `f` (the calls a function whose
/// nested functions are skipped still counts).
pub open spec fn outside_nested_functions(t: TreeModel, f: int, n: int) -> bool {
    forall|g: int| f < g <= n && #[trigger] is_function_node(t, g) ==> t.end(g) <= n
}

proof fn lemma_field_call_named(t: TreeModel, n: int, x: Seq<char>)
    requires
        field_call(t, n, x),
    ensures
        node_calls(t, n).contains(x),
{
    reveal_strlit("field_expression");
    reveal_strlit("identifier");
    reveal_strlit("scoped_identifier");
    reveal_strlit("attribute");
    reveal_strlit("member_expression");
    reveal_strlit("selector_expression");
    reveal_strlit("member_access_expression");
    assert("field_expression"@.len() == 16 && "identifier"@.len() == 10 && "scoped_identifier"@.len() == 17);
    assert("attribute"@.len() == 9 && "member_expression"@.len() == 17 && "selector_expression"@.len() == 19);
    assert("member_access_expression"@.len() == 24);
    let fe = t.field_child(n, "function"@)->0;
    assert(!is_callee_text_kind(t.kind(fe)));
    assert(handle_call(t, n) == seq![x]);
    assert(call_part(t, n) == seq![x]);
    assert(node_calls(t, n)[0] == x);
}

proof fn lemma_calls_in_has(t: TreeModel, f: int, stop: bool, j: int, n: int, x: Seq<char>)
    requires
        t.wf(),
        t.valid(f),
        f <= j <= n < t.end(f),
        node_calls(t, n).contains(x),
        stop ==> outside_nested_functions(t, f, n),
    ensures
        calls_in(t, f, stop, j).contains(x),
    decreases t.end(f) - j,
{
    assert(t.node_wf(f));
    assert(t.node_wf(j));
    assert(j < t.nodes.len());
    if j != f && stop && is_function_node(t, j) {
        assert(t.end(j) <= n);
        let next = if j < t.end(j) <= t.end(f) {
            t.end(j)
        } else {
            j + 1
        };
        lemma_calls_in_has(t, f, stop, next, n, x);
    } else if j == n {
        let k = choose|k: int| 0 <= k < node_calls(t, n).len() && #[trigger] node_calls(t, n)[k] == x;
        assert(calls_in(t, f, stop, j)[k] == x);
    } else {
        lemma_calls_in_has(t, f, stop, j + 1, n, x);
        let rest = calls_in(t, f, stop, j + 1);
        let k = choose|k: int| 0 <= k < rest.len() && #[trigger] rest[k] == x;
        assert(calls_in(t, f, stop, j)[node_calls(t, j).len() + k] == x);
    }
}

/// A call through a field expression (`self.helper()`, `o->open()`) in the
/// body of function `f` makes the field's name one of `f`'s callees.
pub proof fn field_expression_calls_are_callees(t: TreeModel, f: int, stop: bool, n: int, x: Seq<char>)
    requires
        t.wf(),
        t.valid(f),
        f <= n < t.end(f),
        field_call(t, n, x),
        stop ==> outside_nested_functions(t, f, n),
    ensures
        calls_in(t, f, stop, f).contains(x),
{
    lemma_field_call_named(t, n, x);
    lemma_calls_in_has(t, f, stop, f, n, x);
}

proof fn lemma_edges_upto_has(t: TreeModel, root: int, f: int, m: int, locals: Seq<Seq<char>>, e: CallEdgeModel)
    requires
        root <= f < m,
        is_function_node(t, f),
        spec_function_name(t, f) matches Some(name) && edges_for(
            name,
            calls_in(t, f, t.nodes[f].has_error, f),
            locals,
        ).contains(e),
    ensures
        edges_upto(t, root, m, locals).contains(e),
    decreases m - root,
{
    if m - 1 == f {
        let here = edges_for(spec_function_name(t, f)->0, calls_in(t, f, t.nodes[f].has_error, f), locals);
        let k = choose|k: int| 0 <= k < here.len() && #[trigger] here[k] == e;
        assert(edges_upto(t, root, m, locals)[edges_upto(t, root, f, locals).len() + k] == e);
    } else {
        lemma_edges_upto_has(t, root, f, m - 1, locals, e);
        let prev = edges_upto(t, root, m - 1, locals);
        let k = choose|k: int| 0 <= k < prev.len() && #[trigger] prev[k] == e;
        assert(edges_upto(t, root, m, locals)[k] == e);
    }
}

/// The call graph has an edge from a named function to every method it
/// calls through a field expression in its own body, external exactly when
/// no function or macro of that name is defined under `root`.
pub proof fn field_expression_calls_give_edges(t: TreeModel, root: int, f: int, n: int, x: Seq<char>)
    requires
        t.wf(),
        t.valid(root),
        root <= f < t.end(root),
        is_function_node(t, f),
        spec_function_name(t, f) is Some,
        f <= n < t.end(f),
        field_call(t, n, x),
        t.nodes[f].has_error ==> outside_nested_functions(t, f, n),
    ensures
        spec_call_edges(t, root).contains(
            CallEdgeModel {
                caller: spec_function_name(t, f)->0,
                callee: x,
                is_external: !local_names_upto(t, root, t.end(root)).contains(x),
            },
        ),
{
    assert(t.node_wf(root));
    assert(t.valid(f));
    let name = spec_function_name(t, f)->0;
    let locals = local_names_upto(t, root, t.end(root));
    let cs = calls_in(t, f, t.nodes[f].has_error, f);
    field_expression_calls_are_callees(t, f, t.nodes[f].has_error, n, x);
    let k = choose|k: int| 0 <= k < cs.len() && #[trigger] cs[k] == x;
    let e = CallEdgeModel { caller: name, callee: x, is_external: !locals.contains(x) };
    assert(edges_for(name, cs, locals)[k] == e);
    lemma_edges_upto_has(t, root, f, t.end(root), locals, e);
}

} // verus!
