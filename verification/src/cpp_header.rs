//! Best-effort content-based disambiguation of `.h` files between C and
//! C++.
//!
//! A `.h` file resolves to the C grammar by extension; [`looks_like_cpp`]
//! catches the common exception, a header using syntax that has no meaning
//! in C at all. `false` means "consistent with C", not "confirmed C". The
//! file is parsed with the C++ grammar, which accepts nearly all C, and
//! searched for a C++-only node kind.

use vstd::prelude::*;
use crate::grammar::{Grammar, TsNode, node_matches, parse_bytes, parse_succeeds, ts_parse};
use crate::syntax::{SyntaxTree, TreeModel};
use crate::text::str_eq;

verus! {

/// The node kinds tree-sitter-cpp only produces for constructs with no C
/// meaning.
pub open spec fn spec_is_cpp_only_kind(k: Seq<char>) -> bool {
    ||| k == "class_specifier"@
    ||| k == "namespace_definition"@
    ||| k == "namespace_alias_definition"@
    ||| k == "template_declaration"@
    ||| k == "template_instantiation"@
    ||| k == "using_declaration"@
    ||| k == "access_specifier"@
    ||| k == "qualified_identifier"@
    ||| k == "reference_declarator"@
    ||| k == "new_expression"@
    ||| k == "delete_expression"@
    ||| k == "try_statement"@
    ||| k == "catch_clause"@
    ||| k == "throw_statement"@
    ||| k == "friend_declaration"@
    ||| k == "operator_cast"@
    ||| k == "operator_name"@
    ||| k == "lambda_expression"@
    ||| k == "destructor_name"@
    ||| k == "field_initializer_list"@
    ||| k == "base_class_clause"@
    ||| k == "noexcept"@
    ||| k == "concept_definition"@
    ||| k == "requires_clause"@
}

/// Whether node `n` is of a C++-only kind.
pub fn is_cpp_only_marker(tree: &SyntaxTree, n: usize) -> (r: bool)
    requires
        n < tree@.nodes.len(),
    ensures
        r == spec_is_cpp_only_kind(tree@.kind(n as int)),
{
    let k = tree.node(n).kind.as_str();
    str_eq(k, "class_specifier") || str_eq(k, "namespace_definition") || str_eq(k, "namespace_alias_definition")
        || str_eq(k, "template_declaration") || str_eq(k, "template_instantiation") || str_eq(k, "using_declaration")
        || str_eq(k, "access_specifier") || str_eq(k, "qualified_identifier") || str_eq(k, "reference_declarator")
        || str_eq(k, "new_expression") || str_eq(k, "delete_expression") || str_eq(k, "try_statement") || str_eq(
        k,
        "catch_clause",
    ) || str_eq(k, "throw_statement") || str_eq(k, "friend_declaration") || str_eq(k, "operator_cast") || str_eq(
        k,
        "operator_name",
    ) || str_eq(k, "lambda_expression") || str_eq(k, "destructor_name") || str_eq(k, "field_initializer_list")
        || str_eq(k, "base_class_clause") || str_eq(k, "noexcept") || str_eq(k, "concept_definition") || str_eq(
        k,
        "requires_clause",
    )
}

/// Some node of the tree is of a C++-only kind.
pub open spec fn has_cpp_marker(t: TreeModel) -> bool {
    exists|i: int| 0 <= i < t.nodes.len() && #[trigger] spec_is_cpp_only_kind(t.kind(i))
}

/// Whether a tree parsed with the C++ grammar holds a C++-only construct.
pub fn looks_like_cpp_tree(tree: &SyntaxTree) -> (r: bool)
    ensures
        r == has_cpp_marker(tree@),
{
    let n = tree.len();
    let mut i: usize = 0;
    while i < n
        invariant
            n == tree@.nodes.len(),
            i <= n,
            forall|j: int| 0 <= j < i ==> !(#[trigger] spec_is_cpp_only_kind(tree@.kind(j))),
        decreases n - i,
    {
        if is_cpp_only_marker(tree, i) {
            return true;
        }
        i = i + 1;
    }
    false
}

/// A node of the parse `ns` has a C++-only kind.
pub open spec fn ts_has_cpp_kind(ns: Seq<TsNode>) -> bool {
    exists|i: int| 0 <= i < ns.len() && #[trigger] spec_is_cpp_only_kind(ns[i].kind)
}

/// Whether the C++ grammar's parse of `source` converts and holds a
/// C++-only node.
pub open spec fn spec_looks_like_cpp(source: Seq<u8>) -> bool {
    parse_succeeds(Grammar::Cpp, source) && ts_has_cpp_kind(ts_parse(Grammar::Cpp, source))
}

/// Returns `true` if `source`'s syntax contains a construct with no meaning
/// in C, so the file can only be C++: the C++ grammar's parse of it holds a
/// C++-only node. `false` also when the grammar or the parse fails.
pub fn looks_like_cpp(source: &[u8]) -> (r: bool)
    ensures
        r == spec_looks_like_cpp(source@),
{
    match parse_bytes(source, Grammar::Cpp) {
        Some(tree) => {
            let r = looks_like_cpp_tree(&tree);
            proof {
                let ns = ts_parse(Grammar::Cpp, source@);
                let t = tree@;
                if r {
                    let i = choose|i: int| 0 <= i < t.nodes.len() && #[trigger] spec_is_cpp_only_kind(t.kind(i));
                    assert(node_matches(t, ns, i));
                    assert(spec_is_cpp_only_kind(ns[i].kind));
                }
                if ts_has_cpp_kind(ns) {
                    let i = choose|i: int| 0 <= i < ns.len() && #[trigger] spec_is_cpp_only_kind(ns[i].kind);
                    assert(node_matches(t, ns, i));
                    assert(spec_is_cpp_only_kind(t.kind(i)));
                }
            }
            r
        },
        None => false,
    }
}

} // verus!
