//! Grammar dispatch and parsing: maps file extensions and registry keys to
//! the tree-sitter grammar that parses them, and turns a tree-sitter parse
//! into a [`SyntaxTree`].

use vstd::prelude::*;
use crate::syntax::{SyntaxNode, SyntaxTree, TreeModel};
use crate::text::{
    byte_len, char_width, chars_of, decode_marked, decode_utf8, lemma_byte_len_take, lemma_encode_subrange,
    lemma_raw_bytes_len, lemma_raw_bytes_none, lemma_raw_bytes_subrange, marks_at_invalid, lemma_valid_span_aligned, marks_ok, raw_bytes, str_eq, unmarked, utf8_width,
};
use crate::registry::{file_extension, lemma_registry_literals, path_extension, spec_languages};
use crate::cpp_header::{looks_like_cpp, spec_looks_like_cpp};
use vstd::utf8::{encode_utf8, valid_utf8};

verus! {

#[verifier::external_type_specification]
#[verifier::external_body]
pub struct ExLanguage(tree_sitter::Language);

#[verifier::external_type_specification]
#[verifier::external_body]
pub struct ExParser(tree_sitter::Parser);

#[verifier::external_type_specification]
#[verifier::external_body]
pub struct ExTree(tree_sitter::Tree);

#[verifier::external_type_specification]
#[verifier::external_body]
pub struct ExNode<'a>(tree_sitter::Node<'a>);

#[verifier::external_type_specification]
#[verifier::external_body]
pub struct ExTreeCursor<'a>(tree_sitter::TreeCursor<'a>);

/// The grammars the substrate dispatches to.
#[derive(Clone, Copy, PartialEq, Eq, Debug, Structural)]
pub enum Grammar {
    Ada,
    C,
    Cpp,
    CSharp,
    Fortran,
    Go,
    Java,
    JavaScript,
    Kotlin,
    Lua,
    Php,
    Python,
    Rust,
    Scala,
    Swift,
    TypeScript,
    Tsx,
}

/// The grammar `language_for_file` dispatches an extension to.
pub open spec fn spec_grammar_for_ext(e: Seq<char>) -> Option<Grammar> {
    if e == "adb"@ || e == "ada"@ || e == "ads"@ {
        Some(Grammar::Ada)
    } else if e == "cpp"@ || e == "cc"@ || e == "cxx"@ || e == "hpp"@ || e == "hxx"@ {
        Some(Grammar::Cpp)
    } else if e == "rs"@ {
        Some(Grammar::Rust)
    } else if e == "py"@ {
        Some(Grammar::Python)
    } else if e == "js"@ || e == "mjs"@ || e == "cjs"@ || e == "jsx"@ {
        Some(Grammar::JavaScript)
    } else if e == "ts"@ {
        Some(Grammar::TypeScript)
    } else if e == "tsx"@ {
        Some(Grammar::Tsx)
    } else if e == "go"@ {
        Some(Grammar::Go)
    } else if e == "java"@ {
        Some(Grammar::Java)
    } else if e == "cs"@ {
        Some(Grammar::CSharp)
    } else if e == "kt"@ || e == "kts"@ {
        Some(Grammar::Kotlin)
    } else if e == "swift"@ {
        Some(Grammar::Swift)
    } else if e == "php"@ {
        Some(Grammar::Php)
    } else if e == "f90"@ || e == "f95"@ || e == "f03"@ || e == "f08"@ || e == "F90"@ || e
        == "F95"@ || e == "F03"@ || e == "F08"@ {
        Some(Grammar::Fortran)
    } else if e == "scala"@ || e == "sc"@ {
        Some(Grammar::Scala)
    } else if e == "lua"@ {
        Some(Grammar::Lua)
    } else if e == "c"@ || e == "h"@ {
        Some(Grammar::C)
    } else {
        None
    }
}

/// The grammar `language_for_key` dispatches a registry key to.
pub open spec fn spec_grammar_for_key(k: Seq<char>) -> Option<Grammar> {
    if k == "ada"@ {
        Some(Grammar::Ada)
    } else if k == "c"@ {
        Some(Grammar::C)
    } else if k == "cpp"@ {
        Some(Grammar::Cpp)
    } else if k == "csharp"@ {
        Some(Grammar::CSharp)
    } else if k == "fortran"@ {
        Some(Grammar::Fortran)
    } else if k == "go"@ {
        Some(Grammar::Go)
    } else if k == "java"@ {
        Some(Grammar::Java)
    } else if k == "javascript"@ {
        Some(Grammar::JavaScript)
    } else if k == "kotlin"@ {
        Some(Grammar::Kotlin)
    } else if k == "lua"@ {
        Some(Grammar::Lua)
    } else if k == "php"@ {
        Some(Grammar::Php)
    } else if k == "python"@ {
        Some(Grammar::Python)
    } else if k == "rust"@ {
        Some(Grammar::Rust)
    } else if k == "scala"@ {
        Some(Grammar::Scala)
    } else if k == "swift"@ {
        Some(Grammar::Swift)
    } else if k == "typescript"@ {
        Some(Grammar::TypeScript)
    } else if k == "tsx"@ {
        Some(Grammar::Tsx)
    } else {
        None
    }
}

/// The grammar for a file extension.
pub fn grammar_for_extension(e: &str) -> (r: Option<Grammar>)
    ensures
        r == spec_grammar_for_ext(e@),
{
    if str_eq(e, "adb") || str_eq(e, "ada") || str_eq(e, "ads") {
        Some(Grammar::Ada)
    } else if str_eq(e, "cpp") || str_eq(e, "cc") || str_eq(e, "cxx") || str_eq(e, "hpp")
        || str_eq(e, "hxx") {
        Some(Grammar::Cpp)
    } else if str_eq(e, "rs") {
        Some(Grammar::Rust)
    } else if str_eq(e, "py") {
        Some(Grammar::Python)
    } else if str_eq(e, "js") || str_eq(e, "mjs") || str_eq(e, "cjs") || str_eq(e, "jsx") {
        Some(Grammar::JavaScript)
    } else if str_eq(e, "ts") {
        Some(Grammar::TypeScript)
    } else if str_eq(e, "tsx") {
        Some(Grammar::Tsx)
    } else if str_eq(e, "go") {
        Some(Grammar::Go)
    } else if str_eq(e, "java") {
        Some(Grammar::Java)
    } else if str_eq(e, "cs") {
        Some(Grammar::CSharp)
    } else if str_eq(e, "kt") || str_eq(e, "kts") {
        Some(Grammar::Kotlin)
    } else if str_eq(e, "swift") {
        Some(Grammar::Swift)
    } else if str_eq(e, "php") {
        Some(Grammar::Php)
    } else if str_eq(e, "f90") || str_eq(e, "f95") || str_eq(e, "f03") || str_eq(e, "f08")
        || str_eq(e, "F90") || str_eq(e, "F95") || str_eq(e, "F03") || str_eq(e, "F08") {
        Some(Grammar::Fortran)
    } else if str_eq(e, "scala") || str_eq(e, "sc") {
        Some(Grammar::Scala)
    } else if str_eq(e, "lua") {
        Some(Grammar::Lua)
    } else if str_eq(e, "c") || str_eq(e, "h") {
        Some(Grammar::C)
    } else {
        None
    }
}

/// The grammar for a registry key (`"tsx"` selects the TSX dialect).
pub fn grammar_for_key(k: &str) -> (r: Option<Grammar>)
    ensures
        r == spec_grammar_for_key(k@),
{
    if str_eq(k, "ada") {
        Some(Grammar::Ada)
    } else if str_eq(k, "c") {
        Some(Grammar::C)
    } else if str_eq(k, "cpp") {
        Some(Grammar::Cpp)
    } else if str_eq(k, "csharp") {
        Some(Grammar::CSharp)
    } else if str_eq(k, "fortran") {
        Some(Grammar::Fortran)
    } else if str_eq(k, "go") {
        Some(Grammar::Go)
    } else if str_eq(k, "java") {
        Some(Grammar::Java)
    } else if str_eq(k, "javascript") {
        Some(Grammar::JavaScript)
    } else if str_eq(k, "kotlin") {
        Some(Grammar::Kotlin)
    } else if str_eq(k, "lua") {
        Some(Grammar::Lua)
    } else if str_eq(k, "php") {
        Some(Grammar::Php)
    } else if str_eq(k, "python") {
        Some(Grammar::Python)
    } else if str_eq(k, "rust") {
        Some(Grammar::Rust)
    } else if str_eq(k, "scala") {
        Some(Grammar::Scala)
    } else if str_eq(k, "swift") {
        Some(Grammar::Swift)
    } else if str_eq(k, "typescript") {
        Some(Grammar::TypeScript)
    } else if str_eq(k, "tsx") {
        Some(Grammar::Tsx)
    } else {
        None
    }
}

/// The grammar for `path`, by its extension.
pub open spec fn spec_grammar_for_file(path: Seq<char>) -> Option<Grammar> {
    match file_extension(path) {
        Some(e) => spec_grammar_for_ext(e),
        None => None,
    }
}

/// The grammar `language_for_file` would load for `path`.
pub fn grammar_for_file(path: &str) -> (r: Option<Grammar>)
    ensures
        r == spec_grammar_for_file(path@),
        forall|d: int|
            crate::registry::bare_file_name(path@) && #[trigger] crate::registry::last_dot_at(path@, d)
                ==> spec_grammar_for_file(path@) == spec_grammar_for_ext(crate::registry::bare_extension(path@, d)),
{
    match crate::registry::path_extension(path) {
        Some(e) => grammar_for_extension(e.as_str()),
        None => None,
    }
}

/// `tree_sitter_ada::LANGUAGE`.
#[verifier::external_body]
fn ada_language() -> (r: tree_sitter::Language)
    ensures
        language_grammar(r) == Grammar::Ada,
{
    tree_sitter_ada::LANGUAGE.into()
}

/// `tree_sitter_c::LANGUAGE`.
#[verifier::external_body]
fn c_language() -> (r: tree_sitter::Language)
    ensures
        language_grammar(r) == Grammar::C,
{
    tree_sitter_c::LANGUAGE.into()
}

/// `tree_sitter_cpp::LANGUAGE`.
#[verifier::external_body]
fn cpp_language() -> (r: tree_sitter::Language)
    ensures
        language_grammar(r) == Grammar::Cpp,
{
    tree_sitter_cpp::LANGUAGE.into()
}

/// `tree_sitter_c_sharp::LANGUAGE`.
#[verifier::external_body]
fn csharp_language() -> (r: tree_sitter::Language)
    ensures
        language_grammar(r) == Grammar::CSharp,
{
    tree_sitter_c_sharp::LANGUAGE.into()
}

/// `tree_sitter_fortran::LANGUAGE`.
#[verifier::external_body]
fn fortran_language() -> (r: tree_sitter::Language)
    ensures
        language_grammar(r) == Grammar::Fortran,
{
    tree_sitter_fortran::LANGUAGE.into()
}

/// `tree_sitter_go::LANGUAGE`.
#[verifier::external_body]
fn go_language() -> (r: tree_sitter::Language)
    ensures
        language_grammar(r) == Grammar::Go,
{
    tree_sitter_go::LANGUAGE.into()
}

/// `tree_sitter_java::LANGUAGE`.
#[verifier::external_body]
fn java_language() -> (r: tree_sitter::Language)
    ensures
        language_grammar(r) == Grammar::Java,
{
    tree_sitter_java::LANGUAGE.into()
}

/// `tree_sitter_javascript::LANGUAGE`.
#[verifier::external_body]
fn javascript_language() -> (r: tree_sitter::Language)
    ensures
        language_grammar(r) == Grammar::JavaScript,
{
    tree_sitter_javascript::LANGUAGE.into()
}

/// `tree_sitter_kotlin_ng::LANGUAGE`.
#[verifier::external_body]
fn kotlin_language() -> (r: tree_sitter::Language)
    ensures
        language_grammar(r) == Grammar::Kotlin,
{
    tree_sitter_kotlin_ng::LANGUAGE.into()
}

/// `tree_sitter_lua::LANGUAGE`.
#[verifier::external_body]
fn lua_language() -> (r: tree_sitter::Language)
    ensures
        language_grammar(r) == Grammar::Lua,
{
    tree_sitter_lua::LANGUAGE.into()
}

/// `tree_sitter_php::LANGUAGE_PHP`.
#[verifier::external_body]
fn php_language() -> (r: tree_sitter::Language)
    ensures
        language_grammar(r) == Grammar::Php,
{
    tree_sitter_php::LANGUAGE_PHP.into()
}

/// `tree_sitter_python::LANGUAGE`.
#[verifier::external_body]
fn python_language() -> (r: tree_sitter::Language)
    ensures
        language_grammar(r) == Grammar::Python,
{
    tree_sitter_python::LANGUAGE.into()
}

/// `tree_sitter_rust::LANGUAGE`.
#[verifier::external_body]
fn rust_language() -> (r: tree_sitter::Language)
    ensures
        language_grammar(r) == Grammar::Rust,
{
    tree_sitter_rust::LANGUAGE.into()
}

/// `tree_sitter_scala::LANGUAGE`.
#[verifier::external_body]
fn scala_language() -> (r: tree_sitter::Language)
    ensures
        language_grammar(r) == Grammar::Scala,
{
    tree_sitter_scala::LANGUAGE.into()
}

/// `tree_sitter_swift::LANGUAGE`.
#[verifier::external_body]
fn swift_language() -> (r: tree_sitter::Language)
    ensures
        language_grammar(r) == Grammar::Swift,
{
    tree_sitter_swift::LANGUAGE.into()
}

/// `tree_sitter_typescript::LANGUAGE_TYPESCRIPT`.
#[verifier::external_body]
fn typescript_language() -> (r: tree_sitter::Language)
    ensures
        language_grammar(r) == Grammar::TypeScript,
{
    tree_sitter_typescript::LANGUAGE_TYPESCRIPT.into()
}

/// `tree_sitter_typescript::LANGUAGE_TSX`.
#[verifier::external_body]
fn tsx_language() -> (r: tree_sitter::Language)
    ensures
        language_grammar(r) == Grammar::Tsx,
{
    tree_sitter_typescript::LANGUAGE_TSX.into()
}

/// The tree-sitter `Language` of a grammar.
pub fn grammar_language(g: Grammar) -> (r: tree_sitter::Language)
    ensures
        language_grammar(r) == g,
{
    match g {
        Grammar::Ada => ada_language(),
        Grammar::C => c_language(),
        Grammar::Cpp => cpp_language(),
        Grammar::CSharp => csharp_language(),
        Grammar::Fortran => fortran_language(),
        Grammar::Go => go_language(),
        Grammar::Java => java_language(),
        Grammar::JavaScript => javascript_language(),
        Grammar::Kotlin => kotlin_language(),
        Grammar::Lua => lua_language(),
        Grammar::Php => php_language(),
        Grammar::Python => python_language(),
        Grammar::Rust => rust_language(),
        Grammar::Scala => scala_language(),
        Grammar::Swift => swift_language(),
        Grammar::TypeScript => typescript_language(),
        Grammar::Tsx => tsx_language(),
    }
}

/// Returns the tree-sitter `Language` for `path` based on its extension;
/// `None` if the extension is unknown.
pub fn language_for_file(path: &str) -> (r: Option<tree_sitter::Language>)
    ensures
        r is Some <==> spec_grammar_for_file(path@) is Some,
        r matches Some(l) ==> spec_grammar_for_file(path@) == Some(language_grammar(l)),
{
    match grammar_for_file(path) {
        Some(g) => Some(grammar_language(g)),
        None => None,
    }
}

/// A `.h` file dispatches to the C grammar by extension.
proof fn lemma_h_is_c()
    ensures
        spec_grammar_for_ext("h"@) == Some(Grammar::C),
{
    lemma_registry_literals();
}

/// The grammar for `path` given its content: as [`spec_grammar_for_file`],
/// except that a `.h` file whose C++ parse holds a C++-only node gets the
/// C++ grammar.
pub open spec fn spec_grammar_for_header(path: Seq<char>, source: Seq<u8>) -> Option<Grammar> {
    if file_extension(path) == Some("h"@) {
        if spec_looks_like_cpp(source) {
            Some(Grammar::Cpp)
        } else {
            Some(Grammar::C)
        }
    } else {
        spec_grammar_for_file(path)
    }
}

/// The grammar for `path` given its content: as [`grammar_for_file`],
/// except that a `.h` file whose text holds a C++-only construct
/// ([`looks_like_cpp`]) gets the C++ grammar.
pub fn grammar_for_header_content(path: &str, source: &[u8]) -> (r: Option<Grammar>)
    ensures
        r == spec_grammar_for_header(path@, source@),
{
    proof {
        lemma_h_is_c();
    }
    match path_extension(path) {
        Some(e) => {
            if str_eq(e.as_str(), "h") && looks_like_cpp(source) {
                Some(Grammar::Cpp)
            } else {
                grammar_for_extension(e.as_str())
            }
        },
        None => None,
    }
}

/// Content-aware variant of [`language_for_file`]: identical except for
/// `.h`, which gets the C++ grammar when `source` holds an unambiguous
/// C++-only construct, and C otherwise.
pub fn language_for_header_content(path: &str, source: &[u8]) -> (r: Option<tree_sitter::Language>)
    ensures
        r is Some <==> spec_grammar_for_file(path@) is Some,
        r matches Some(l) ==> spec_grammar_for_header(path@, source@) == Some(language_grammar(l)),
{
    match grammar_for_header_content(path, source) {
        Some(g) => Some(grammar_language(g)),
        None => None,
    }
}

/// Returns the tree-sitter `Language` for a registry key; `None` if the key
/// is unknown.
pub fn language_for_key(key: &str) -> (r: Option<tree_sitter::Language>)
    ensures
        r is Some <==> spec_grammar_for_key(key@) is Some,
        r matches Some(l) ==> spec_grammar_for_key(key@) == Some(language_grammar(l)),
{
    match grammar_for_key(key) {
        Some(g) => Some(grammar_language(g)),
        None => None,
    }
}

/// One node of a tree-sitter parse, as its cursor and node accessors
/// report it: kind, field name under its parent, whether it is named or
/// holds an error, byte and row span, depth below the root, and the number
/// of nodes in its subtree (itself included).
pub struct TsNode {
    pub kind: Seq<char>,
    pub field: Option<Seq<char>>,
    pub named: bool,
    pub has_error: bool,
    pub start_byte: usize,
    pub end_byte: usize,
    pub start_row: usize,
    pub end_row: usize,
    pub depth: usize,
    pub descendants: usize,
}

/// The grammar a tree-sitter `Language` value is the language of.
pub uninterp spec fn language_grammar(l: tree_sitter::Language) -> Grammar;

/// Whether tree-sitter accepts the ABI version of `g`'s language, which
/// `Parser::set_language` checks.
pub uninterp spec fn grammar_loads(g: Grammar) -> bool;

/// The grammar a parser was last successfully given (`None` for a new
/// parser).
pub uninterp spec fn parser_grammar(p: tree_sitter::Parser) -> Option<Grammar>;

/// The nodes of tree-sitter's parse of the bytes `source` with `g`, in
/// pre-order: the node with descendant index `i` is at position `i`.
pub uninterp spec fn ts_parse(g: Grammar, source: Seq<u8>) -> Seq<TsNode>;

/// The nodes of a tree-sitter tree, in pre-order by descendant index.
pub uninterp spec fn tree_nodes(t: tree_sitter::Tree) -> Seq<TsNode>;

/// The nodes of the tree a cursor walks, in pre-order by descendant index.
pub uninterp spec fn cursor_nodes(c: tree_sitter::TreeCursor) -> Seq<TsNode>;

/// The descendant index of a cursor's current node.
pub uninterp spec fn cursor_pos(c: tree_sitter::TreeCursor) -> usize;

/// What tree-sitter reports of a node.
pub uninterp spec fn node_rec(n: tree_sitter::Node) -> TsNode;

/// `tree_sitter::Parser::new`: a parser with no language.
#[verifier::external_body]
fn new_parser() -> (r: tree_sitter::Parser)
    ensures
        parser_grammar(r) is None,
{
    tree_sitter::Parser::new()
}

/// `tree_sitter::Parser::set_language`; `true` when the grammar loaded. It
/// fails only on an ABI version mismatch, a property of the grammar, and
/// then leaves the parser as it was.
#[verifier::external_body]
fn parser_set_language(parser: &mut tree_sitter::Parser, language: &tree_sitter::Language) -> (r: bool)
    ensures
        r == grammar_loads(language_grammar(*language)),
        r ==> parser_grammar(*final(parser)) == Some(language_grammar(*language)),
        !r ==> parser_grammar(*final(parser)) == parser_grammar(*old(parser)),
{
    parser.set_language(language).is_ok()
}

/// `tree_sitter::Parser::parse` on UTF-8 text, with no previous tree: the
/// parse of the text's bytes. It gives no tree only without a language (no
/// timeout or cancellation flag is ever set here).
#[verifier::external_body]
fn parser_parse(parser: &mut tree_sitter::Parser, source: &str) -> (r: Option<tree_sitter::Tree>)
    ensures
        parser_grammar(*final(parser)) == parser_grammar(*old(parser)),
        parser_grammar(*old(parser)) matches Some(g) ==> (r matches Some(t) && tree_nodes(t) == ts_parse(
            g,
            encode_utf8(source@),
        )),
{
    parser.parse(source, None)
}

/// `tree_sitter::Parser::parse` on raw bytes, with no previous tree, as
/// [`parser_parse`].
#[verifier::external_body]
fn parser_parse_bytes(parser: &mut tree_sitter::Parser, source: &[u8]) -> (r: Option<tree_sitter::Tree>)
    ensures
        parser_grammar(*final(parser)) == parser_grammar(*old(parser)),
        parser_grammar(*old(parser)) matches Some(g) ==> (r matches Some(t) && tree_nodes(t) == ts_parse(
            g,
            source@,
        )),
{
    parser.parse(source, None)
}

/// `tree_sitter::Tree::root_node`: descendant index `0`, whose subtree is
/// every node of the tree.
#[verifier::external_body]
fn tree_root<'a>(tree: &'a tree_sitter::Tree) -> (r: tree_sitter::Node<'a>)
    ensures
        node_rec(r) == tree_nodes(*tree)[0],
        node_rec(r).descendants == tree_nodes(*tree).len(),
{
    tree.root_node()
}

/// `tree_sitter::Tree::walk`: a cursor positioned at the root.
#[verifier::external_body]
fn tree_walk<'a>(tree: &'a tree_sitter::Tree) -> (r: tree_sitter::TreeCursor<'a>)
    ensures
        cursor_nodes(r) == tree_nodes(*tree),
        cursor_pos(r) == 0,
        cursor_pos(r) < cursor_nodes(r).len(),
        cursor_nodes(r)[0].depth == 0,
{
    tree.walk()
}

/// `tree_sitter::Node::descendant_count`.
#[verifier::external_body]
fn node_descendant_count(node: &tree_sitter::Node) -> (r: usize)
    ensures
        r == node_rec(*node).descendants,
{
    node.descendant_count()
}

/// `tree_sitter::TreeCursor::goto_first_child`; `true` when it moved, one
/// level down. The cursor stays on a node of its tree.
#[verifier::external_body]
fn cursor_goto_first_child(cursor: &mut tree_sitter::TreeCursor) -> (r: bool)
    ensures
        cursor_nodes(*final(cursor)) == cursor_nodes(*old(cursor)),
        cursor_pos(*old(cursor)) < cursor_nodes(*old(cursor)).len() ==> cursor_pos(*final(cursor))
            < cursor_nodes(*final(cursor)).len(),
        !r ==> cursor_pos(*final(cursor)) == cursor_pos(*old(cursor)),
        r && cursor_pos(*old(cursor)) < cursor_nodes(*old(cursor)).len() ==> cursor_nodes(*final(cursor))[cursor_pos(*final(cursor)) as int].depth == cursor_nodes(*old(cursor))[cursor_pos(*old(cursor)) as int].depth + 1,
{
    cursor.goto_first_child()
}

/// `tree_sitter::TreeCursor::goto_next_sibling`; `true` when it moved, on
/// the same level. The cursor stays on a node of its tree.
#[verifier::external_body]
fn cursor_goto_next_sibling(cursor: &mut tree_sitter::TreeCursor) -> (r: bool)
    ensures
        cursor_nodes(*final(cursor)) == cursor_nodes(*old(cursor)),
        cursor_pos(*old(cursor)) < cursor_nodes(*old(cursor)).len() ==> cursor_pos(*final(cursor))
            < cursor_nodes(*final(cursor)).len(),
        !r ==> cursor_pos(*final(cursor)) == cursor_pos(*old(cursor)),
        r && cursor_pos(*old(cursor)) < cursor_nodes(*old(cursor)).len() ==> cursor_nodes(*final(cursor))[cursor_pos(*final(cursor)) as int].depth == cursor_nodes(*old(cursor))[cursor_pos(*old(cursor)) as int].depth,
{
    cursor.goto_next_sibling()
}

/// `tree_sitter::TreeCursor::goto_parent`; `true` when it moved, one level
/// up. The cursor stays on a node of its tree.
#[verifier::external_body]
fn cursor_goto_parent(cursor: &mut tree_sitter::TreeCursor) -> (r: bool)
    ensures
        cursor_nodes(*final(cursor)) == cursor_nodes(*old(cursor)),
        cursor_pos(*old(cursor)) < cursor_nodes(*old(cursor)).len() ==> cursor_pos(*final(cursor))
            < cursor_nodes(*final(cursor)).len(),
        !r ==> cursor_pos(*final(cursor)) == cursor_pos(*old(cursor)),
        r && cursor_pos(*old(cursor)) < cursor_nodes(*old(cursor)).len() ==> cursor_nodes(*final(cursor))[cursor_pos(*final(cursor)) as int].depth + 1 == cursor_nodes(*old(cursor))[cursor_pos(*old(cursor)) as int].depth,
{
    cursor.goto_parent()
}

/// `tree_sitter::TreeCursor::goto_descendant`: moves to the node with
/// descendant index `index`.
#[verifier::external_body]
fn cursor_goto_descendant(cursor: &mut tree_sitter::TreeCursor, index: usize)
    requires
        index < cursor_nodes(*old(cursor)).len(),
    ensures
        cursor_nodes(*final(cursor)) == cursor_nodes(*old(cursor)),
        cursor_pos(*final(cursor)) == index,
{
    cursor.goto_descendant(index)
}

/// `tree_sitter::TreeCursor::descendant_index`.
#[verifier::external_body]
fn cursor_descendant_index(cursor: &tree_sitter::TreeCursor) -> (r: usize)
    ensures
        r == cursor_pos(*cursor),
{
    cursor.descendant_index()
}

/// `tree_sitter::TreeCursor::depth`.
#[verifier::external_body]
fn cursor_depth(cursor: &tree_sitter::TreeCursor) -> (r: usize)
    ensures
        cursor_pos(*cursor) < cursor_nodes(*cursor).len() ==> r == cursor_nodes(*cursor)[cursor_pos(
            *cursor,
        ) as int].depth,
{
    cursor.depth() as usize
}

/// `tree_sitter::TreeCursor::field_name`.
#[verifier::external_body]
fn cursor_field_name(cursor: &tree_sitter::TreeCursor) -> (r: Option<&'static str>)
    ensures
        cursor_pos(*cursor) < cursor_nodes(*cursor).len() ==> match r {
            Some(f) => cursor_nodes(*cursor)[cursor_pos(*cursor) as int].field == Some(f@),
            None => cursor_nodes(*cursor)[cursor_pos(*cursor) as int].field is None,
        },
{
    cursor.field_name()
}

/// `tree_sitter::TreeCursor::node`.
#[verifier::external_body]
fn cursor_node<'a>(cursor: &tree_sitter::TreeCursor<'a>) -> (r: tree_sitter::Node<'a>)
    ensures
        cursor_pos(*cursor) < cursor_nodes(*cursor).len() ==> node_rec(r) == cursor_nodes(*cursor)[cursor_pos(
            *cursor,
        ) as int],
{
    cursor.node()
}

/// `tree_sitter::Node::kind`.
#[verifier::external_body]
fn node_kind(node: &tree_sitter::Node) -> (r: &'static str)
    ensures
        r@ == node_rec(*node).kind,
{
    node.kind()
}

/// `tree_sitter::Node::is_named`.
#[verifier::external_body]
fn node_is_named(node: &tree_sitter::Node) -> (r: bool)
    ensures
        r == node_rec(*node).named,
{
    node.is_named()
}

/// `tree_sitter::Node::has_error`.
#[verifier::external_body]
fn node_has_error(node: &tree_sitter::Node) -> (r: bool)
    ensures
        r == node_rec(*node).has_error,
{
    node.has_error()
}

/// `tree_sitter::Node::start_byte`.
#[verifier::external_body]
fn node_start_byte(node: &tree_sitter::Node) -> (r: usize)
    ensures
        r == node_rec(*node).start_byte,
{
    node.start_byte()
}

/// `tree_sitter::Node::end_byte`.
#[verifier::external_body]
fn node_end_byte(node: &tree_sitter::Node) -> (r: usize)
    ensures
        r == node_rec(*node).end_byte,
{
    node.end_byte()
}

/// `tree_sitter::Node::start_position`, its row.
#[verifier::external_body]
fn node_start_row(node: &tree_sitter::Node) -> (r: usize)
    ensures
        r == node_rec(*node).start_row,
{
    node.start_position().row
}

/// `tree_sitter::Node::end_position`, its row.
#[verifier::external_body]
fn node_end_row(node: &tree_sitter::Node) -> (r: usize)
    ensures
        r == node_rec(*node).end_row,
{
    node.end_position().row
}

/// For each byte offset `b` of `src`'s UTF-8 encoding (and one past the
/// end), `m[b] == k + 1` when `b` is where character `k` starts (`k ==
/// src.len()` for the end), and `0` inside a character.
pub open spec fn is_byte_map(src: Seq<char>, m: Seq<usize>) -> bool {
    &&& m.len() == byte_len(src) + 1
    &&& forall|b: int|
        0 <= b < m.len() && #[trigger] m[b] > 0 ==> {
            &&& m[b] - 1 <= src.len()
            &&& byte_len(src.take(m[b] - 1)) == b
        }
    &&& forall|k: int| 0 <= k <= src.len() ==> m[#[trigger] byte_len(src.take(k)) as int] == k + 1
}

/// Each character takes at least one byte, so character offsets map to
/// strictly increasing byte offsets.
proof fn lemma_byte_len_take_strict(s: Seq<char>, j: int, k: int)
    requires
        0 <= j < k <= s.len(),
    ensures
        byte_len(s.take(j)) < byte_len(s.take(k)),
        byte_len(s.take(j)) + (k - j) <= byte_len(s.take(k)),
    decreases k - j,
{
    lemma_byte_len_take(s, k - 1);
    assert(utf8_width(s[k - 1]) >= 1);
    if j < k - 1 {
        lemma_byte_len_take_strict(s, j, k - 1);
    }
}

/// The map from byte offsets to character indices of `src`; `None` exactly
/// when the byte length does not fit in memory.
fn byte_map(src: &[char]) -> (r: Option<Vec<usize>>)
    ensures
        r is Some <==> byte_len(src@) < usize::MAX,
        r matches Some(m) ==> is_byte_map(src@, m@),
{
    proof {
        if src@.len() > 0 {
            lemma_byte_len_take_strict(src@, 0, src@.len() as int);
        }
        assert(src@.take(0) =~= Seq::<char>::empty());
        crate::text::lemma_byte_len_empty();
        assert(src@.take(src@.len() as int) =~= src@);
    }
    let mut total: usize = 0;
    let mut k: usize = 0;
    while k < src.len()
        invariant
            k <= src@.len(),
            total == byte_len(src@.take(k as int)),
        decreases src.len() - k,
    {
        proof {
            lemma_byte_len_take(src@, k as int);
        }
        let w = char_width(src[k]);
        match total.checked_add(w) {
            Some(t) => {
                total = t;
            },
            None => {
                proof {
                    crate::text::lemma_byte_len_take_mono(src@, k + 1, src@.len() as int);
                    assert(src@.take(src@.len() as int) =~= src@);
                }
                return None;
            },
        }
        k = k + 1;
    }
    assert(src@.take(src@.len() as int) =~= src@);
    let size = match total.checked_add(1) {
        Some(s) => s,
        None => {
            return None;
        },
    };
    let mut m: Vec<usize> = Vec::new();
    while m.len() < size
        invariant
            m@.len() <= size,
            forall|b: int| 0 <= b < m@.len() ==> #[trigger] m@[b] == 0,
        decreases size - m.len(),
    {
        m.push(0);
    }
    let mut off: usize = 0;
    let mut k: usize = 0;
    while k < src.len()
        invariant
            k <= src@.len(),
            m@.len() == size,
            size == byte_len(src@) + 1,
            off == byte_len(src@.take(k as int)),
            off <= byte_len(src@),
            forall|b: int|
                0 <= b < m@.len() && #[trigger] m@[b] > 0 ==> {
                    &&& b < off
                    &&& m@[b] - 1 < k
                    &&& byte_len(src@.take(m@[b] - 1)) == b
                },
            forall|j: int| 0 <= j < k ==> m@[#[trigger] byte_len(src@.take(j)) as int] == j + 1,
        decreases src.len() - k,
    {
        proof {
            lemma_byte_len_take(src@, k as int);
            crate::text::lemma_byte_len_take_mono(src@, k + 1, src@.len() as int);
            assert(src@.take(src@.len() as int) =~= src@);
        }
        let ghost before = m@;
        m.set(off, k + 1);
        proof {
            assert forall|j: int| 0 <= j < k + 1 implies m@[#[trigger] byte_len(src@.take(j)) as int] == j + 1 by {
                if j < k {
                    lemma_byte_len_take_strict(src@, j, k as int);
                    assert(m@[byte_len(src@.take(j)) as int] == before[byte_len(src@.take(j)) as int]);
                }
            }
        }
        let w = char_width(src[k]);
        off = off + w;
        k = k + 1;
    }
    assert(src@.take(src@.len() as int) =~= src@);
    let last = match k.checked_add(1) {
        Some(x) => x,
        None => {
            return None;
        },
    };
    let ghost before = m@;
    m.set(off, last);
    proof {
        assert forall|j: int| 0 <= j <= src@.len() implies m@[#[trigger] byte_len(src@.take(j)) as int] == j + 1 by {
            if j < src@.len() {
                lemma_byte_len_take_strict(src@, j, src@.len() as int);
                assert(m@[byte_len(src@.take(j)) as int] == before[byte_len(src@.take(j)) as int]);
            }
        }
    }
    Some(m)
}

/// The character range of the byte span `sb..eb`: `Some` exactly when both
/// ends fall on character boundaries (or the end), in order.
fn char_span(src: &[char], m: &Vec<usize>, sb: usize, eb: usize) -> (r: Option<(usize, usize)>)
    requires
        is_byte_map(src@, m@),
    ensures
        r is Some <==> exists|a: int, b: int|
            0 <= a <= b <= src@.len() && #[trigger] byte_len(src@.take(a)) == sb && #[trigger] byte_len(src@.take(b))
                == eb,
        r matches Some((a, b)) ==> {
            &&& a <= b <= src@.len()
            &&& byte_len(src@.take(a as int)) == sb
            &&& byte_len(src@.take(b as int)) == eb
        },
{
    proof {
        assert forall|a: int, b: int|
            0 <= a <= b <= src@.len() && #[trigger] byte_len(src@.take(a)) == sb && #[trigger] byte_len(src@.take(b))
                == eb implies sb < m@.len() && eb < m@.len() && m@[sb as int] == a + 1 && m@[eb as int] == b + 1 by {
            crate::text::lemma_byte_len_take_mono(src@, a, src@.len() as int);
            crate::text::lemma_byte_len_take_mono(src@, b, src@.len() as int);
            assert(src@.take(src@.len() as int) =~= src@);
        }
    }
    if sb < m.len() && eb < m.len() && m[sb] > 0 && m[eb] > 0 && m[sb] <= m[eb] {
        Some((m[sb] - 1, m[eb] - 1))
    } else {
        None
    }
}

/// Whether a node with byte span `sb..eb` over the characters `cs` gets a
/// text: an empty span within the text always does; a nonempty one when it
/// runs between character boundaries (over characters standing for no
/// invalid byte, when `marked`).
pub open spec fn span_text_ok(cs: Seq<char>, marks: Seq<Option<u8>>, marked: bool, sb: int, eb: int) -> bool {
    ||| sb == eb && eb <= byte_len(cs)
    ||| exists|a: int, b: int|
        0 <= a <= b <= cs.len() && #[trigger] byte_len(cs.take(a)) == sb && #[trigger] byte_len(cs.take(b)) == eb
            && (marked ==> unmarked(marks, a, b))
}

proof fn lemma_unmarked_mark_count(marks: Seq<Option<u8>>, a: int, b: int)
    requires
        0 <= a <= b <= marks.len(),
        unmarked(marks, a, b),
    ensures
        mark_count(marks, a) == mark_count(marks, b),
    decreases b - a,
{
    if a < b {
        lemma_unmarked_mark_count(marks, a, b - 1);
    }
}

/// Character offsets of a text are determined by their byte offsets.
proof fn lemma_byte_len_take_injective(s: Seq<char>, j: int, k: int)
    requires
        0 <= j <= s.len(),
        0 <= k <= s.len(),
        byte_len(s.take(j)) == byte_len(s.take(k)),
    ensures
        j == k,
{
    if j < k {
        lemma_byte_len_take_strict(s, j, k);
    } else if k < j {
        lemma_byte_len_take_strict(s, k, j);
    }
}

/// The text range of a node with byte span `sb..eb`: its character range,
/// or an empty one for an empty span, exactly when [`span_text_ok`].
fn node_text(
    chars: &Vec<char>,
    m: &Vec<usize>,
    counts: &Option<Vec<usize>>,
    Ghost(marks): Ghost<Seq<Option<u8>>>,
    sb: usize,
    eb: usize,
) -> (r: Option<(usize, usize)>)
    requires
        is_byte_map(chars@, m@),
        counts matches Some(c) ==> c@.len() == marks.len() + 1 && marks.len() == chars@.len() && forall|k: int|
            0 <= k <= marks.len() ==> #[trigger] c@[k] == mark_count(marks, k),
    ensures
        r is Some <==> span_text_ok(chars@, marks, counts is Some, sb as int, eb as int),
        r matches Some((a, b)) ==> {
            &&& a <= b <= chars@.len()
            &&& sb == eb ==> a == b && eb <= byte_len(chars@)
            &&& sb != eb ==> byte_len(chars@.take(a as int)) == sb && byte_len(chars@.take(b as int)) == eb
            &&& counts is Some ==> unmarked(marks, a as int, b as int)
        },
{
    let span = char_span(chars.as_slice(), m, sb, eb);
    match span {
        Some((a, b)) => {
            proof {
                if sb == eb {
                    lemma_byte_len_take_injective(chars@, a as int, b as int);
                }
                crate::text::lemma_byte_len_take_mono(chars@, b as int, chars@.len() as int);
                assert(chars@.take(chars@.len() as int) =~= chars@);
            }
            match counts {
                Some(c) => {
                    if c[a] == c[b] {
                        proof {
                            lemma_mark_count_unmarked(marks, a as int, b as int);
                        }
                        Some((a, b))
                    } else {
                        proof {
                            if span_text_ok(chars@, marks, true, sb as int, eb as int) {
                                assert(sb != eb);
                                let (a2, b2) = choose|a2: int, b2: int|
                                    0 <= a2 <= b2 <= chars@.len() && #[trigger] byte_len(chars@.take(a2)) == sb
                                        && #[trigger] byte_len(chars@.take(b2)) == eb && (true ==> unmarked(marks, a2, b2));
                                lemma_byte_len_take_injective(chars@, a as int, a2);
                                lemma_byte_len_take_injective(chars@, b as int, b2);
                                lemma_unmarked_mark_count(marks, a as int, b as int);
                            }
                        }
                        None
                    }
                },
                None => Some((a, b)),
            }
        },
        None => {
            if sb == eb && eb < m.len() {
                Some((0, 0))
            } else {
                None
            }
        },
    }
}

/// Whether node `i` of `nodes` is structurally well formed.
fn check_node(nodes: &Vec<SyntaxNode>, i: usize) -> (r: bool)
    requires
        i < nodes@.len(),
    ensures
        r == (TreeModel { nodes: nodes@, source: Seq::empty() }).node_wf(i as int),
{
    let ghost t = TreeModel { nodes: nodes@, source: Seq::empty() };
    let n = &nodes[i];
    if !(i < n.end && n.end <= nodes.len()) || n.start_row == usize::MAX || n.end_row == usize::MAX {
        return false;
    }
    match n.parent {
        None => {
            if i != 0 {
                return false;
            }
        },
        Some(p) => {
            if i == 0 || p >= i || i >= nodes[p].end {
                return false;
            }
        },
    }
    let nc = n.children.len();
    if nc == 0 {
        return n.end == i + 1;
    }
    if n.children[0] != i + 1 {
        return false;
    }
    let last = n.children[nc - 1];
    if last >= nodes.len() || nodes[last].end != n.end {
        return false;
    }
    let mut k: usize = 0;
    while k < nc
        invariant
            k <= nc,
            nc == n.children@.len(),
            *n == nodes@[i as int],
            i < n.end <= nodes@.len(),
            t == (TreeModel { nodes: nodes@, source: Seq::empty() }),
            forall|j: int|
                0 <= j < k ==> {
                    let c = #[trigger] n.children@[j] as int;
                    &&& i < c < n.end
                    &&& t.nodes[c].end <= n.end
                    &&& t.nodes[c].parent == Some(i)
                    &&& (j + 1 < n.children@.len() ==> n.children@[j + 1] == t.nodes[c].end)
                },
        decreases nc - k,
    {
        let c = n.children[k];
        if !(i < c && c < n.end) {
            return false;
        }
        if nodes[c].parent != Some(i) || nodes[c].end > n.end {
            return false;
        }
        if k + 1 < nc && n.children[k + 1] != nodes[c].end {
            return false;
        }
        k = k + 1;
    }
    true
}

/// Whether `nodes` form a well-formed tree.
fn check_tree(nodes: &Vec<SyntaxNode>) -> (r: bool)
    ensures
        r == {
            let t = TreeModel { nodes: nodes@, source: Seq::empty() };
            &&& nodes@.len() >= 1
            &&& nodes@[0].end == nodes@.len()
            &&& forall|i: int| 0 <= i < nodes@.len() ==> #[trigger] t.node_wf(i)
        },
{
    if nodes.len() == 0 || nodes[0].end != nodes.len() {
        return false;
    }
    let ghost t = TreeModel { nodes: nodes@, source: Seq::empty() };
    let mut i: usize = 0;
    while i < nodes.len()
        invariant
            i <= nodes@.len(),
            t == (TreeModel { nodes: nodes@, source: Seq::empty() }),
            forall|j: int| 0 <= j < i ==> #[trigger] t.node_wf(j),
        decreases nodes.len() - i,
    {
        if !check_node(nodes, i) {
            return false;
        }
        i = i + 1;
    }
    true
}

/// The byte span `sb..eb` lies within `bytes` and is valid UTF-8 (what
/// `Node::utf8_text` succeeds on).
pub open spec fn span_valid(bytes: Seq<u8>, sb: int, eb: int) -> bool {
    sb <= eb <= bytes.len() && valid_utf8(bytes.subrange(sb, eb))
}

/// Every node of `t` has a text exactly when its byte span of `bytes` is
/// valid UTF-8.
pub open spec fn texts_exact(t: TreeModel, bytes: Seq<u8>) -> bool {
    forall|i: int|
        0 <= i < t.nodes.len() ==> (#[trigger] t.text(i) is Some <==> span_valid(
            bytes,
            t.nodes[i].start_byte as int,
            t.nodes[i].end_byte as int,
        ))
}

/// Over characters that decode their bytes maximally, a span gets a text
/// exactly when its bytes are valid UTF-8.
proof fn lemma_span_text_ok_valid(cs: Seq<char>, marks: Seq<Option<u8>>, marked: bool, sb: int, eb: int)
    requires
        0 <= sb,
        0 <= eb,
        marks_ok(cs, marks),
        marks_at_invalid(cs, marks, raw_bytes(cs, marks)),
        !marked ==> forall|k: int| 0 <= k < marks.len() ==> (#[trigger] marks[k]) is None,
    ensures
        span_text_ok(cs, marks, marked, sb, eb) <==> span_valid(raw_bytes(cs, marks), sb, eb),
{
    let bytes = raw_bytes(cs, marks);
    lemma_raw_bytes_len(cs, marks);
    assert(cs.take(cs.len() as int) =~= cs);
    assert forall|a: int| 0 <= a <= cs.len() implies byte_len(#[trigger] cs.take(a)) <= byte_len(cs) by {
        crate::text::lemma_byte_len_take_mono(cs, a, cs.len() as int);
    }
    if sb == eb {
        if sb <= bytes.len() {
            assert(bytes.subrange(sb, eb).len() == 0);
            assert(valid_utf8(bytes.subrange(sb, eb)));
        }
    } else if sb < eb && eb <= bytes.len() {
        lemma_valid_span_aligned(cs, marks, sb, eb);
        if !marked {
            if span_text_ok(cs, marks, marked, sb, eb) {
                let (a, b) = choose|a: int, b: int|
                    0 <= a <= b <= cs.len() && #[trigger] byte_len(cs.take(a)) == sb && #[trigger] byte_len(cs.take(b))
                        == eb && (marked ==> unmarked(marks, a, b));
                assert(unmarked(marks, a, b));
            }
        }
    } else if sb > eb {
        if span_text_ok(cs, marks, marked, sb, eb) {
            let (a, b) = choose|a: int, b: int|
                0 <= a <= b <= cs.len() && #[trigger] byte_len(cs.take(a)) == sb && #[trigger] byte_len(cs.take(b))
                    == eb && (marked ==> unmarked(marks, a, b));
            crate::text::lemma_byte_len_take_mono(cs, a, b);
        }
    }
}

/// Whether the bytes `source` parse with `g` into a [`SyntaxTree`]: the
/// grammar loads, the text's length fits in memory with one to spare, and
/// tree-sitter's parse converts ([`parse_ok`]).
pub open spec fn parse_succeeds(g: Grammar, source: Seq<u8>) -> bool {
    &&& grammar_loads(g)
    &&& source.len() < usize::MAX
    &&& parse_ok(ts_parse(g, source))
}

/// `t` is the [`SyntaxTree`] of the parse of the bytes `source` with `g`:
/// well-formed, node for node tree-sitter's parse, with a text exactly
/// for the nodes whose bytes are valid UTF-8, that text their decoding,
/// over the decoded text when `source` is UTF-8.
pub open spec fn is_parse_of(t: TreeModel, g: Grammar, source: Seq<u8>) -> bool {
    &&& t.wf()
    &&& tree_matches(t, ts_parse(g, source))
    &&& texts_match(t, source)
    &&& texts_exact(t, source)
    &&& valid_utf8(source) ==> encode_utf8(t.source) == source
}

/// Parses `source` with `grammar` into a [`SyntaxTree`], node for node
/// tree-sitter's parse of its UTF-8 bytes; `None` exactly when that does
/// not succeed ([`parse_succeeds`]).
pub fn parse_source(source: &str, grammar: Grammar) -> (r: Option<SyntaxTree>)
    ensures
        r is Some <==> parse_succeeds(grammar, encode_utf8(source@)),
        r matches Some(t) ==> t@.source == source@ && tree_matches(t@, ts_parse(grammar, encode_utf8(source@)))
            && texts_exact(t@, encode_utf8(source@)),
{
    let language = grammar_language(grammar);
    let mut parser = new_parser();
    if !parser_set_language(&mut parser, &language) {
        return None;
    }
    let tree = match parser_parse(&mut parser, source) {
        Some(t) => t,
        None => {
            return None;
        },
    };
    let chars = chars_of(source);
    let m = match byte_map(chars.as_slice()) {
        Some(m) => m,
        None => {
            return None;
        },
    };
    let r = build_tree(&tree, chars, m, None, Ghost(Seq::empty()));
    proof {
        if r is Some {
            let t = r->0;
            let cs = source@;
            let nm = Seq::new(cs.len(), |k: int| None::<u8>);
            lemma_raw_bytes_none(cs, nm);
            assert forall|i: int| 0 <= i < t@.nodes.len() implies (#[trigger] t@.text(i) is Some <==> span_valid(
                encode_utf8(source@),
                t@.nodes[i].start_byte as int,
                t@.nodes[i].end_byte as int,
            )) by {
                let sb = t@.nodes[i].start_byte as int;
                let eb = t@.nodes[i].end_byte as int;
                lemma_span_text_ok_valid(cs, nm, false, sb, eb);
                assert(span_text_ok(cs, Seq::empty(), false, sb, eb) == span_text_ok(cs, nm, false, sb, eb));
                assert(t@.nodes[i].text is Some <==> span_text_ok(cs, Seq::empty(), false, sb, eb));
            }
        }
    }
    r
}

/// Every node text of `t` is the UTF-8 decoding of the node's byte span of
/// `bytes`.
pub open spec fn texts_match(t: TreeModel, bytes: Seq<u8>) -> bool {
    forall|i: int|
        0 <= i < t.nodes.len() ==> (#[trigger] t.text(i) matches Some(x) ==> encode_utf8(x) == bytes.subrange(
            t.nodes[i].start_byte as int,
            t.nodes[i].end_byte as int,
        ))
}

/// A well-formed tree over UTF-8 text has node texts matching the text's
/// bytes.
pub proof fn lemma_texts_match_utf8(t: TreeModel)
    requires
        t.wf(),
    ensures
        texts_match(t, encode_utf8(t.source)),
{
    assert forall|i: int| 0 <= i < t.nodes.len() implies (#[trigger] t.text(i) matches Some(x) ==> encode_utf8(x)
        == encode_utf8(t.source).subrange(t.nodes[i].start_byte as int, t.nodes[i].end_byte as int)) by {
        assert(t.span_wf(i));
        if let Some((a, b)) = t.nodes[i].text {
            lemma_encode_subrange(t.source, a as int, b as int);
        }
    }
}

/// The number of marked characters among `marks[0..k]`.
pub open spec fn mark_count(marks: Seq<Option<u8>>, k: int) -> nat
    decreases k,
{
    if k <= 0 {
        0
    } else {
        mark_count(marks, k - 1) + if marks[k - 1] is Some {
            1nat
        } else {
            0nat
        }
    }
}

proof fn lemma_mark_count_unmarked(marks: Seq<Option<u8>>, a: int, b: int)
    requires
        0 <= a <= b,
        mark_count(marks, a) == mark_count(marks, b),
    ensures
        unmarked(marks, a, b),
    decreases b - a,
{
    if a < b {
        lemma_mark_count_mono(marks, a, b - 1);
        lemma_mark_count_unmarked(marks, a, b - 1);
    }
}

proof fn lemma_mark_count_mono(marks: Seq<Option<u8>>, a: int, b: int)
    requires
        0 <= a <= b,
    ensures
        mark_count(marks, a) <= mark_count(marks, b),
    decreases b - a,
{
    if a < b {
        lemma_mark_count_mono(marks, a, b - 1);
    }
}

/// Parses the bytes `source` with `grammar`. UTF-8 text gives the tree of
/// [`parse_source`]; other bytes are parsed as they are, over characters
/// that decode each valid scalar and stand one for one for the other bytes.
/// Either way a node has a text exactly when its bytes are valid UTF-8.
pub fn parse_bytes(source: &[u8], grammar: Grammar) -> (r: Option<SyntaxTree>)
    ensures
        r is Some <==> parse_succeeds(grammar, source@),
        r matches Some(t) ==> is_parse_of(t@, grammar, source@),
{
    match decode_utf8(source) {
        Some(text) => {
            let r = parse_source(text, grammar);
            match &r {
                Some(t) => {
                    t.assert_wf();
                    proof {
                        lemma_texts_match_utf8(t@);
                    }
                },
                None => {},
            }
            return r;
        },
        None => {},
    }
    let language = grammar_language(grammar);
    let mut parser = new_parser();
    if !parser_set_language(&mut parser, &language) {
        return None;
    }
    let tree = match parser_parse_bytes(&mut parser, source) {
        Some(t) => t,
        None => {
            return None;
        },
    };
    let (chars, marks) = decode_marked(source);
    proof {
        lemma_raw_bytes_len(chars@, marks@);
    }
    let m = match byte_map(chars.as_slice()) {
        Some(m) => m,
        None => {
            return None;
        },
    };
    let mut counts: Vec<usize> = Vec::new();
    counts.push(0);
    let mut k: usize = 0;
    while k < marks.len()
        invariant
            k <= marks@.len(),
            counts@.len() == k + 1,
            forall|j: int| 0 <= j <= k ==> #[trigger] counts@[j] == mark_count(marks@, j),
            mark_count(marks@, k as int) <= k,
        decreases marks.len() - k,
    {
        let last = counts[k];
        let next = if marks[k].is_some() {
            last + 1
        } else {
            last
        };
        counts.push(next);
        k = k + 1;
    }
    let ghost ms = marks@;
    let r = build_tree(&tree, chars, m, Some(counts), Ghost(ms));
    match &r {
        Some(t) => {
            t.assert_wf();
            proof {
                let tm = t@;
                assert forall|i: int| 0 <= i < tm.nodes.len() implies (#[trigger] tm.text(i) matches Some(x)
                    ==> encode_utf8(x) == source@.subrange(
                    tm.nodes[i].start_byte as int,
                    tm.nodes[i].end_byte as int,
                )) by {
                    assert(tm.span_wf(i));
                    if let Some((a, b)) = tm.nodes[i].text {
                        lemma_raw_bytes_subrange(tm.source, ms, a as int, b as int);
                    }
                }
                assert forall|i: int| 0 <= i < tm.nodes.len() implies (#[trigger] tm.text(i) is Some <==> span_valid(
                    source@,
                    tm.nodes[i].start_byte as int,
                    tm.nodes[i].end_byte as int,
                )) by {
                    lemma_span_text_ok_valid(tm.source, ms, true, tm.nodes[i].start_byte as int, tm.nodes[i].end_byte as int);
                    assert(tm.nodes[i].text is Some <==> span_text_ok(tm.source, ms, true, tm.nodes[i].start_byte as int, tm.nodes[i].end_byte as int));
                }
            }
        },
        None => {},
    }
    r
}

/// The last index before `n` of a node at depth `d`, or `-1`.
pub open spec fn last_at_depth(ns: Seq<TsNode>, n: int, d: int) -> int
    decreases n,
{
    if n <= 0 {
        -1
    } else if ns[n - 1].depth == d {
        n - 1
    } else {
        last_at_depth(ns, n - 1, d)
    }
}

/// The parent of node `i` of a pre-order node sequence: the nearest
/// earlier node one level up; `None` at depth `0`.
pub open spec fn ts_parent(ns: Seq<TsNode>, i: int) -> Option<usize> {
    if ns[i].depth == 0 {
        None
    } else {
        Some(last_at_depth(ns, i, ns[i].depth - 1) as usize)
    }
}

/// The deepest level node `i` of a pre-order sequence can have: `0` for
/// the first node, one below its predecessor otherwise.
pub open spec fn depth_bound(ns: Seq<TsNode>, i: int) -> int {
    if i == 0 {
        0
    } else {
        ns[i - 1].depth + 1
    }
}

/// Every node is at most one level below the node before it.
pub open spec fn depths_ok(ns: Seq<TsNode>) -> bool {
    forall|i: int| 0 <= i < ns.len() ==> #[trigger] ns[i].depth <= depth_bound(ns, i)
}

/// The view of an optional field name.
pub open spec fn field_view(f: Option<String>) -> Option<Seq<char>> {
    match f {
        Some(s) => Some(s@),
        None => None,
    }
}

/// Node `i` of `t` is node `i` of the parse `ns`: the same kind, field,
/// flags, byte and row span, the parent one level up, and a subtree of the
/// parse's size.
pub open spec fn node_matches(t: TreeModel, ns: Seq<TsNode>, i: int) -> bool {
    let n = t.nodes[i];
    let p = ns[i];
    &&& n.kind@ == p.kind
    &&& field_view(n.field) == p.field
    &&& n.named == p.named
    &&& n.has_error == p.has_error
    &&& n.start_byte == p.start_byte
    &&& n.end_byte == p.end_byte
    &&& n.start_row == p.start_row
    &&& n.end_row == p.end_row
    &&& n.parent == ts_parent(ns, i)
    &&& n.end == i + p.descendants
}

/// `t` has exactly the nodes of the parse `ns`, in the same order.
pub open spec fn tree_matches(t: TreeModel, ns: Seq<TsNode>) -> bool {
    &&& t.nodes.len() == ns.len()
    &&& forall|i: int| 0 <= i < ns.len() ==> #[trigger] node_matches(t, ns, i)
}

/// The tree structure of `t` (every node's subtree an index range split by
/// its children), apart from node texts.
pub open spec fn shape_ok(t: TreeModel) -> bool {
    &&& t.nodes.len() >= 1
    &&& t.nodes[0].end == t.nodes.len()
    &&& forall|i: int| 0 <= i < t.nodes.len() ==> #[trigger] t.node_wf(i)
}

/// The parse `ns` converts to a [`SyntaxTree`]: its depths step down at
/// most one level at a time, and some well-formed tree has its nodes.
pub open spec fn parse_ok(ns: Seq<TsNode>) -> bool {
    &&& depths_ok(ns)
    &&& exists|t: TreeModel| #[trigger] tree_matches(t, ns) && shape_ok(t)
}

/// Node `j`'s data gathered from the parse `ns`.
pub open spec fn pass1_ok(
    ns: Seq<TsNode>,
    count: int,
    kinds: Seq<String>,
    fields: Seq<Option<String>>,
    named: Seq<bool>,
    errors: Seq<bool>,
    spans: Seq<(usize, usize, usize, usize)>,
    parents: Seq<Option<usize>>,
    ends: Seq<usize>,
    j: int,
) -> bool {
    &&& kinds[j]@ == ns[j].kind
    &&& field_view(fields[j]) == ns[j].field
    &&& named[j] == ns[j].named
    &&& errors[j] == ns[j].has_error
    &&& spans[j] == (ns[j].start_byte, ns[j].end_byte, ns[j].start_row, ns[j].end_row)
    &&& parents[j] == ts_parent(ns, j)
    &&& ends[j] == j + ns[j].descendants
    &&& j < ends[j] <= count
    &&& ns[j].depth <= depth_bound(ns, j)
}

proof fn lemma_pass1_push(
    ns: Seq<TsNode>,
    count: int,
    k0: Seq<String>,
    f0: Seq<Option<String>>,
    n0: Seq<bool>,
    e0: Seq<bool>,
    s0: Seq<(usize, usize, usize, usize)>,
    p0: Seq<Option<usize>>,
    d0: Seq<usize>,
    k1: Seq<String>,
    f1: Seq<Option<String>>,
    n1: Seq<bool>,
    e1: Seq<bool>,
    s1: Seq<(usize, usize, usize, usize)>,
    p1: Seq<Option<usize>>,
    d1: Seq<usize>,
    j: int,
)
    requires
        pass1_ok(ns, count, k0, f0, n0, e0, s0, p0, d0, j),
        0 <= j < k0.len(),
        j < f0.len() && j < n0.len() && j < e0.len() && j < s0.len() && j < p0.len() && j < d0.len(),
        k1 == k0.push(k1.last()),
        f1 == f0.push(f1.last()),
        n1 == n0.push(n1.last()),
        e1 == e0.push(e1.last()),
        s1 == s0.push(s1.last()),
        p1 == p0.push(p1.last()),
        d1 == d0.push(d1.last()),
    ensures
        pass1_ok(ns, count, k1, f1, n1, e1, s1, p1, d1, j),
{
    assert(k1[j] == k0[j] && f1[j] == f0[j] && n1[j] == n0[j] && e1[j] == e0[j] && s1[j] == s0[j] && p1[j]
        == p0[j] && d1[j] == d0[j]);
}

/// The [`SyntaxTree`] of the tree-sitter tree `tree` over `chars`'s text:
/// node for node the tree-sitter parse, with texts as character ranges
/// found through the byte map `m`. `None` exactly when the parse does not
/// convert ([`parse_ok`]).
#[verifier::spinoff_prover]
#[verifier::rlimit(60)]
fn build_tree(
    tree: &tree_sitter::Tree,
    chars: Vec<char>,
    m: Vec<usize>,
    counts: Option<Vec<usize>>,
    Ghost(marks): Ghost<Seq<Option<u8>>>,
) -> (r: Option<SyntaxTree>)
    requires
        is_byte_map(chars@, m@),
        counts matches Some(c) ==> c@.len() == marks.len() + 1 && marks.len() == chars@.len() && forall|k: int|
            0 <= k <= marks.len() ==> #[trigger] c@[k] == mark_count(marks, k),
    ensures
        r is Some <==> parse_ok(tree_nodes(*tree)),
        r matches Some(t) ==> forall|i: int|
            0 <= i < t@.nodes.len() ==> ((#[trigger] t@.nodes[i]).text is Some <==> span_text_ok(
                chars@,
                marks,
                counts is Some,
                t@.nodes[i].start_byte as int,
                t@.nodes[i].end_byte as int,
            )),
        r matches Some(t) ==> t@.source == chars@ && tree_matches(t@, tree_nodes(*tree)) && (counts is Some
            ==> forall|i: int|
            0 <= i < t@.nodes.len() ==> ((#[trigger] t@.nodes[i]).text matches Some((a, b)) ==> unmarked(
                marks,
                a as int,
                b as int,
            ))),
{
    let ghost ns = tree_nodes(*tree);
    let root = tree_root(tree);
    let count = node_descendant_count(&root);
    let mut cursor = tree_walk(tree);
    if count == 0 {
        proof {
            if parse_ok(ns) {
                let w = choose|t: TreeModel| #[trigger] tree_matches(t, ns) && shape_ok(t);
                assert(w.nodes.len() == 0);
            }
        }
        return None;
    }
    // Pass 1: per-node data in pre-order; parents from depths.
    let mut kinds: Vec<String> = Vec::new();
    let mut fields: Vec<Option<String>> = Vec::new();
    let mut named: Vec<bool> = Vec::new();
    let mut errors: Vec<bool> = Vec::new();
    let mut spans: Vec<(usize, usize, usize, usize)> = Vec::new();
    let mut parents: Vec<Option<usize>> = Vec::new();
    let mut ends: Vec<usize> = Vec::new();
    let mut stack: Vec<usize> = Vec::new();
    let mut cur_depth: usize = 0;
    let mut i: usize = 0;
    while i < count
        invariant
            ns == tree_nodes(*tree),
            cur_depth == ns[cursor_pos(cursor) as int].depth,
            count == ns.len(),
            ns.len() >= 1,
            cursor_nodes(cursor) == ns,
            cursor_pos(cursor) < ns.len(),
            i <= count,
            kinds@.len() == i,
            fields@.len() == i,
            named@.len() == i,
            errors@.len() == i,
            spans@.len() == i,
            parents@.len() == i,
            ends@.len() == i,
            forall|j: int| 0 <= j < i ==> #[trigger] pass1_ok(ns, count as int, kinds@, fields@, named@, errors@, spans@, parents@, ends@, j),
            i == 0 ==> stack@.len() == 0,
            i > 0 ==> stack@.len() == ns[i - 1].depth + 1,
            forall|k: int| 0 <= k < stack@.len() ==> #[trigger] stack@[k] as int == last_at_depth(ns, i as int, k),
        decreases count - i,
    {
        if cursor_descendant_index(&cursor) != i {
            cursor_goto_descendant(&mut cursor, i);
            cur_depth = cursor_depth(&cursor);
        }
        let d = cur_depth;
        if d > stack.len() {
            assert(stack@.len() == depth_bound(ns, i as int));
            assert(!depths_ok(ns)) by {
                assert(ns[i as int].depth > depth_bound(ns, i as int));
            }
            return None;
        }
        let ghost s0 = stack@;
        while stack.len() > d
            invariant
                stack@.len() >= d,
                stack@.len() <= s0.len(),
                stack@ == s0.take(stack@.len() as int),
            decreases stack.len(),
        {
            stack.pop();
        }
        let parent = if d == 0 {
            None
        } else {
            Some(stack[d - 1])
        };
        assert(parent == ts_parent(ns, i as int)) by {
            if d > 0 {
                assert(stack@[d - 1] == s0[d - 1]);
                assert(s0[d - 1] as int == last_at_depth(ns, i as int, d - 1));
                assert(last_at_depth(ns, i as int, d - 1) < i) by {
                    lemma_last_at_depth_range(ns, i as int, d - 1);
                }
                assert(last_at_depth(ns, i as int, d - 1) >= 0);
            }
        }
        let ghost s1 = stack@;
        stack.push(i);
        proof {
            assert forall|k: int| 0 <= k < stack@.len() implies #[trigger] stack@[k] as int == last_at_depth(
                ns,
                i + 1,
                k,
            ) by {
                if k < d {
                    assert(stack@[k] == s0[k]);
                }
            }
        }
        let node = cursor_node(&cursor);
        let desc = node_descendant_count(&node);
        if desc == 0 || desc > count - i {
            proof {
                if parse_ok(ns) {
                    let w = choose|t: TreeModel| #[trigger] tree_matches(t, ns) && shape_ok(t);
                    assert(node_matches(w, ns, i as int));
                    assert(w.node_wf(i as int));
                    assert(desc == ns[i as int].descendants);
                    assert(false);
                }
            }
            return None;
        }
        let ghost (k0, f0, n0, e0, s0b, p0, d0) = (kinds@, fields@, named@, errors@, spans@, parents@, ends@);
        kinds.push(node_kind(&node).to_owned());
        fields.push(
            match cursor_field_name(&cursor) {
                Some(f) => Some(f.to_owned()),
                None => None,
            },
        );
        named.push(node_is_named(&node));
        errors.push(node_has_error(&node));
        spans.push((node_start_byte(&node), node_end_byte(&node), node_start_row(&node), node_end_row(&node)));
        parents.push(parent);
        ends.push(i + desc);
        if cursor_goto_first_child(&mut cursor) {
            cur_depth = cur_depth + 1;
        } else {
            let mut steps: usize = 0;
            while steps < count
                invariant
                    cursor_nodes(cursor) == ns,
                    cursor_pos(cursor) < ns.len(),
                    cur_depth == ns[cursor_pos(cursor) as int].depth,
                decreases count - steps,
            {
                if cursor_goto_next_sibling(&mut cursor) {
                    break ;
                }
                if !cursor_goto_parent(&mut cursor) {
                    break ;
                }
                cur_depth = cur_depth - 1;
                steps = steps + 1;
            }
        }
        proof {
            let ii = i as int;
            assert(pass1_ok(ns, count as int, kinds@, fields@, named@, errors@, spans@, parents@, ends@, ii));
            assert forall|j: int| 0 <= j < i + 1 implies #[trigger] pass1_ok(ns, count as int, kinds@, fields@, named@, errors@, spans@, parents@, ends@, j) by {
                if j < ii {
                    lemma_pass1_push(ns, count as int, k0, f0, n0, e0, s0b, p0, d0, kinds@, fields@, named@, errors@, spans@, parents@, ends@, j);
                }
            }
        }
        i = i + 1;
    }
    assert forall|j: int| 0 <= j < ns.len() implies #[trigger] ns[j].depth <= depth_bound(ns, j) by {
        assert(pass1_ok(ns, count as int, kinds@, fields@, named@, errors@, spans@, parents@, ends@, j));
    }
    assert(depths_ok(ns));
    let ghost ok = parse_ok(ns);
    let ghost w = choose|t: TreeModel| #[trigger] tree_matches(t, ns) && shape_ok(t);
    // Pass 2: children lists from subtree ends.
    let ghost src = chars@;
    let mut nodes: Vec<SyntaxNode> = Vec::new();
    let mut i: usize = 0;
    while i < count
        invariant
            ns == tree_nodes(*tree),
            ok == parse_ok(ns),
            i <= count,
            count == ns.len(),
            kinds@.len() == count,
            fields@.len() == count,
            named@.len() == count,
            errors@.len() == count,
            spans@.len() == count,
            parents@.len() == count,
            ends@.len() == count,
            forall|j: int| 0 <= j < count ==> #[trigger] pass1_ok(ns, count as int, kinds@, fields@, named@, errors@, spans@, parents@, ends@, j),
            ok ==> tree_matches(w, ns) && shape_ok(w),
            nodes@.len() == i,
            forall|j: int| 0 <= j < i ==> #[trigger] node_matches(TreeModel { nodes: nodes@, source: src }, ns, j),
            ok ==> forall|j: int| 0 <= j < i ==> (#[trigger] nodes@[j]).children@ == w.nodes[j].children@,
            src == chars@,
            is_byte_map(src, m@),
            counts matches Some(c) ==> c@.len() == marks.len() + 1 && marks.len() == src.len() && forall|k: int|
                0 <= k <= marks.len() ==> #[trigger] c@[k] == mark_count(marks, k),
            forall|j: int| 0 <= j < i ==> #[trigger] (TreeModel { nodes: nodes@, source: src }).span_wf(j),
            counts is Some ==> forall|j: int|
                0 <= j < i ==> ((#[trigger] nodes@[j]).text matches Some((a, b)) ==> unmarked(marks, a as int, b as int)),
            forall|j: int|
                0 <= j < i ==> ((#[trigger] nodes@[j]).text is Some <==> span_text_ok(
                    src,
                    marks,
                    counts is Some,
                    nodes@[j].start_byte as int,
                    nodes@[j].end_byte as int,
                )),
        decreases count - i,
    {
        let e = ends[i];
        let ghost wc = w.nodes[i as int].children@;
        proof {
            if ok {
                assert(w.node_wf(i as int));
                assert(node_matches(w, ns, i as int));
            }
        }
        assert forall|x: int| 0 <= x < count implies #[trigger] ends@[x] == x + ns[x].descendants && x
            < ends@[x] <= count by {
            assert(pass1_ok(ns, count as int, kinds@, fields@, named@, errors@, spans@, parents@, ends@, x));
        }
        let mut children: Vec<usize> = Vec::new();
        let mut j = i + 1;
        while j < e
            invariant
                ns == tree_nodes(*tree),
                ok == parse_ok(ns),
                i < j,
                e == ends@[i as int],
                e <= count,
                count == ns.len(),
                ends@.len() == count,
                forall|x: int| 0 <= x < count ==> #[trigger] ends@[x] == x + ns[x].descendants && x < ends@[x] <= count,
                ok ==> tree_matches(w, ns) && shape_ok(w) && w.node_wf(i as int) && wc == w.nodes[i as int].children@
                    && w.nodes[i as int].end == e,
                ok ==> {
                    &&& children@.len() <= wc.len()
                    &&& children@ == wc.take(children@.len() as int)
                    &&& children@.len() < wc.len() ==> j == wc[children@.len() as int]
                    &&& children@.len() == wc.len() ==> j == e
                },
            decreases e - j,
        {
            let ghost k = children@.len() as int;
            children.push(j);
            let ej = ends[j];
            proof {
                if ok {
                    assert(k < wc.len());
                    let c = wc[k] as int;
                    assert(node_matches(w, ns, c));
                    assert(ej == w.nodes[c].end);
                    assert(children@ =~= wc.take(k + 1));
                }
            }
            if ej > e {
                return None;
            }
            j = ej;
        }
        proof {
            if ok {
                assert(children@.len() == wc.len());
                assert(children@ =~= wc);
            }
        }
        let (sb, eb, sr, er) = spans[i];
        let text = node_text(&chars, &m, &counts, Ghost(marks), sb, eb);
        let field = match &fields[i] {
            Some(f) => Some(f.clone()),
            None => None,
        };
        let node = SyntaxNode {
            kind: kinds[i].clone(),
            field,
            named: named[i],
            has_error: errors[i],
            start_byte: sb,
            end_byte: eb,
            start_row: sr,
            end_row: er,
            parent: parents[i],
            end: e,
            children,
            text,
        };
        let ghost before = nodes@;
        nodes.push(node);
        proof {
            assert forall|j: int| 0 <= j < i + 1 implies #[trigger] (TreeModel { nodes: nodes@, source: src }).span_wf(j) by {
                if j < i {
                    assert((TreeModel { nodes: before, source: src }).span_wf(j));
                    assert(nodes@[j] == before[j]);
                }
            }
            assert forall|j: int| 0 <= j < i + 1 implies #[trigger] node_matches(
                TreeModel { nodes: nodes@, source: src },
                ns,
                j,
            ) by {
                if j < i {
                    assert(node_matches(TreeModel { nodes: before, source: src }, ns, j));
                    assert(nodes@[j] == before[j]);
                } else {
                    assert(pass1_ok(ns, count as int, kinds@, fields@, named@, errors@, spans@, parents@, ends@, j));
                    assert(nodes@[j].kind@ == kinds@[j]@);
                }
            }
            if ok {
                assert forall|j: int| 0 <= j < i + 1 implies (#[trigger] nodes@[j]).children@ == w.nodes[j].children@ by {
                    if j < i {
                        assert(nodes@[j] == before[j]);
                    }
                }
            }
            assert forall|j: int| 0 <= j < i + 1 implies ((#[trigger] nodes@[j]).text is Some <==> span_text_ok(
                src,
                marks,
                counts is Some,
                nodes@[j].start_byte as int,
                nodes@[j].end_byte as int,
            )) by {
                if j < i {
                    assert(nodes@[j] == before[j]);
                }
            }
            if counts is Some {
                assert forall|j: int| 0 <= j < i + 1 implies ((#[trigger] nodes@[j]).text matches Some((a, b))
                    ==> unmarked(marks, a as int, b as int)) by {
                    if j < i {
                        assert(nodes@[j] == before[j]);
                    }
                }
            }
        }
        i = i + 1;
    }
    let ghost t = TreeModel { nodes: nodes@, source: src };
    let ghost t0 = TreeModel { nodes: nodes@, source: Seq::empty() };
    proof {
        assert(tree_matches(t, ns));
        if ok {
            assert forall|x: int| 0 <= x < nodes@.len() implies #[trigger] t0.node_wf(x) by {
                assert(w.node_wf(x));
                assert(node_matches(w, ns, x));
                assert(node_matches(t, ns, x));
                assert forall|y: int| 0 <= y < nodes@.len() implies t0.nodes[y].end == w.nodes[y].end
                    && t0.nodes[y].parent == w.nodes[y].parent by {
                    assert(node_matches(w, ns, y));
                    assert(node_matches(t, ns, y));
                }
            }
            assert(node_matches(w, ns, 0));
            assert(node_matches(t, ns, 0));
        }
    }
    if !check_tree(&nodes) {
        return None;
    }
    proof {
        assert forall|x: int| 0 <= x < nodes@.len() implies #[trigger] t.node_wf(x) by {
            assert(t0.node_wf(x));
        }
        assert(tree_matches(t, ns) && shape_ok(t));
    }
    Some(SyntaxTree::from_parts(nodes, chars))
}

/// `last_at_depth` is an index before `n`, or `-1`.
proof fn lemma_last_at_depth_range(ns: Seq<TsNode>, n: int, d: int)
    requires
        0 <= n <= ns.len(),
    ensures
        -1 <= last_at_depth(ns, n, d) < n,
        last_at_depth(ns, n, d) >= 0 ==> ns[last_at_depth(ns, n, d)].depth == d,
    decreases n,
{
    if n > 0 && ns[n - 1].depth != d {
        lemma_last_at_depth_range(ns, n - 1, d);
    }
}

proof fn lemma_discovered_extensions_have_grammars()
    ensures
        forall|i: int, k: int| 0 <= i < spec_languages().len() && 0 <= k < spec_languages()[i].extensions.len() ==> spec_grammar_for_ext(#[trigger] spec_languages()[i].extensions[k]) is Some && (spec_languages()[i].key != "c"@ ==> spec_grammar_for_ext(spec_languages()[i].extensions[k]) != Some(Grammar::C)),
{
    lemma_registry_literals();
    let ls = spec_languages();
    assert forall|i: int, k: int| 0 <= i < ls.len() && 0 <= k < ls[i].extensions.len() implies spec_grammar_for_ext(#[trigger] ls[i].extensions[k]) is Some && (ls[i].key != "c"@ ==> spec_grammar_for_ext(ls[i].extensions[k]) != Some(Grammar::C)) by {
        if i == 0 {
            if k == 0 {
            }
        } else if i == 1 {
            if k == 0 {
            } else if k == 1 {
            } else if k == 2 {
            } else if k == 3 {
            } else if k == 4 {
            }
        } else if i == 2 {
            if k == 0 {
            }
        } else if i == 3 {
            if k == 0 {
            }
        } else if i == 4 {
            if k == 0 {
            } else if k == 1 {
            } else if k == 2 {
            } else if k == 3 {
            }
        } else if i == 5 {
            if k == 0 {
            } else if k == 1 {
            }
        } else if i == 6 {
            if k == 0 {
            } else if k == 1 {
            }
        } else if i == 7 {
            if k == 0 {
            }
        } else if i == 8 {
            if k == 0 {
            }
        } else if i == 9 {
            if k == 0 {
            }
        } else if i == 10 {
            if k == 0 {
            } else if k == 1 {
            }
        } else if i == 11 {
            if k == 0 {
            }
        } else if i == 12 {
            if k == 0 {
            }
        } else if i == 13 {
            if k == 0 {
            } else if k == 1 {
            } else if k == 2 {
            } else if k == 3 {
            } else if k == 4 {
            } else if k == 5 {
            } else if k == 6 {
            } else if k == 7 {
            }
        } else if i == 14 {
            if k == 0 {
            } else if k == 1 {
            }
        } else if i == 15 {
            if k == 0 {
            }
        }
    }
}

proof fn lemma_explicit_extensions_have_grammars()
    ensures
        forall|i: int, k: int| 0 <= i < spec_languages().len() && 0 <= k < spec_languages()[i].explicit_only.len() ==> spec_grammar_for_ext(#[trigger] spec_languages()[i].explicit_only[k]) is Some && (spec_languages()[i].key != "c"@ ==> spec_grammar_for_ext(spec_languages()[i].explicit_only[k]) != Some(Grammar::C)),
{
    lemma_registry_literals();
    let ls = spec_languages();
    assert forall|i: int, k: int| 0 <= i < ls.len() && 0 <= k < ls[i].explicit_only.len() implies spec_grammar_for_ext(#[trigger] ls[i].explicit_only[k]) is Some && (ls[i].key != "c"@ ==> spec_grammar_for_ext(ls[i].explicit_only[k]) != Some(Grammar::C)) by {
        if i == 0 {
            if k == 0 {
            }
        } else if i == 1 {
        } else if i == 2 {
        } else if i == 3 {
        } else if i == 4 {
        } else if i == 5 {
        } else if i == 6 {
            if k == 0 {
            }
        } else if i == 7 {
        } else if i == 8 {
        } else if i == 9 {
        } else if i == 10 {
        } else if i == 11 {
        } else if i == 12 {
        } else if i == 13 {
        } else if i == 14 {
        } else if i == 15 {
        }
    }
}

/// Every extension a language lists dispatches to a grammar, and only
/// C's extensions dispatch to the C grammar.
pub proof fn every_extension_has_a_grammar()
    ensures
        forall|i: int, k: int| 0 <= i < spec_languages().len() && 0 <= k < spec_languages()[i].extensions.len() ==> spec_grammar_for_ext(#[trigger] spec_languages()[i].extensions[k]) is Some && (spec_languages()[i].key != "c"@ ==> spec_grammar_for_ext(spec_languages()[i].extensions[k]) != Some(Grammar::C)),
        forall|i: int, k: int| 0 <= i < spec_languages().len() && 0 <= k < spec_languages()[i].explicit_only.len() ==> spec_grammar_for_ext(#[trigger] spec_languages()[i].explicit_only[k]) is Some && (spec_languages()[i].key != "c"@ ==> spec_grammar_for_ext(spec_languages()[i].explicit_only[k]) != Some(Grammar::C)),
{
    lemma_discovered_extensions_have_grammars();
    lemma_explicit_extensions_have_grammars();
}

/// A language's key selects the same grammar as its first extension.
pub proof fn language_keys_round_trip()
    ensures
        forall|i: int| 0 <= i < spec_languages().len() ==> (#[trigger] spec_languages()[i]).extensions.len() > 0 && spec_grammar_for_key(spec_languages()[i].key) is Some && spec_grammar_for_key(spec_languages()[i].key) == spec_grammar_for_ext(spec_languages()[i].extensions[0]),
{
    lemma_registry_literals();
    let ls = spec_languages();
    assert forall|i: int| 0 <= i < ls.len() implies (#[trigger] ls[i]).extensions.len() > 0 && spec_grammar_for_key(ls[i].key) is Some && spec_grammar_for_key(ls[i].key) == spec_grammar_for_ext(ls[i].extensions[0]) by {
        if i == 0 {
        } else if i == 1 {
        } else if i == 2 {
        } else if i == 3 {
        } else if i == 4 {
        } else if i == 5 {
        } else if i == 6 {
        } else if i == 7 {
        } else if i == 8 {
        } else if i == 9 {
        } else if i == 10 {
        } else if i == 11 {
        } else if i == 12 {
        } else if i == 13 {
        } else if i == 14 {
        } else if i == 15 {
        }
    }
}

} // verus!
