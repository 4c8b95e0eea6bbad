use lang_parsing_substrate::grammar::{parse_source, Grammar};
use lang_parsing_substrate::query::{
    find_descendants_of_kind, find_descendants_of_kinds, find_first_descendant, nearest_ancestor_of_kind,
    nearest_ancestor_of_kinds, node_text,
};
use lang_parsing_substrate::syntax::SyntaxTree;

fn parse(source: &str, grammar: Grammar) -> SyntaxTree {
    parse_source(source, grammar).unwrap()
}

#[test]
fn node_text_returns_the_span() {
    let source = "int f(void) { return 1; }";
    let tree = parse(source, Grammar::C);
    let call =
        find_first_descendant(&tree, 0, |n: usize| tree.node(n).kind == "return_statement").unwrap();
    assert_eq!(node_text(&tree, call), "return 1;");
}

#[test]
fn find_descendants_of_kind_collects_every_match_including_nested() {
    let source = "int f(void) { return g(h(1)); }";
    let tree = parse(source, Grammar::C);
    let calls = find_descendants_of_kind(&tree, 0, "call_expression");
    // Both g(...) and the nested h(1) are call_expressions.
    assert_eq!(calls.len(), 2);
}

#[test]
fn find_descendants_of_kinds_matches_any_listed_kind() {
    let source = "int f(int x) { if (x) { return 1; } while (x) { break; } }";
    let tree = parse(source, Grammar::C);
    let branches =
        find_descendants_of_kinds(&tree, 0, &["if_statement", "while_statement"]);
    assert_eq!(branches.len(), 2);
}

#[test]
fn find_first_descendant_short_circuits_on_first_match() {
    let source = "int f(void) { return 1; }";
    let tree = parse(source, Grammar::C);
    let found = find_first_descendant(&tree, 0, |n: usize| tree.node(n).kind == "return_statement");
    assert!(found.is_some());
}

#[test]
fn find_first_descendant_returns_none_when_absent() {
    let source = "int f(void) { int x = 1; }";
    let tree = parse(source, Grammar::C);
    assert!(
        find_first_descendant(&tree, 0, |n: usize| tree.node(n).kind == "return_statement").is_none()
    );
}

#[test]
fn nearest_ancestor_of_kind_finds_enclosing_function_not_self() {
    let source = "int f(void) { if (1) { return 1; } }";
    let tree = parse(source, Grammar::C);
    let ret =
        find_first_descendant(&tree, 0, |n: usize| tree.node(n).kind == "return_statement").unwrap();
    let enclosing = nearest_ancestor_of_kind(&tree, ret, "function_definition");
    assert!(enclosing.is_some());
    assert_ne!(tree.node(enclosing.unwrap()).kind, "return_statement");
}

#[test]
fn nearest_ancestor_of_kind_returns_none_when_no_such_ancestor() {
    let source = "int f(void) { return 1; }";
    let tree = parse(source, Grammar::C);
    let ret =
        find_first_descendant(&tree, 0, |n: usize| tree.node(n).kind == "return_statement").unwrap();
    assert!(nearest_ancestor_of_kind(&tree, ret, "while_statement").is_none());
}

#[test]
fn nearest_ancestor_of_kinds_finds_the_closest_enclosing_loop() {
    let source = "int f(void) { while (1) { for (;;) { break; } } }";
    let tree = parse(source, Grammar::C);
    let brk =
        find_first_descendant(&tree, 0, |n: usize| tree.node(n).kind == "break_statement").unwrap();
    let enclosing =
        nearest_ancestor_of_kinds(&tree, brk, &["while_statement", "for_statement"]).unwrap();
    // The nearest loop is the `for`, not the outer `while`.
    assert_eq!(tree.node(enclosing).kind, "for_statement");
}

#[test]
fn works_identically_across_languages_no_table_needed() {
    // Unlike cfg.rs, this module has no per-language vocabulary at all —
    // the same generic predicate-based search works for any grammar.
    let source = "fn f() { if true { return 1; } }";
    let tree = parse(source, Grammar::Rust);
    let found = find_first_descendant(&tree, 0, |n: usize| tree.node(n).kind == "return_expression");
    assert!(found.is_some());
}

