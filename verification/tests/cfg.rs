use lang_parsing_substrate::cfg::{build_function_cfg, CfgEdge, FunctionCfg};
use lang_parsing_substrate::grammar::{parse_source, Grammar};
use lang_parsing_substrate::syntax::SyntaxTree;

fn parse(source: &str, grammar: Grammar) -> SyntaxTree {
    parse_source(source, grammar).unwrap()
}

fn find(tree: &SyntaxTree, kind: &str) -> usize {
    (0..tree.len())
        .find(|&i| tree.node(i).kind == kind)
        .unwrap_or_else(|| panic!("no {kind} node found"))
}

fn c_cfg(source: &str) -> FunctionCfg {
    let tree = parse(source, Grammar::C);
    let func = find(&tree, "function_definition");
    build_function_cfg(&tree, func, "c").unwrap()
}

fn rust_cfg(source: &str) -> FunctionCfg {
    let tree = parse(source, Grammar::Rust);
    let func = find(&tree, "function_item");
    build_function_cfg(&tree, func, "rust").unwrap()
}

fn cpp_cfg(source: &str) -> FunctionCfg {
    let tree = parse(source, Grammar::Cpp);
    let func = find(&tree, "function_definition");
    build_function_cfg(&tree, func, "cpp").unwrap()
}

fn edge_kinds(cfg: &FunctionCfg) -> Vec<CfgEdge> {
    cfg.edges.iter().map(|(_, _, e)| *e).collect()
}

#[test]
fn unmapped_language_returns_none() {
    let tree = parse("def f():\n    return 1\n", Grammar::Python);
    let func = find(&tree, "function_definition");
    assert!(build_function_cfg(&tree, func, "python").is_none());
}

#[test]
fn c_straight_line_is_a_single_block() {
    let cfg = c_cfg("int f(void) { int x = 1; int y = 2; }");
    assert_eq!(cfg.block_count(), 1);
    assert_eq!(cfg.entry, 0);
    assert_eq!(cfg.exits, vec![0]);
}

#[test]
fn c_if_else_has_true_false_and_fallthrough_join() {
    let cfg = c_cfg("int f(int x) { if (x) { x = 1; } else { x = 2; } }");
    let kinds = edge_kinds(&cfg);
    assert!(kinds.contains(&CfgEdge::TrueBranch));
    assert!(kinds.contains(&CfgEdge::FalseBranch));
    assert_eq!(
        kinds.iter().filter(|k| **k == CfgEdge::Fallthrough).count(),
        2
    );
}

#[test]
fn c_if_without_else_still_joins() {
    let cfg = c_cfg("int f(int x) { if (x) { x = 1; } x = 2; }");
    let kinds = edge_kinds(&cfg);
    assert!(kinds.contains(&CfgEdge::TrueBranch));
    assert!(kinds.contains(&CfgEdge::FalseBranch));
}

#[test]
fn c_return_in_branch_does_not_join() {
    // The true branch returns, so it must NOT get a Fallthrough edge
    // into the join block — only the false branch does.
    let cfg = c_cfg("int f(int x) { if (x) { return 1; } x = 2; }");
    let kinds = edge_kinds(&cfg);
    assert!(kinds.contains(&CfgEdge::Return));
    assert_eq!(
        kinds.iter().filter(|k| **k == CfgEdge::Fallthrough).count(),
        1
    );
}

#[test]
fn c_while_with_break_and_backedge() {
    let cfg = c_cfg("int f(int x) { while (x) { if (x) { break; } x = x - 1; } }");
    let kinds = edge_kinds(&cfg);
    assert!(kinds.contains(&CfgEdge::BackEdge));
    assert!(kinds.contains(&CfgEdge::Break));
    assert!(kinds.contains(&CfgEdge::FalseBranch));
}

#[test]
fn c_for_loop_has_condition_and_backedge() {
    let cfg = c_cfg("int f(void) { for (int i = 0; i < 10; i = i + 1) { continue; } }");
    let kinds = edge_kinds(&cfg);
    assert!(kinds.contains(&CfgEdge::TrueBranch));
    assert!(kinds.contains(&CfgEdge::FalseBranch));
    assert!(kinds.contains(&CfgEdge::Continue));
}

#[test]
fn c_do_while_body_runs_before_condition_check() {
    let cfg = c_cfg("int f(int x) { do { x = x - 1; } while (x); }");
    let kinds = edge_kinds(&cfg);
    assert!(kinds.contains(&CfgEdge::BackEdge));
    assert!(kinds.contains(&CfgEdge::FalseBranch));
}

#[test]
fn c_nested_compound_statement_flattens() {
    // A bare `{ }` scoping block should not create extra branch edges.
    let cfg = c_cfg("int f(void) { { int x = 1; } { int y = 2; } }");
    assert_eq!(cfg.block_count(), 1);
}

#[test]
fn cpp_if_else_and_loop_share_c_shapes() {
    let cfg = cpp_cfg(
        "int f(int x) { if (x) { return 1; } else { while (x) { break; } } return 0; }",
    );
    let kinds = edge_kinds(&cfg);
    assert!(kinds.contains(&CfgEdge::TrueBranch));
    assert!(kinds.contains(&CfgEdge::FalseBranch));
    assert!(kinds.contains(&CfgEdge::Break));
    assert_eq!(kinds.iter().filter(|k| **k == CfgEdge::Return).count(), 2);
}

#[test]
fn c_deeply_nested_if_chain_does_not_overflow_the_stack() {
    // A syntactically valid but deeply nested C file, at a depth well past
    // what a walk recursing once per nesting level survives on a normal
    // thread stack.
    let depth = 20_000;
    let mut source = String::new();
    source.push_str("int f(int x) {\n");
    for _ in 0..depth {
        source.push_str("if (x) {\n");
    }
    source.push_str("return 1;\n");
    for _ in 0..depth {
        source.push_str("}\n");
    }
    source.push('}');
    let cfg = c_cfg(&source);
    let kinds = edge_kinds(&cfg);
    assert_eq!(
        kinds.iter().filter(|k| **k == CfgEdge::TrueBranch).count(),
        depth
    );
}

#[test]
fn rust_if_else_unwraps_expression_statement_and_else_clause() {
    let cfg = rust_cfg("fn f(x: i32) -> i32 { if x > 0 { return x; } else { return -x; } }");
    let kinds = edge_kinds(&cfg);
    assert!(kinds.contains(&CfgEdge::TrueBranch));
    assert!(kinds.contains(&CfgEdge::FalseBranch));
    assert_eq!(kinds.iter().filter(|k| **k == CfgEdge::Return).count(), 2);
}

#[test]
fn rust_for_loop_models_implicit_test() {
    let cfg = rust_cfg("fn f() { for i in 0..10 { continue; } }");
    let kinds = edge_kinds(&cfg);
    assert!(kinds.contains(&CfgEdge::TrueBranch));
    assert!(kinds.contains(&CfgEdge::FalseBranch));
    assert!(kinds.contains(&CfgEdge::Continue));
}

#[test]
fn rust_unconditional_loop_has_no_false_branch() {
    // `loop {}` has no implicit exit test — FalseBranch would be wrong.
    // The conditional break (not the last statement) leaves a live path
    // that falls through to the end of the body and loops back. The one
    // FalseBranch edge present belongs to the inner `if`, not the loop
    // header — a bare `loop` never gets a FalseBranch of its own.
    let cfg = rust_cfg("fn f(mut x: i32) { loop { if x > 0 { break; } x = x + 1; } }");
    let kinds = edge_kinds(&cfg);
    assert_eq!(
        kinds.iter().filter(|k| **k == CfgEdge::FalseBranch).count(),
        1
    );
    assert!(kinds.contains(&CfgEdge::Break));
    assert!(kinds.contains(&CfgEdge::BackEdge));
}

#[test]
fn rust_unconditional_loop_exit_only_reachable_via_break() {
    let cfg = rust_cfg("fn f() -> i32 { loop { return 1; } }");
    // No break anywhere, so some block (the loop's unreachable "after")
    // must exist with no predecessors and no content.
    let has_unreachable_after = cfg.blocks.iter().any(|b| {
        b.id != cfg.entry && cfg.predecessors(b.id).is_empty() && b.statements.is_empty()
    });
    assert!(
        has_unreachable_after,
        "unreachable after-loop block should exist with no predecessors"
    );
}

