use lang_parsing_substrate::dead_code_csharp::csharp_dead_code_regions;

fn ranges(source: &str) -> Vec<(usize, usize)> {
    csharp_dead_code_regions(source.as_bytes())
        .into_iter()
        .map(|r| (r.start_line, r.end_line))
        .collect()
}

#[test]
fn dead_code_csharp_if_false_is_dead() {
    let src = "class C {\n#if false\n    int x = 1;\n#endif\n}\n";
    assert_eq!(ranges(src), vec![(3, 3)]);
}

#[test]
fn dead_code_csharp_if_true_else_branch_dead() {
    let src = "#if true\nint x = 1;\n#else\nint y = 2;\n#endif\n";
    assert_eq!(ranges(src), vec![(4, 4)]);
}

#[test]
fn dead_code_csharp_negated_false_makes_branch_live() {
    let src = "#if !false\nint x = 1;\n#endif\n";
    assert!(ranges(src).is_empty());
}

#[test]
fn elif_true_kills_trailing_else() {
    let src = &[
        "#if false\n",  // 1
        "int a = 1;\n", // 2
        "#elif true\n", // 3
        "int b = 2;\n", // 4
        "#else\n",      // 5
        "int c = 3;\n", // 6
        "#endif\n",     // 7
    ].concat();
    assert_eq!(ranges(src), vec![(2, 2), (6, 6)]);
}

#[test]
fn always_defined_symbol_else_branch_dead() {
    let src = &[
        "#define FOO\n", // 1
        "#if FOO\n",     // 2
        "int a = 1;\n",  // 3
        "#else\n",       // 4
        "int b = 2;\n",  // 5
        "#endif\n",      // 6
    ].concat();
    assert_eq!(ranges(src), vec![(5, 5)]);
}

#[test]
fn dead_code_csharp_commented_out_define_makes_branch_dead() {
    let src = &[
        "//#define FOO\n", // 1
        "#if FOO\n",       // 2
        "int a = 1;\n",    // 3
        "#endif\n",        // 4
    ].concat();
    assert_eq!(ranges(src), vec![(3, 3)]);
}

#[test]
fn undef_with_no_later_define_makes_if_dead() {
    let src = "#define FOO\n#undef FOO\n#if FOO\nint a = 1;\n#endif\n";
    assert_eq!(ranges(src), vec![(4, 4)]);
}

#[test]
fn symbol_never_mentioned_is_neutral() {
    let src = "#if DEBUG\nint a = 1;\n#endif\n";
    assert!(ranges(src).is_empty());
}

#[test]
fn short_circuit_and_with_false_literal_is_dead() {
    let src = "#if false && DEBUG\nint a = 1;\n#endif\n";
    assert_eq!(ranges(src), vec![(2, 2)]);
}

#[test]
fn short_circuit_or_with_true_literal_makes_else_dead() {
    let src = "#if true || DEBUG\nint a = 1;\n#else\nint b = 2;\n#endif\n";
    assert_eq!(ranges(src), vec![(4, 4)]);
}

#[test]
fn dead_code_csharp_define_inside_conditional_does_not_count_as_unconditional() {
    let src = "#if BAR\n#define FOO\n#endif\n#if FOO\nint a = 1;\n#endif\n";
    assert!(ranges(src).is_empty());
}

#[test]
fn dead_code_csharp_nested_dead_chain_inside_dead_branch_does_not_split_region() {
    let src = &[
        "#if false\n",  // 1
        "int a = 1;\n", // 2
        "#if true\n",   // 3
        "int b = 2;\n", // 4
        "#endif\n",     // 5
        "int c = 3;\n", // 6
        "#endif\n",     // 7
    ].concat();
    assert_eq!(ranges(src), vec![(2, 6)]);
}

#[test]
fn dead_code_csharp_nested_dead_chain_inside_live_branch_is_still_found() {
    let src = &[
        "#if true\n",   // 1
        "int a = 1;\n", // 2
        "#if false\n",  // 3
        "int b = 2;\n", // 4
        "#endif\n",     // 5
        "int c = 3;\n", // 6
        "#endif\n",     // 7
    ].concat();
    assert_eq!(ranges(src), vec![(4, 4)]);
}

#[test]
fn dead_code_csharp_empty_dead_branch_yields_no_region() {
    let src = "#if false\n#endif\n";
    assert!(ranges(src).is_empty());
}

#[test]
fn dead_code_csharp_no_directives_yields_no_regions() {
    assert!(ranges("class C {}\n").is_empty());
}

#[test]
fn dead_code_csharp_empty_source_yields_no_regions() {
    assert!(ranges("").is_empty());
}

