use lang_parsing_substrate::dead_code_swift::swift_dead_code_regions;

fn ranges(source: &str) -> Vec<(usize, usize)> {
    swift_dead_code_regions(source.as_bytes())
        .into_iter()
        .map(|r| (r.start_line, r.end_line))
        .collect()
}

#[test]
fn dead_code_swift_if_false_is_dead() {
    let src = "func f() {\n#if false\n    live()\n#endif\n}\n";
    assert_eq!(ranges(src), vec![(3, 3)]);
}

#[test]
fn dead_code_swift_if_true_else_branch_dead() {
    let src = "func f() {\n#if true\n    live()\n#else\n    dead()\n#endif\n}\n";
    assert_eq!(ranges(src), vec![(5, 5)]);
}

#[test]
fn boolean_combination_true_and_false_is_dead() {
    let src = "#if true && false\ndead()\n#endif\n";
    assert_eq!(ranges(src), vec![(2, 2)]);
}

#[test]
fn dead_code_swift_negated_false_makes_branch_live() {
    let src = "#if !false\nlive()\n#endif\n";
    assert!(ranges(src).is_empty());
}

#[test]
fn elseif_true_kills_trailing_else() {
    let src = &[
        "#if false\n",    // 1
        "dead1()\n",      // 2
        "#elseif true\n", // 3
        "live()\n",       // 4
        "#else\n",        // 5
        "dead2()\n",      // 6
        "#endif\n",       // 7
    ].concat();
    assert_eq!(ranges(src), vec![(2, 2), (6, 6)]);
}

#[test]
fn os_condition_is_not_locally_provable() {
    let src = "#if os(iOS)\nmaybe_dead()\n#endif\n";
    assert!(ranges(src).is_empty());
}

#[test]
fn custom_flag_is_not_locally_provable() {
    let src = "#if DEBUG\nmaybe_dead()\n#endif\n";
    assert!(ranges(src).is_empty());
}

#[test]
fn mixed_literal_and_flag_is_not_classified() {
    let src = "#if false && DEBUG\nmaybe_dead()\n#endif\n";
    assert!(ranges(src).is_empty());
}

#[test]
fn dead_code_swift_nested_dead_chain_inside_live_branch_is_still_found() {
    let src = &[
        "#if true\n",  // 1
        "a()\n",       // 2
        "#if false\n", // 3
        "b()\n",       // 4
        "#endif\n",    // 5
        "c()\n",       // 6
        "#endif\n",    // 7
    ].concat();
    assert_eq!(ranges(src), vec![(4, 4)]);
}

#[test]
fn dead_code_swift_nested_dead_chain_inside_dead_branch_does_not_split_region() {
    let src = &[
        "#if false\n", // 1
        "a()\n",       // 2
        "#if true\n",  // 3
        "b()\n",       // 4
        "#endif\n",    // 5
        "c()\n",       // 6
        "#endif\n",    // 7
    ].concat();
    assert_eq!(ranges(src), vec![(2, 6)]);
}

#[test]
fn dead_branch_inside_live_class_body_is_found() {
    let src = &[
        "class C {\n",     // 1
        "#if false\n",     // 2
        "    var x = 1\n", // 3
        "#endif\n",        // 4
        "}\n",             // 5
    ].concat();
    assert_eq!(ranges(src), vec![(3, 3)]);
}

#[test]
fn dead_code_swift_empty_dead_branch_yields_no_region() {
    let src = "#if false\n#endif\n";
    assert!(ranges(src).is_empty());
}

#[test]
fn dead_code_swift_no_directives_yields_no_regions() {
    assert!(ranges("func f() -> Int { return 1 }\n").is_empty());
}

#[test]
fn dead_code_swift_empty_source_yields_no_regions() {
    assert!(ranges("").is_empty());
}

