use lang_parsing_substrate::dead_code::{dead_code_ranges, DeadCodeReason};

fn ranges(source: &str) -> Vec<(usize, usize, DeadCodeReason)> {
    dead_code_ranges(source)
        .into_iter()
        .map(|r| (r.start_line, r.end_line, r.reason))
        .collect()
}

#[test]
fn if_zero_is_dead() {
    let src = "a();\n#if 0\nb();\nc();\n#endif\nd();\n";
    assert_eq!(ranges(src), vec![(3, 4, DeadCodeReason::IfZero)]);
}

#[test]
fn if_zero_with_trailing_comment() {
    let src = "#if 0 // disabled\nx();\n#endif\n";
    assert_eq!(ranges(src), vec![(2, 2, DeadCodeReason::IfZero)]);
}

#[test]
fn ifdef_cplusplus_then_branch_dead() {
    let src = "#ifdef __cplusplus\nextern \"C\" {\n#endif\nint f(void);\n";
    assert_eq!(ranges(src), vec![(2, 2, DeadCodeReason::CppOnly)]);
}

#[test]
fn extern_c_header_pair_produces_two_separate_regions() {
    let src = &[
        "#ifdef __cplusplus\n", // 1
        "extern \"C\" {\n",     // 2
        "#endif\n",             // 3
        "int f(void);\n",       // 4
        "#ifdef __cplusplus\n", // 5
        "}\n",                  // 6
        "#endif\n",             // 7
    ].concat();
    assert_eq!(
        ranges(src),
        vec![
            (2, 2, DeadCodeReason::CppOnly),
            (6, 6, DeadCodeReason::CppOnly),
        ]
    );
}

#[test]
fn ifndef_cplusplus_else_branch_dead() {
    let src = "#ifndef __cplusplus\nlive();\n#else\ndead();\n#endif\n";
    assert_eq!(ranges(src), vec![(4, 4, DeadCodeReason::CppOnly)]);
}

#[test]
fn if_defined_cplusplus_with_and_is_dead() {
    let src = "#if defined(__cplusplus) && SOMETHING\nx();\n#endif\n";
    assert_eq!(ranges(src), vec![(2, 2, DeadCodeReason::CppOnly)]);
}

#[test]
fn if_not_defined_cplusplus_else_branch_dead() {
    let src = "#if !defined(__cplusplus)\nlive();\n#else\ndead();\n#endif\n";
    assert_eq!(ranges(src), vec![(4, 4, DeadCodeReason::CppOnly)]);
}

// Raylib rtext.c-shaped case 1: macro unconditionally
// #define'd two lines above the #if defined(...) — the #else is dead.
#[test]
fn always_defined_macro_else_branch_dead() {
    let src = &[
        "#define SUPPORT_COMPRESSED_FONT_ATLAS\n",      // 1
        "void f(void) {\n",                             // 2
        "#if defined(SUPPORT_COMPRESSED_FONT_ATLAS)\n", // 3
        "    live_call();\n",                           // 4
        "#else\n",                                      // 5
        "    sprintf(buf, \"%d\", n);\n",               // 6
        "#endif\n",                                     // 7
        "}\n",                                          // 8
    ].concat();
    assert_eq!(ranges(src), vec![(6, 6, DeadCodeReason::AlwaysDefined)]);
}

// Raylib rtext.c-shaped case 2: macro's #define is commented
// out — the #if defined(...) branch itself is dead.
#[test]
fn dead_code_commented_out_define_makes_branch_dead() {
    let src = &[
        "//#define SUPPORT_FONT_DATA_COPY\n",    // 1
        "void f(void) {\n",                      // 2
        "#if defined(SUPPORT_FONT_DATA_COPY)\n", // 3
        "    sprintf(buf, \"%d\", n);\n",        // 4
        "#endif\n",                              // 5
        "}\n",                                   // 6
    ].concat();
    assert_eq!(ranges(src), vec![(4, 4, DeadCodeReason::NeverDefined)]);
}

#[test]
fn ifdef_macro_never_mentioned_is_neutral() {
    let src = "#ifdef _WIN32\nmaybe_dead();\n#endif\n";
    assert!(ranges(src).is_empty());
}

#[test]
fn undef_with_no_later_define_makes_ifdef_dead() {
    let src = "#define FOO\n#undef FOO\n#ifdef FOO\ndead();\n#endif\n";
    assert_eq!(ranges(src), vec![(4, 4, DeadCodeReason::NeverDefined)]);
}

#[test]
fn undef_with_no_later_define_makes_ifndef_live() {
    let src = "#define FOO\n#undef FOO\n#ifndef FOO\nlive();\n#else\ndead();\n#endif\n";
    assert_eq!(ranges(src), vec![(6, 6, DeadCodeReason::NeverDefined)]);
}

#[test]
fn dead_code_define_inside_conditional_does_not_count_as_unconditional() {
    // FOO is only #define'd inside a (live) #ifndef BAR branch, so it's
    // never provably unconditional — no region should be reported.
    let src = "#ifndef BAR\n#define FOO\n#endif\n#ifdef FOO\nx();\n#endif\n";
    assert!(ranges(src).is_empty());
}

#[test]
fn nested_if_zero_inside_dead_region_does_not_split_it() {
    let src = &[
        "#if 0\n",              // 1
        "a();\n",               // 2
        "#ifdef __cplusplus\n", // 3
        "b();\n",               // 4
        "#endif\n",             // 5
        "c();\n",               // 6
        "#endif\n",             // 7
        "d();\n",               // 8
    ].concat();
    assert_eq!(ranges(src), vec![(2, 6, DeadCodeReason::IfZero)]);
}

#[test]
fn unterminated_dead_block_runs_to_eof() {
    let src = "a();\n#if 0\nb();\nc();\n";
    assert_eq!(ranges(src), vec![(3, 4, DeadCodeReason::IfZero)]);
}

#[test]
fn empty_if_zero_block_yields_no_region() {
    let src = "#if 0\n#endif\n";
    assert!(ranges(src).is_empty());
}

#[test]
fn dead_code_no_directives_yields_no_regions() {
    assert!(ranges("int x = 0;\nint y = 1;\n").is_empty());
}

#[test]
fn dead_code_empty_source_yields_no_regions() {
    assert!(ranges("").is_empty());
}

