use lang_parsing_substrate::calls::{call_edges, collect_local_names};
use lang_parsing_substrate::c_standard::{detect_min_c_standard, CStandard};
use lang_parsing_substrate::cfg::{cfg_edge_name, function_cfg, CfgEdge};
use lang_parsing_substrate::cpp_header::looks_like_cpp;
use lang_parsing_substrate::dead_code::dead_code_ranges;
use lang_parsing_substrate::dead_code_csharp::csharp_dead_code_regions;
use lang_parsing_substrate::dead_code_swift::{classify_constant_condition, swift_dead_code_regions, Tok};
use lang_parsing_substrate::fingerprint::{function_fingerprints, structural_hash};
use lang_parsing_substrate::grammar::{
    grammar_for_extension, grammar_for_file, grammar_for_header_content, grammar_for_key, parse_bytes, parse_source,
    Grammar,
};
use lang_parsing_substrate::imports::{import_sources, unquote};
use lang_parsing_substrate::isr::{interrupt_handlers, InterruptEvidence};
use lang_parsing_substrate::path_ignore::{PathIgnore, PathIgnoreError};
use lang_parsing_substrate::query::find_ancestor;
use lang_parsing_substrate::regions::ignored_regions;
use lang_parsing_substrate::registry::{
    language_info_for_file, languages, sloc_mode_for_file, sloc_mode_for_key, supported_languages_report, SlocMode,
};
use lang_parsing_substrate::suppressions::suppressions;

#[test]
fn dead_regions_come_in_line_order_within_the_file() {
    let src = "#if 0\na();\n#endif\nb();\n#ifdef __cplusplus\nc();\n#endif\n";
    let regions = dead_code_ranges(src);
    assert_eq!(regions.len(), 2);
    assert_eq!((regions[0].start_line, regions[0].end_line), (2, 2));
    assert_eq!((regions[1].start_line, regions[1].end_line), (6, 6));
    assert!(regions[0].end_line < regions[1].start_line);
}

#[test]
fn ignored_regions_are_ordered_with_exact_spans() {
    let src = "// tools:off\na();\n// tools:on\nb();\n// tools:off knots\nc();\n";
    let regions = ignored_regions(src, SlocMode::Default);
    assert_eq!(regions.len(), 2);
    assert_eq!(regions[0].byte_range, 0..29);
    assert_eq!(regions[0].line_range, 1..3);
    assert_eq!(regions[1].byte_range, 35..src.len());
    assert_eq!(regions[1].line_range, 5..6);
    assert!(regions[0].byte_range.end <= regions[1].byte_range.start);
    assert!(regions[1].applies_to("KNOTS"));
    assert!(!regions[1].applies_to("funky"));
}

#[test]
fn suppressions_target_later_lines_in_order() {
    let src = "// tools:suppress a:b\n\nx();\n// tools:suppress c:d\ny();\n";
    let s = suppressions(src, SlocMode::Default);
    assert_eq!(s.len(), 2);
    assert_eq!((s[0].comment_line, s[0].target_line), (1, Some(3)));
    assert_eq!((s[1].comment_line, s[1].target_line), (4, Some(5)));
    assert!(s[1].applies_to("C", "d"));
    assert!(!s[1].applies_to("c", "D"));
}

#[test]
fn extension_dispatch_and_key_dispatch_agree() {
    assert_eq!(grammar_for_key("typescript"), grammar_for_extension("ts"));
    assert_eq!(grammar_for_key("tsx"), Some(Grammar::Tsx));
    assert_eq!(grammar_for_extension("h"), Some(Grammar::C));
    assert_eq!(grammar_for_extension("F08"), Some(Grammar::Fortran));
    assert_eq!(grammar_for_key("C"), None);
}

#[test]
fn path_extension_is_the_text_after_the_last_dot() {
    assert_eq!(grammar_for_file("dir.v2/main.rs"), Some(Grammar::Rust));
    assert_eq!(grammar_for_file("archive.tar.go"), Some(Grammar::Go));
    assert_eq!(grammar_for_file("Makefile"), None);
    assert_eq!(language_info_for_file("src/lib.kts").map(|l| l.key), Some("kotlin"));
    assert_eq!(sloc_mode_for_file("m.adb"), Some(SlocMode::Ada));
}

#[test]
fn sloc_mode_by_key() {
    assert_eq!(sloc_mode_for_key("lua"), Some(SlocMode::Lua));
    assert_eq!(sloc_mode_for_key("python"), Some(SlocMode::Python));
    assert_eq!(sloc_mode_for_key("Lua"), None);
}

#[test]
fn report_has_exact_aligned_lines() {
    let report = supported_languages_report();
    assert!(report.starts_with(
        "Supported languages:\n  C           .c  (also .h when passed explicitly)\n  C++         .cpp .cc .cxx .hpp .hxx\n"
    ));
    assert!(report.ends_with("  Lua         .lua\n"));
    assert_eq!(report.lines().count(), languages().len() + 1);
}

#[test]
fn header_content_picks_cpp_only_for_cpp_headers() {
    assert_eq!(grammar_for_header_content("a.h", b"class A {};"), Some(Grammar::Cpp));
    assert_eq!(grammar_for_header_content("a.h", b"int f(void);"), Some(Grammar::C));
    assert_eq!(grammar_for_header_content("a.hpp", b"int f(void);"), Some(Grammar::Cpp));
    assert_eq!(grammar_for_header_content("a.c", b"class A {};"), Some(Grammar::C));
    assert_eq!(grammar_for_header_content("a.txt", b"class A {};"), None);
}

#[test]
fn non_utf8_header_still_parses_for_cpp_markers() {
    let mut src = b"// caf\xe9\nnamespace app { int helper(); }\n".to_vec();
    assert!(looks_like_cpp(&src));
    src.truncate(9);
    assert!(!looks_like_cpp(&src));
    let tree = parse_bytes(b"int x; // \xff\n", Grammar::C).unwrap();
    assert!(tree.len() > 1);
}

#[test]
fn non_utf8_sources_still_find_dead_regions() {
    let cs: Vec<(usize, usize)> = csharp_dead_code_regions(b"#if false\nx(); // \xff\n#endif\n")
        .iter()
        .map(|r| (r.start_line, r.end_line))
        .collect();
    assert_eq!(cs, vec![(2, 2)]);
    let sw: Vec<(usize, usize)> = swift_dead_code_regions(b"#if false\nx() // \xff\n#endif\n")
        .iter()
        .map(|r| (r.start_line, r.end_line))
        .collect();
    assert_eq!(sw, vec![(2, 2)]);
}

#[test]
fn invalid_bytes_leave_only_their_nodes_without_text() {
    let tree = parse_bytes(b"int x; // \xff\n", Grammar::C).unwrap();
    let ident = (0..tree.len()).find(|&i| tree.node(i).kind == "identifier").unwrap();
    let comment = (0..tree.len()).find(|&i| tree.node(i).kind == "comment").unwrap();
    assert_eq!(tree.text(ident).map(|t| t.iter().collect::<String>()), Some("x".to_string()));
    assert!(tree.text(comment).is_none());
    assert!(tree.text(0).is_none());
}

#[test]
fn constant_conditions_evaluate_with_precedence() {
    assert_eq!(classify_constant_condition(&[Tok::Not, Tok::False]), Some(true));
    assert_eq!(classify_constant_condition(&[Tok::True, Tok::Or, Tok::False, Tok::And, Tok::False]), Some(true));
    assert_eq!(classify_constant_condition(&[Tok::LParen, Tok::True, Tok::Or, Tok::False, Tok::RParen, Tok::And, Tok::False]), Some(false));
    assert_eq!(classify_constant_condition(&[Tok::LParen, Tok::True]), None);
    assert_eq!(classify_constant_condition(&[]), None);
}

#[test]
fn any_unknown_token_leaves_the_condition_unclassified() {
    assert_eq!(classify_constant_condition(&[Tok::True, Tok::Or, Tok::Other]), None);
    assert_eq!(classify_constant_condition(&[Tok::Other, Tok::And, Tok::False]), None);
}

#[test]
fn renamed_identifiers_and_constants_keep_the_hash() {
    let a = "int f(int x) { return x + 1; }";
    let b = "int g(int y) { return y + 42; }";
    let ta = parse_source(a, Grammar::C).unwrap();
    let tb = parse_source(b, Grammar::C).unwrap();
    assert_eq!(structural_hash(&ta, 0), structural_hash(&tb, 0));
    let c = "char f(int x) { return x + 1; }";
    let tc = parse_source(c, Grammar::C).unwrap();
    let fa = function_fingerprints(&ta, 0, 0);
    let fc = function_fingerprints(&tc, 0, 0);
    assert_ne!(fa[0].hash, fc[0].hash);
    assert_eq!(fa[0].node_count, fc[0].node_count);
    assert_eq!((fa[0].start_line, fa[0].end_line), (1, 1));
}

#[test]
fn c_standard_is_the_highest_marker() {
    let tree = parse_source("int *restrict p; constexpr int n = 1; _Atomic int a;", Grammar::C).unwrap();
    assert_eq!(detect_min_c_standard(&tree), Some(CStandard::C23));
}

#[test]
fn unknown_import_key_yields_nothing_even_with_imports_present() {
    let tree = parse_source("import os\n", Grammar::Python).unwrap();
    assert_eq!(import_sources(&tree, "python"), vec!["os"]);
    assert!(import_sources(&tree, "cobol").is_empty());
}

#[test]
fn function_cfg_finds_the_named_function() {
    let src = "int a(int x) { return x; }\nint b(int x) { if (x) { return 1; } return 0; }\n";
    let tree = parse_source(src, Grammar::C).unwrap();
    let cfg = function_cfg(&tree, 0, "c", "b").unwrap();
    assert!(cfg.edges.iter().any(|(_, _, e)| *e == CfgEdge::TrueBranch));
    assert!(function_cfg(&tree, 0, "c", "missing").is_none());
    assert!(function_cfg(&tree, 0, "python", "b").is_none());
    assert_eq!(cfg_edge_name(CfgEdge::BackEdge), "back_edge");
    assert_eq!(cfg_edge_name(CfgEdge::Fallthrough), "fallthrough");
}

#[test]
fn c23_attribute_prefix_is_reported() {
    let src = "[[interrupt]] void h(void) {}\n";
    let tree = parse_source(src, Grammar::C).unwrap();
    let handlers = interrupt_handlers(&tree, 0);
    assert_eq!(handlers.len(), 1);
    assert_eq!(
        handlers[0].evidence,
        InterruptEvidence::C23Attribute { prefix: None, name: "interrupt".to_string() }
    );
    assert_eq!(handlers[0].node_range, (0, src.len() - 1));
}

#[test]
fn invalid_pattern_error_names_the_first_bad_pattern() {
    match PathIgnore::new(&["vendor/**", "a[", "{b"]) {
        Err(PathIgnoreError::InvalidPattern { index, pattern, message }) => {
            assert_eq!(index, 1);
            assert_eq!(pattern, "a[");
            assert!(!message.is_empty());
        },
        _ => panic!("expected an invalid-pattern error"),
    }
}

#[test]
fn ignore_patterns_match_only_what_they_name() {
    let ignore = PathIgnore::new(&["*.log", "build/**"]).unwrap();
    assert!(ignore.is_ignored("trace.log"));
    assert!(ignore.is_ignored("build/out/a.o"));
    assert!(!ignore.is_ignored("src/build.rs"));
    let none = PathIgnore::new(&[]).unwrap();
    assert!(!none.is_ignored("anything"));
}

#[test]
fn cfg_neighbours_and_blocks_by_id() {
    let src = "int f(int x) { if (x) { x = 1; } return x; }";
    let tree = parse_source(src, Grammar::C).unwrap();
    let func = (0..tree.len()).find(|&i| tree.node(i).kind == "function_definition").unwrap();
    let cfg = lang_parsing_substrate::cfg::build_function_cfg(&tree, func, "c").unwrap();
    let succ = cfg.successors(cfg.entry);
    assert!(succ.iter().any(|(_, e)| *e == CfgEdge::TrueBranch));
    assert!(succ.iter().any(|(_, e)| *e == CfgEdge::FalseBranch));
    for (to, _) in &succ {
        assert!(cfg.predecessors(*to).iter().any(|(from, _)| *from == cfg.entry));
    }
    assert_eq!(cfg.get_block(0).map(|b| b.id), Some(0));
    assert!(cfg.get_block(cfg.block_count()).is_none());
}

#[test]
fn unquote_strips_one_layer_of_matching_quotes() {
    assert_eq!(unquote("\"a.h\""), "a.h");
    assert_eq!(unquote("<stdio.h>"), "stdio.h");
    assert_eq!(unquote("'x'"), "x");
    assert_eq!(unquote("\"a'"), "\"a'");
    assert_eq!(unquote("\""), "\"");
    assert_eq!(unquote("plain"), "plain");
}

#[test]
fn find_ancestor_returns_the_nearest_match_or_none() {
    let src = "int f(void) { while (1) { while (2) { break; } } }";
    let tree = parse_source(src, Grammar::C).unwrap();
    let brk = (0..tree.len()).find(|&i| tree.node(i).kind == "break_statement").unwrap();
    let whiles: Vec<usize> = (0..tree.len()).filter(|&i| tree.node(i).kind == "while_statement").collect();
    assert_eq!(find_ancestor(&tree, brk, |n: usize| tree.node(n).kind == "while_statement"), Some(whiles[1]));
    assert_eq!(find_ancestor(&tree, brk, |n: usize| tree.node(n).kind == "for_statement"), None);
    assert_eq!(find_ancestor(&tree, 0, |_n: usize| true), None);
}

#[test]
fn call_edges_are_external_exactly_for_callees_not_defined_here() {
    let src = "static int helper(void) { return 1; }\n#define TWICE(x) ((x) * 2)\nint helper(void);\nint main(void) { helper(); printf(\"x\"); return TWICE(helper()); }\nint helper2(void) { return main(); }\n";
    let tree = parse_source(src, Grammar::C).unwrap();
    let names = collect_local_names(&tree, 0);
    let mut sorted = names.clone();
    sorted.sort();
    sorted.dedup();
    assert_eq!(sorted.len(), names.len());
    for n in ["helper", "TWICE", "main", "helper2"] {
        assert!(names.iter().any(|x| x == n), "missing {n}");
    }
    let edges = call_edges(&tree, 0);
    assert!(!edges.is_empty());
    for e in &edges {
        assert_eq!(e.is_external, !names.iter().any(|x| *x == e.callee));
        assert!(names.iter().any(|x| *x == e.caller));
    }
    assert!(edges.iter().any(|e| e.callee == "printf" && e.is_external));
    assert!(edges.iter().any(|e| e.callee == "helper" && !e.is_external));
}

#[test]
fn a_name_defined_twice_is_collected_once() {
    let src = "int f(void) { return 0; }\nint f(void) { return 1; }\n";
    let tree = parse_source(src, Grammar::C).unwrap();
    let names = collect_local_names(&tree, 0);
    assert_eq!(names, vec!["f".to_string()]);
}

#[test]
fn file_lookup_takes_the_first_language_listing_the_extension() {
    let c = language_info_for_file("x.h").unwrap();
    assert_eq!(c.key, "c");
    let first = languages().into_iter().find(|l| l.extensions.contains(&"h") || l.explicit_only.contains(&"h")).unwrap();
    assert_eq!(first.key, c.key);
    assert!(language_info_for_file("A.PY").is_none());
    assert!(language_info_for_file("x").is_none());
    assert_eq!(language_info_for_file("src/main.rs").unwrap().key, "rust");
}

#[test]
fn parse_bytes_mirrors_tree_sitter_node_for_node() {
    let src = "int main(void) { return 0; }\n";
    let tree = parse_bytes(src.as_bytes(), Grammar::C).unwrap();
    let mut parser = tree_sitter::Parser::new();
    parser.set_language(&tree_sitter_c::LANGUAGE.into()).unwrap();
    let ts = parser.parse(src, None).unwrap();
    let mut cursor = ts.walk();
    let mut kinds = Vec::new();
    let mut depth_ok = true;
    loop {
        kinds.push(cursor.node().kind().to_string());
        if cursor.goto_first_child() {
            continue;
        }
        loop {
            if cursor.goto_next_sibling() {
                break;
            }
            if !cursor.goto_parent() {
                depth_ok = false;
                break;
            }
        }
        if !depth_ok {
            break;
        }
    }
    assert_eq!(tree.len(), kinds.len());
    for (i, k) in kinds.iter().enumerate() {
        assert_eq!(&tree.node(i).kind, k);
    }
}

#[test]
fn a_leading_code_line_moves_every_dead_region_down_one_line() {
    let sources = [
        "#if 0\na();\n#endif\nb();\n#ifdef __cplusplus\nc();\n#else\nd();\n#endif\n",
        "#if 1\nx();\n#else\ny();\nz();\n#endif\n",
        "#if 0\nunterminated();\n",
        "",
    ];
    for s in sources {
        let shifted = dead_code_ranges(&format!("x;\n{s}"));
        let base = dead_code_ranges(s);
        assert_eq!(shifted.len(), base.len());
        for (a, b) in shifted.iter().zip(base.iter()) {
            assert_eq!(a.start_line, b.start_line + 1);
            assert_eq!(a.end_line, b.end_line + 1);
            assert_eq!(a.reason, b.reason);
        }
    }
}

#[test]
fn node_texts_are_exactly_the_valid_utf8_spans() {
    let sources: [&[u8]; 3] = [
        b"int main(void) { return 0; }\n",
        b"/* caf\xe9 */ int x = 1; char *s = \"\xff\xfe ok\";\n",
        b"int \xc3\xa9t\xe9 = 2;\n// \xe2\x82\n",
    ];
    for src in sources {
        let tree = parse_bytes(src, Grammar::C).unwrap();
        let mut parser = tree_sitter::Parser::new();
        parser.set_language(&tree_sitter_c::LANGUAGE.into()).unwrap();
        let ts = parser.parse(src, None).unwrap();
        let mut cursor = ts.walk();
        let mut i = 0;
        'walk: loop {
            let node = cursor.node();
            let expected = node.utf8_text(src).ok().map(|s| s.chars().collect::<Vec<char>>());
            let got = tree.text(i).map(|cs| cs.to_vec());
            assert_eq!(got, expected, "node {i} ({})", node.kind());
            i += 1;
            if cursor.goto_first_child() {
                continue;
            }
            loop {
                if cursor.goto_next_sibling() {
                    break;
                }
                if !cursor.goto_parent() {
                    break 'walk;
                }
            }
        }
        assert_eq!(i, tree.len());
    }
}

#[test]
fn dead_branches_are_found_in_files_that_are_not_utf8() {
    let cs = csharp_dead_code_regions(b"// caf\xe9\n#if false\nint a = 1;\n#endif\n");
    assert_eq!(cs.iter().map(|r| (r.start_line, r.end_line)).collect::<Vec<_>>(), vec![(3, 3)]);
    let sw = swift_dead_code_regions(b"// caf\xe9\n#if false\nlet a = 1\n#endif\n");
    assert_eq!(sw.iter().map(|r| (r.start_line, r.end_line)).collect::<Vec<_>>(), vec![(3, 3)]);
}
