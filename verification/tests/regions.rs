use lang_parsing_substrate::regions::ignored_regions;
use lang_parsing_substrate::registry::SlocMode;

#[test]
fn unqualified_block_applies_to_every_tool() {
    let src = "a();\n/* tools:off */\nb();\nc();\n/* tools:on */\nd();\n";
    let regions = ignored_regions(src, SlocMode::Default);
    assert_eq!(regions.len(), 1);
    assert_eq!(regions[0].line_range, 2..5);
    assert!(regions[0].applies_to("knots"));
    assert!(regions[0].applies_to("funky"));
    let region_text = &src[regions[0].byte_range.clone()];
    assert!(region_text.contains("b();"));
    assert!(region_text.contains("c();"));
    assert!(!region_text.contains("a();"));
    assert!(!region_text.contains("d();"));
}

#[test]
fn qualified_block_scopes_named_tools_only() {
    let src = "/* tools:off funky */\nint m[] = {1,0};\n/* tools:on */\n";
    let regions = ignored_regions(src, SlocMode::Default);
    assert_eq!(regions.len(), 1);
    assert!(regions[0].applies_to("funky"));
    assert!(!regions[0].applies_to("knots"));
}

#[test]
fn multi_tool_qualifier_splits_on_comma() {
    let src = "// tools:off knots,sqc\nx();\n// tools:on\n";
    let regions = ignored_regions(src, SlocMode::Default);
    assert_eq!(regions.len(), 1);
    assert!(regions[0].applies_to("knots"));
    assert!(regions[0].applies_to("sqc"));
    assert!(!regions[0].applies_to("funky"));
}

#[test]
fn python_line_comment_syntax() {
    let src = "a()\n# tools:off\nb()\n# tools:on\nc()\n";
    let regions = ignored_regions(src, SlocMode::Python);
    assert_eq!(regions.len(), 1);
    assert_eq!(regions[0].line_range, 2..4);
}

#[test]
fn ada_and_fortran_dash_and_bang_comments() {
    let src = "-- tools:off\nx;\n-- tools:on\n";
    let regions = ignored_regions(src, SlocMode::Ada);
    assert_eq!(regions.len(), 1);

    let src = "! tools:off\nx\n! tools:on\n";
    let regions = ignored_regions(src, SlocMode::Fortran);
    assert_eq!(regions.len(), 1);
}

#[test]
fn nested_off_markers_are_ignored_until_outer_on() {
    let src = "// tools:off\na();\n// tools:off\nb();\n// tools:on\nc();\n";
    let regions = ignored_regions(src, SlocMode::Default);
    assert_eq!(regions.len(), 1);
    assert_eq!(regions[0].line_range, 1..5);
}

#[test]
fn unclosed_off_extends_to_end_of_file() {
    let src = "a();\n// tools:off\nb();\nc();\n";
    let regions = ignored_regions(src, SlocMode::Default);
    assert_eq!(regions.len(), 1);
    assert_eq!(regions[0].line_range, 2..4);
    assert_eq!(regions[0].byte_range.end, src.len());
}

#[test]
fn no_markers_yields_no_regions() {
    let src = "a();\nb();\n// just a normal comment\n";
    assert!(ignored_regions(src, SlocMode::Default).is_empty());
}

#[test]
fn ordinary_comment_is_not_a_marker() {
    let src = "// tools:offline mode flag\nx();\n";
    assert!(ignored_regions(src, SlocMode::Default).is_empty());
}

#[test]
fn regions_empty_source_yields_no_regions() {
    assert!(ignored_regions("", SlocMode::Default).is_empty());
}

