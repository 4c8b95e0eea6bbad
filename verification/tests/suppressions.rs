use lang_parsing_substrate::registry::SlocMode;
use lang_parsing_substrate::suppressions::suppressions;

#[test]
fn sqc_suppression_with_hash_and_justification() {
    let src = "// tools:suppress sqc:INT30-C HASH:abc123def456789a JUSTIFICATION:\"validated\"\nuint32_t x = y + z;\n";
    let s = suppressions(src, SlocMode::Default);
    assert_eq!(s.len(), 1);
    assert_eq!(s[0].comment_line, 1);
    assert_eq!(s[0].target_line, Some(2));
    assert_eq!(s[0].tool, "sqc");
    assert_eq!(s[0].rule, "INT30-C");
    assert_eq!(s[0].hash.as_deref(), Some("abc123def456789a"));
    assert_eq!(s[0].justification.as_deref(), Some("validated"));
    assert!(s[0].applies_to("sqc", "INT30-C"));
    assert!(s[0].applies_to("SQC", "INT30-C"));
    assert!(!s[0].applies_to("sqc", "INT31-C"));
}

#[test]
fn knots_suppression_without_hash() {
    let src = "// tools:suppress knots:cognitive JUSTIFICATION:\"legacy, JIRA-123\"\nvoid big_function() {}\n";
    let s = suppressions(src, SlocMode::Default);
    assert_eq!(s.len(), 1);
    assert!(s[0].hash.is_none());
    assert_eq!(s[0].justification.as_deref(), Some("legacy, JIRA-123"));
}

#[test]
fn skips_blank_lines_to_find_target() {
    let src = "// tools:suppress knots:cognitive\n\n\nfn big() {}\n";
    let s = suppressions(src, SlocMode::Default);
    assert_eq!(s.len(), 1);
    assert_eq!(s[0].target_line, Some(4));
}

#[test]
fn no_target_when_comment_is_last_content() {
    let src = "fn a() {}\n// tools:suppress knots:cognitive\n";
    let s = suppressions(src, SlocMode::Default);
    assert_eq!(s.len(), 1);
    assert_eq!(s[0].target_line, None);
}

#[test]
fn python_comment_syntax() {
    let src = "# tools:suppress knots:cognitive JUSTIFICATION:\"legacy\"\ndef big_function():\n    pass\n";
    let s = suppressions(src, SlocMode::Python);
    assert_eq!(s.len(), 1);
    assert_eq!(s[0].tool, "knots");
    assert_eq!(s[0].target_line, Some(2));
}

#[test]
fn malformed_tool_rule_pair_is_ignored() {
    let src = "// tools:suppress knots\nfn a() {}\n";
    assert!(suppressions(src, SlocMode::Default).is_empty());
}

#[test]
fn ordinary_comment_is_not_a_suppression() {
    let src = "// suppress everything please\nfn a() {}\n";
    assert!(suppressions(src, SlocMode::Default).is_empty());
}

#[test]
fn no_markers_yields_no_suppressions() {
    let src = "fn a() {}\nfn b() {}\n";
    assert!(suppressions(src, SlocMode::Default).is_empty());
}

