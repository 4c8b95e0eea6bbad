use lang_parsing_substrate::c_standard::{detect_min_c_standard, CStandard};
use lang_parsing_substrate::grammar::{parse_source, Grammar};

fn detect(source: &str) -> Option<CStandard> {
    let tree = parse_source(source, Grammar::C).unwrap();
    detect_min_c_standard(&tree)
}

#[test]
fn plain_c89_compatible_file_returns_none() {
    let source = "int add(int a, int b) { int c; c = a + b; return c; }";
    assert_eq!(detect(source), None);
}

#[test]
fn gnu_pre_standard_spellings_do_not_leak_into_the_signal() {
    let source = r#"
        __inline int f(__restrict__ int *p) { return *p; }
        int g(void) { int x = (int) { 1 }; return __typeof__(x) { 0 }.dummy; }
    "#;
    assert_eq!(detect(source), None);
}

#[test]
fn stdbool_style_usage_alone_returns_none() {
    let source = "bool flag(void) { bool b = true; return b || false; }";
    assert_eq!(detect(source), None);
}

#[test]
fn bare_restrict_is_c99() {
    let source = "void f(int *restrict p) { *p = 1; }";
    assert_eq!(detect(source), Some(CStandard::C99));
}

#[test]
fn field_designated_initializer_is_c99() {
    let source = "struct s { int a; int b; }; struct s x = { .a = 1, .b = 2 };";
    assert_eq!(detect(source), Some(CStandard::C99));
}

#[test]
fn subscript_designated_initializer_is_c99() {
    let source = "int a[3] = { [0] = 1, [2] = 3 };";
    assert_eq!(detect(source), Some(CStandard::C99));
}

#[test]
fn unspecified_vla_size_in_prototype_is_c99() {
    let source = "void f(int n, int a[*]);";
    assert_eq!(detect(source), Some(CStandard::C99));
}

#[test]
fn generic_expression_is_c11() {
    let source = "int f(int x) { return _Generic(x, int: 1, default: 0); }";
    assert_eq!(detect(source), Some(CStandard::C11));
}

#[test]
fn alignas_qualifier_is_c11() {
    let source = "_Alignas(16) int x;";
    assert_eq!(detect(source), Some(CStandard::C11));
}

#[test]
fn alignof_expression_is_c11() {
    let source = "int x = _Alignof(int);";
    assert_eq!(detect(source), Some(CStandard::C11));
}

#[test]
fn gnu_alignof_spellings_do_not_count_as_c11() {
    let source = "int x = __alignof__(int); int y = _alignof(int);";
    assert_eq!(detect(source), None);
}

#[test]
fn atomic_qualifier_is_c11() {
    let source = "_Atomic int counter;";
    assert_eq!(detect(source), Some(CStandard::C11));
}

#[test]
fn noreturn_qualifier_is_c11() {
    let source = "_Noreturn void die(void);";
    assert_eq!(detect(source), Some(CStandard::C11));
}

#[test]
fn static_assert_identifier_is_c11() {
    let source = "_Static_assert(sizeof(int) == 4, \"bad int size\");";
    assert_eq!(detect(source), Some(CStandard::C11));
}

#[test]
fn nullptr_is_c23() {
    let source = "int *p = nullptr;";
    assert_eq!(detect(source), Some(CStandard::C23));
}

#[test]
fn constexpr_qualifier_is_c23() {
    let source = "constexpr int limit = 100;";
    assert_eq!(detect(source), Some(CStandard::C23));
}

#[test]
fn standard_attribute_is_c23() {
    let source = "[[nodiscard]] int f(void);";
    assert_eq!(detect(source), Some(CStandard::C23));
}

#[test]
fn embed_directive_is_c23() {
    let source = "#embed \"data.bin\"\n";
    assert_eq!(detect(source), Some(CStandard::C23));
}

#[test]
fn embed_directive_inside_initializer_braces_is_a_known_false_negative() {
    // Documented gap, not a bug: this position produces an `ERROR` node
    // rather than `preproc_call`, so it's not detected. See the
    // `preproc_call` match arm's comment.
    let source = "unsigned char data[] = {\n#embed \"data.bin\"\n};";
    assert_eq!(detect(source), None);
}

#[test]
fn known_limitation_macro_guarded_marker_is_still_counted() {
    // Documented limitation, not a bug: tree-sitter has no preprocessor,
    // so a marker inside an untaken `#if __STDC_VERSION__` branch is
    // still visited and counted. If a future preprocessor-aware
    // refinement changes this, update this assertion deliberately.
    let source = r#"
        #if __STDC_VERSION__ >= 201112L
        int f(int x) { return _Generic(x, int: 1, default: 0); }
        #endif
    "#;
    assert_eq!(detect(source), Some(CStandard::C11));
}

#[test]
fn combining_markers_never_reports_a_lower_standard_than_either_alone() {
    let c99_only = "void f(int *restrict p) { *p = 1; }";
    let c11_only = "_Atomic int counter;";
    let combined = format!("{c99_only}\n{c11_only}");
    assert_eq!(detect(c99_only), Some(CStandard::C99));
    assert_eq!(detect(c11_only), Some(CStandard::C11));
    assert_eq!(detect(&combined), Some(CStandard::C11));
}

