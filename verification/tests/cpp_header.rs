use lang_parsing_substrate::cpp_header::looks_like_cpp;

#[test]
fn plain_c_header_is_not_cpp() {
    let src = br#"
#ifndef FOO_H
#define FOO_H

typedef struct Point {
int x;
int y;
} Point;

int point_distance(const Point *a, const Point *b);

#endif
"#;
    assert!(!looks_like_cpp(src));
}

#[test]
fn c11_static_assert_macro_is_not_cpp() {
    let src = br#"
#include <assert.h>
static_assert(sizeof(int) == 4, "unexpected int size");
"#;
    assert!(!looks_like_cpp(src));
}

#[test]
fn class_is_cpp() {
    let src = br#"
class Widget {
public:
Widget();
int value() const;
private:
int value_;
};
"#;
    assert!(looks_like_cpp(src));
}

#[test]
fn namespace_is_cpp() {
    let src = b"namespace app { int helper(); }";
    assert!(looks_like_cpp(src));
}

#[test]
fn template_is_cpp() {
    let src = b"template<typename T> T max(T a, T b) { return a > b ? a : b; }";
    assert!(looks_like_cpp(src));
}

#[test]
fn scope_resolution_is_cpp() {
    let src = b"int Widget::value() const { return 0; }";
    assert!(looks_like_cpp(src));
}

#[test]
fn reference_parameter_is_cpp() {
    let src = b"void increment(int &x);";
    assert!(looks_like_cpp(src));
}

#[test]
fn try_catch_is_cpp() {
    let src = b"void f() { try { g(); } catch (...) { } }";
    assert!(looks_like_cpp(src));
}

#[test]
fn using_namespace_is_cpp() {
    let src = b"using namespace std;";
    assert!(looks_like_cpp(src));
}

#[test]
fn empty_source_is_not_cpp() {
    assert!(!looks_like_cpp(b""));
}

