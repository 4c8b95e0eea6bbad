use lang_parsing_substrate::grammar::{parse_source, Grammar};
use lang_parsing_substrate::isr::{interrupt_handlers, InterruptEvidence};
use lang_parsing_substrate::syntax::SyntaxTree;

fn parse_c(source: &str) -> SyntaxTree {
    parse_source(source, Grammar::C).unwrap()
}

#[test]
fn avr_libc_macro_invocation_is_detected() {
    let source = "ISR(TIMER1_COMPA_vect) {\n    counter++;\n}\n";
    let tree = parse_c(source);
    let handlers = interrupt_handlers(&tree, 0);
    assert_eq!(handlers.len(), 1);
    assert_eq!(handlers[0].name, None);
    assert_eq!(
        handlers[0].evidence,
        InterruptEvidence::MacroInvocation {
            macro_name: "ISR".to_string()
        }
    );
}

#[test]
fn gnu_attribute_no_arg_is_detected() {
    let source = "__attribute__((interrupt)) void real_isr(void) {\n    counter++;\n}\n";
    let tree = parse_c(source);
    let handlers = interrupt_handlers(&tree, 0);
    assert_eq!(handlers.len(), 1);
    assert_eq!(handlers[0].name.as_deref(), Some("real_isr"));
    assert_eq!(
        handlers[0].evidence,
        InterruptEvidence::GnuAttribute {
            attribute_name: "interrupt".to_string()
        }
    );
}

#[test]
fn gnu_attribute_with_arg_is_detected() {
    let source =
        "void __attribute__((interrupt(\"IRQ\"))) arm_isr(void) {\n    counter++;\n}\n";
    let tree = parse_c(source);
    let handlers = interrupt_handlers(&tree, 0);
    assert_eq!(handlers.len(), 1);
    assert_eq!(handlers[0].name.as_deref(), Some("arm_isr"));
    assert_eq!(
        handlers[0].evidence,
        InterruptEvidence::GnuAttribute {
            attribute_name: "interrupt".to_string()
        }
    );
}

#[test]
fn c23_attribute_is_detected() {
    let source = "[[gnu::interrupt]] void c23_isr(void *frame) {\n    counter++;\n}\n";
    let tree = parse_c(source);
    let handlers = interrupt_handlers(&tree, 0);
    assert_eq!(handlers.len(), 1);
    assert_eq!(handlers[0].name.as_deref(), Some("c23_isr"));
    assert_eq!(
        handlers[0].evidence,
        InterruptEvidence::C23Attribute {
            prefix: Some("gnu".to_string()),
            name: "interrupt".to_string()
        }
    );
}

#[test]
fn bare_isr_ish_name_with_no_marking_is_not_detected() {
    // An ISR-ish *name* with zero attribute/macro evidence must not be
    // reported. This is the whole reason this module exists instead of
    // a name-substring regex.
    let source = "void DEV_APPROX_IRQProcess(void) {\n    poll();\n}\n";
    let tree = parse_c(source);
    assert!(interrupt_handlers(&tree, 0).is_empty());
}

#[test]
fn unrelated_attribute_is_not_detected() {
    let source = "__attribute__((noreturn)) void die(void) {\n    for(;;);\n}\n";
    let tree = parse_c(source);
    assert!(interrupt_handlers(&tree, 0).is_empty());
}

#[test]
fn unrelated_macro_shaped_function_is_still_reported_as_macro_invocation() {
    // Any macro-shaped function_definition is structurally
    // indistinguishable from ISR(vector) { ... } — see module docs on
    // why filtering by macro name is left to the caller.
    let source = "TEST_CASE(my_test) {\n    assert(1);\n}\n";
    let tree = parse_c(source);
    let handlers = interrupt_handlers(&tree, 0);
    assert_eq!(handlers.len(), 1);
    assert_eq!(
        handlers[0].evidence,
        InterruptEvidence::MacroInvocation {
            macro_name: "TEST_CASE".to_string()
        }
    );
}

#[test]
fn multiple_handlers_in_one_file_are_all_detected() {
    let source = "ISR(TIMER1_COMPA_vect) {\n    counter++;\n}\n\n__attribute__((interrupt)) void real_isr(void) {\n    counter++;\n}\n";
    let tree = parse_c(source);
    let handlers = interrupt_handlers(&tree, 0);
    assert_eq!(handlers.len(), 2);
}

#[test]
fn cpp_gnu_attribute_is_detected() {
    let source = "__attribute__((interrupt)) void real_isr(void) {\n    counter++;\n}\n";
    let tree = parse_source(source, Grammar::Cpp).unwrap();
    let handlers = interrupt_handlers(&tree, 0);
    assert_eq!(handlers.len(), 1);
    assert_eq!(handlers[0].name.as_deref(), Some("real_isr"));
}

#[test]
fn cpp_c23_attribute_is_detected() {
    let source = "[[gnu::interrupt]] void c23_isr(void *frame) {\n    counter++;\n}\n";
    let tree = parse_source(source, Grammar::Cpp).unwrap();
    let handlers = interrupt_handlers(&tree, 0);
    assert_eq!(handlers.len(), 1);
    assert_eq!(handlers[0].name.as_deref(), Some("c23_isr"));
}

