use lang_parsing_substrate::grammar::{grammar_for_key, parse_source};
use lang_parsing_substrate::imports::{distinct_import_count, import_sources};

fn sources(key: &str, code: &str) -> Vec<String> {
    let grammar = grammar_for_key(key).unwrap_or_else(|| panic!("no grammar for {key}"));
    let tree = parse_source(code, grammar).unwrap();
    import_sources(&tree, key)
}

#[test]
fn c_include() {
    let code = "#include <stdio.h>\n#include \"local.h\"\nint main() {}\n";
    assert_eq!(sources("c", code), vec!["stdio.h", "local.h"]);
}

#[test]
fn cpp_include() {
    let code = "#include <vector>\n#include \"foo.hpp\"\n";
    assert_eq!(sources("cpp", code), vec!["vector", "foo.hpp"]);
}

#[test]
fn rust_use() {
    let code = "use std::collections::HashMap;\nuse crate::foo::{bar, baz};\n";
    assert_eq!(
        sources("rust", code),
        vec!["std::collections::HashMap", "crate::foo::{bar, baz}"]
    );
}

#[test]
fn python_import_forms() {
    let code = "import os, sys\nfrom collections import OrderedDict\nimport numpy as np\n";
    assert_eq!(
        sources("python", code),
        vec!["os", "sys", "collections", "numpy"]
    );
}

#[test]
fn javascript_import() {
    let code = "import foo from \"foo\";\nimport { a, b } from './bar.js';\n";
    assert_eq!(sources("javascript", code), vec!["foo", "./bar.js"]);
}

#[test]
fn typescript_import_and_require() {
    let code = "import { A } from \"a\";\nimport x = require(\"b\");\n";
    assert_eq!(sources("typescript", code), vec!["a", "b"]);
}

#[test]
fn go_import_spec() {
    let code = "package main\nimport (\n\t\"fmt\"\n\t_ \"os\"\n)\n";
    assert_eq!(sources("go", code), vec!["fmt", "os"]);
}

#[test]
fn java_import_declaration() {
    let code = "import java.util.List;\nimport static java.lang.Math.*;\n";
    assert_eq!(
        sources("java", code),
        vec!["java.util.List", "java.lang.Math"]
    );
}

#[test]
fn csharp_using_directive() {
    let code = "using System;\nusing System.Collections.Generic;\n";
    assert_eq!(
        sources("csharp", code),
        vec!["System", "System.Collections.Generic"]
    );
}

#[test]
fn kotlin_import() {
    let code = "import kotlin.collections.List\n";
    assert_eq!(sources("kotlin", code), vec!["kotlin.collections.List"]);
}

#[test]
fn swift_import() {
    let code = "import Foundation\n";
    assert_eq!(sources("swift", code), vec!["Foundation"]);
}

#[test]
fn php_use_and_require() {
    let code = "<?php\nuse Foo\\Bar;\nrequire_once 'vendor/autoload.php';\n";
    assert_eq!(
        sources("php", code),
        vec!["Foo\\Bar", "vendor/autoload.php"]
    );
}

#[test]
fn fortran_use_statement() {
    let code = "program p\n  use iso_fortran_env\nend program p\n";
    assert_eq!(sources("fortran", code), vec!["iso_fortran_env"]);
}

#[test]
fn scala_import_declaration() {
    let code = "import scala.collection.mutable.ListBuffer\n";
    assert_eq!(
        sources("scala", code),
        vec!["scala.collection.mutable.ListBuffer"]
    );
}

#[test]
fn lua_require_call() {
    let code = "local m = require(\"module.name\")\n";
    assert_eq!(sources("lua", code), vec!["module.name"]);
}

#[test]
fn ada_with_clause() {
    let code =
        "with Ada.Text_IO, Ada.Integer_Text_IO;\nprocedure P is\nbegin\n  null;\nend P;\n";
    assert_eq!(
        sources("ada", code),
        vec!["Ada.Text_IO", "Ada.Integer_Text_IO"]
    );
}

#[test]
fn unrecognized_key_yields_nothing() {
    let code = "use std::fmt;\n";
    let tree = parse_source(code, grammar_for_key("rust").unwrap()).unwrap();
    assert!(import_sources(&tree, "not-a-real-language-key").is_empty());
}

#[test]
fn distinct_count_dedupes() {
    let code = "import os\nimport os\nimport sys\n";
    let tree = parse_source(code, grammar_for_key("python").unwrap()).unwrap();
    assert_eq!(distinct_import_count(&tree, "python"), 2);
}

