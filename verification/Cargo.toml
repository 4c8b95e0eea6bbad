[package]
name = "lang_parsing_substrate"
version = "0.4.0"
edition = "2021"
publish = false

[dependencies]
tree-sitter = "0.25"
tree-sitter-ada = "0.1"
tree-sitter-c = "0.24"
tree-sitter-c-sharp = "0.23"
tree-sitter-cpp = "0.23"
tree-sitter-fortran = "0.6"
tree-sitter-go = "0.25"
tree-sitter-java = "0.23"
tree-sitter-javascript = "0.25"
tree-sitter-kotlin-ng = "1.1"
tree-sitter-lua = "0.5"
tree-sitter-php = "0.24"
tree-sitter-python = "0.25"
tree-sitter-rust = "0.24"
tree-sitter-scala = "0.26"
tree-sitter-swift = "0.7"
tree-sitter-typescript = "0.23"
globset = "0.4"
pyo3 = "0.22"
