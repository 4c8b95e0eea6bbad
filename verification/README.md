# lang-parsing-substrate

A language-parsing substrate for static-analysis tools: grammar dispatch for
16 languages, and language-agnostic analyses over a parse (imports, call
graphs, control-flow graphs, structural fingerprints, dead-code regions,
suppression comments), written in Verus. Every analysis over a parse is
proved against a mathematical specification; the parse itself is
tree-sitter's, and the contracts of the functions that take raw source speak
of it through a name for tree-sitter's result, node for node.

## Layout

- `src/syntax.rs` — `SyntaxTree`: a parse as plain data (nodes in pre-order,
  with kinds, fields, spans, parents and children) whose well-formedness is a
  type invariant. Every analysis works on it, so every analysis is verified.
- `src/grammar.rs` — grammar dispatch by extension or registry key, and the
  one place tree-sitter is called: a parse becomes a `SyntaxTree`, checked
  well-formed before it is handed out, whose nodes have a text exactly where
  their bytes are valid UTF-8.
- `src/registry.rs` — the language table, extension lookup, the
  `--supported-languages` report, and the table's laws (keys unique and
  lowercase, every extension resolving to its own language and grammar).
- `src/query.rs`, `src/calls.rs`, `src/imports.rs`, `src/cfg.rs`,
  `src/fingerprint.rs`, `src/isr.rs`, `src/c_standard.rs`,
  `src/cpp_header.rs` — the analyses over a tree.
- `src/dead_code.rs`, `src/dead_code_csharp.rs`, `src/dead_code_swift.rs` —
  preprocessor-dead regions for C/C++ (line-based), C# and Swift (tree-based).
- `src/regions.rs`, `src/suppressions.rs` — `tools:off`/`tools:on` regions and
  `tools:suppress` comments.
- `src/path_ignore.rs` — glob ignore sets, compiled by globset.
- `src/text.rs` — character-level helpers and their `Seq<char>` models.
- `app/lib.rs` — Python bindings (pyo3) over the library.
- `tests/` — scenario tests, run against the compiled library.

Calls into tree-sitter, globset and std that Verus cannot see are made by
small trusted wrappers whose contracts say only what those crates document;
the analyses above them are proved.

Sets and maps of names (the `#define`d macros and symbols of the
preprocessor evaluators, the local function names of the call graph) are
held as vectors searched linearly. vstd specifies
`HashMap` and `HashSet` only for key types it knows to obey its hashing
model (integers, `bool`, `char` and boxes of them), not for `String`, so a
string-keyed table would give the proofs nothing to stand on.
