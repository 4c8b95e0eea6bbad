//! A language-parsing substrate for static-analysis tools.

pub mod text;
pub mod registry;
pub mod syntax;
pub mod grammar;
pub mod regions;
pub mod suppressions;
pub mod dead_code;
pub mod cfg;
pub mod query;
pub mod calls;
pub mod imports;
pub mod fingerprint;
pub mod dead_code_csharp;
pub mod dead_code_swift;
pub mod c_standard;
pub mod cpp_header;
pub mod isr;
pub mod path_ignore;

pub use c_standard::{detect_min_c_standard, CStandard};
pub use calls::{call_edges, collect_local_names, get_function_name, is_function_kind, CallEdge};
pub use cfg::{build_function_cfg, BasicBlock, BlockId, CfgEdge, FunctionCfg};
pub use cpp_header::looks_like_cpp;
pub use dead_code::{dead_code_ranges, DeadCodeReason, DeadCodeRegion};
pub use dead_code_csharp::{csharp_dead_code_regions, CSharpDeadCodeRegion};
pub use dead_code_swift::{swift_dead_code_regions, SwiftDeadCodeRegion};
pub use fingerprint::{duplicate_groups, function_fingerprints, structural_hash, CorpusFingerprint, Fingerprint};
pub use grammar::{language_for_file, language_for_header_content, language_for_key};
pub use imports::{distinct_import_count, import_sources};
pub use isr::{interrupt_handlers, InterruptEvidence, InterruptHandler};
pub use path_ignore::PathIgnore;
pub use query::{
    find_ancestor, find_descendants, find_descendants_of_kind, find_descendants_of_kinds, find_first_descendant,
    nearest_ancestor_of_kind, nearest_ancestor_of_kinds, node_text,
};
pub use regions::{ignored_regions, IgnoredRegion};
pub use registry::{
    is_parseable_extension, is_source_extension, language_info_for_file, languages, sloc_mode_for_file,
    supported_languages_report, LanguageInfo, SlocMode,
};
pub use suppressions::{suppressions, Suppression};

pub use tree_sitter_ada;
pub use tree_sitter_c;
pub use tree_sitter_c_sharp;
pub use tree_sitter_cpp;
pub use tree_sitter_fortran;
pub use tree_sitter_go;
pub use tree_sitter_java;
pub use tree_sitter_javascript;
pub use tree_sitter_kotlin_ng;
pub use tree_sitter_lua;
pub use tree_sitter_php;
pub use tree_sitter_python;
pub use tree_sitter_rust;
pub use tree_sitter_scala;
pub use tree_sitter_swift;
pub use tree_sitter_typescript;
