use lang_parsing_substrate::calls::is_function_kind;
use lang_parsing_substrate::fingerprint::{
    block_fingerprints, duplicate_groups, function_fingerprints, structural_hash, CorpusFingerprint, Fingerprint,
    FingerprintTier,
};
use lang_parsing_substrate::grammar::{parse_source, Grammar};
use lang_parsing_substrate::query::find_descendants;
use lang_parsing_substrate::syntax::SyntaxTree;

fn parse(source: &str, grammar: Grammar) -> SyntaxTree {
    parse_source(source, grammar).unwrap()
}

#[test]
fn identical_functions_hash_identically() {
    let a = "int f(int x) { return x + 1; }";
    let b = "int g(int y) { return y + 1; }";
    let tree_a = parse(a, Grammar::C);
    let tree_b = parse(b, Grammar::C);
    let fp_a = function_fingerprints(&tree_a, 0, 0);
    let fp_b = function_fingerprints(&tree_b, 0, 0);
    assert_eq!(fp_a.len(), 1);
    assert_eq!(fp_b.len(), 1);
    // Renamed function/parameter, but structurally identical body.
    assert_eq!(fp_a[0].hash, fp_b[0].hash);
    assert_eq!(fp_a[0].name, Some("f".to_string()));
    assert_eq!(fp_b[0].name, Some("g".to_string()));
}

#[test]
fn structurally_different_functions_hash_differently() {
    let a = "int f(int x) { return x + 1; }";
    let b = "int f(int x) { if (x) { return x; } return 0; }";
    let tree_a = parse(a, Grammar::C);
    let tree_b = parse(b, Grammar::C);
    let fp_a = function_fingerprints(&tree_a, 0, 0);
    let fp_b = function_fingerprints(&tree_b, 0, 0);
    assert_ne!(fp_a[0].hash, fp_b[0].hash);
}

#[test]
fn min_nodes_filters_out_trivial_subtrees() {
    let source = "int f(void) { return 1; }";
    let tree = parse(source, Grammar::C);
    let all = function_fingerprints(&tree, 0, 0);
    assert_eq!(all.len(), 1);
    let filtered = function_fingerprints(&tree, 0, 1_000);
    assert!(filtered.is_empty());
}

#[test]
fn hash_is_stable_across_separate_calls() {
    // Fingerprints are meant to be persisted and compared across process
    // runs, so the hash must not vary run-to-run (ruling out a
    // RandomState-seeded hasher).
    let source = "int f(int x) { return x + 1; }";
    let tree1 = parse(source, Grammar::C);
    let tree2 = parse(source, Grammar::C);
    let h1 = function_fingerprints(&tree1, 0, 0)[0].hash;
    let h2 = function_fingerprints(&tree2, 0, 0)[0].hash;
    assert_eq!(h1, h2);
}

#[test]
fn nested_functions_are_fingerprinted_independently_of_their_enclosing_fn() {
    let source = "fn f() { fn g() { 1 + 1; } g(); }";
    let tree = parse(source, Grammar::Rust);
    let fps = function_fingerprints(&tree, 0, 0);
    // The outer `fn f` and the inner `fn g` both count — is_function_kind
    // doesn't special-case closures (`|| {}` is `closure_expression`,
    // not one of its matched kinds), only named function items.
    assert_eq!(fps.len(), 2);
}

#[test]
fn structural_hash_matches_function_fingerprints_hash() {
    let source = "int f(int x) { return x + 1; }";
    let tree = parse(source, Grammar::C);
    let fn_node = find_descendants(&tree, 0, |n: usize| is_function_kind(tree.node(n).kind.as_str()))
        .into_iter()
        .next()
        .unwrap();
    let direct = structural_hash(&tree, fn_node);
    let via_fingerprints = function_fingerprints(&tree, 0, 0)[0].hash;
    assert_eq!(direct, via_fingerprints);
}

#[test]
fn same_skeleton_different_return_type_hashes_differently() {
    // A "new accumulator,
    // delegate, return" skeleton that's structurally the same AST shape
    // whether it collects names or collects violations — only the
    // declared return type's *text* distinguishes them, since
    // `type_identifier` is the same node kind regardless of which name
    // it holds.
    let names = "fn collect_names(&self, node: &Node) -> Vec<String> { \
        let mut names = Vec::new(); self.collect_names_recursive(node, &mut names); names }";
    let violations = "fn check(&self, node: &Node) -> Vec<RuleViolation> { \
        let mut violations = Vec::new(); self.check_x(node, &mut violations); violations }";
    let tree_a = parse(names, Grammar::Rust);
    let tree_b = parse(violations, Grammar::Rust);
    let fp_a = function_fingerprints(&tree_a, 0, 0);
    let fp_b = function_fingerprints(&tree_b, 0, 0);
    assert_ne!(fp_a[0].hash, fp_b[0].hash);
}

#[test]
fn same_skeleton_same_return_type_still_hashes_identically() {
    // Renamed identifiers/params still match when the declared return
    // type text is the same — the fold must not break Type-2 clone
    // detection for the common case.
    let a = "fn collect_names(&self, node: &Node) -> Vec<String> { \
        let mut out = Vec::new(); self.walk(node, &mut out); out }";
    let b = "fn gather_ids(&self, root: &Node) -> Vec<String> { \
        let mut acc = Vec::new(); self.walk(root, &mut acc); acc }";
    let tree_a = parse(a, Grammar::Rust);
    let tree_b = parse(b, Grammar::Rust);
    let fp_a = function_fingerprints(&tree_a, 0, 0);
    let fp_b = function_fingerprints(&tree_b, 0, 0);
    assert_eq!(fp_a[0].hash, fp_b[0].hash);
}

#[test]
fn function_with_no_type_annotation_still_hashes() {
    // Sanity check that the best-effort field lookup doesn't panic or
    // change behavior for grammars/nodes with no matching field —
    // `duplicate_groups_finds_clones_across_files` below already
    // exercises the same-return-type case; this exercises a node kind
    // (`if_statement`) with none of the three candidate fields at all.
    let source = "int f(int x) { if (x) { return x; } return 0; }";
    let tree = parse(source, Grammar::C);
    let if_node = find_descendants(&tree, 0, |n: usize| tree.node(n).kind == "if_statement")
        .into_iter()
        .next()
        .unwrap();
    let _ = structural_hash(&tree, if_node);
}

#[test]
fn duplicate_groups_finds_clones_across_files() {
    let a_src = "int f(int x) { return x + 1; }";
    let b_src = "int g(int y) { return y + 1; }";
    let c_src = "int h(int z) { if (z) { return z; } return 0; }";
    let a_tree = parse(a_src, Grammar::C);
    let b_tree = parse(b_src, Grammar::C);
    let c_tree = parse(c_src, Grammar::C);

    let mut all = Vec::new();
    for (source_id, tree) in [
        ("a.c", &a_tree),
        ("b.c", &b_tree),
        ("c.c", &c_tree),
    ] {
        for fingerprint in function_fingerprints(&tree, 0, 0) {
            all.push(CorpusFingerprint {
                source: source_id,
                fingerprint,
            });
        }
    }

    let groups = duplicate_groups(&all);
    // a.c and b.c are structural clones; c.c's differently-shaped body
    // has no match, so it forms no group at all.
    assert_eq!(groups.len(), 1);
    assert_eq!(groups[0].len(), 2);
    let sources: Vec<&str> = groups[0].iter().map(|m| m.source).collect();
    assert_eq!(sources, vec!["a.c", "b.c"]);
}

#[test]
fn duplicate_groups_excludes_unique_fingerprints() {
    let source = "int f(int x) { return x + 1; }";
    let tree = parse(source, Grammar::C);
    let all: Vec<CorpusFingerprint<&str>> = function_fingerprints(&tree, 0, 0)
        .into_iter()
        .map(|fingerprint| CorpusFingerprint {
            source: "a.c",
            fingerprint,
        })
        .collect();
    assert!(duplicate_groups(&all).is_empty());
}

#[test]
fn block_tier_finds_match_between_non_duplicate_functions() {
    // Two *whole functions* that are structurally unrelated (different
    // statements before/after, different return type) share one
    // identical `for` loop. Only Block-tier fingerprinting surfaces that
    // match — Function-tier fingerprinting of these two functions must
    // NOT match, since the point is that the match is only visible at
    // sub-function granularity.
    let a_src = "int f(int *arr, int n) { \
        int total = 0; \
        for (int i = 0; i < n; i++) { total = total + arr[i]; } \
        return total; }";
    let b_src = "void g(int *arr, int n) { \
        printf(\"start\"); \
        for (int i = 0; i < n; i++) { total = total + arr[i]; } \
        printf(\"end\"); }";
    let tree_a = parse(a_src, Grammar::C);
    let tree_b = parse(b_src, Grammar::C);

    let fn_a = function_fingerprints(&tree_a, 0, 0);
    let fn_b = function_fingerprints(&tree_b, 0, 0);
    assert_ne!(
        fn_a[0].hash, fn_b[0].hash,
        "f and g must not be function-tier duplicates of each other"
    );

    let block_a = block_fingerprints(&tree_a, 0, 0);
    let block_b = block_fingerprints(&tree_b, 0, 0);
    let for_a = block_a
        .iter()
        .find(|fp| fp.kind == "for_statement")
        .expect("f's for-loop should be a Block-tier fingerprint");
    let for_b = block_b
        .iter()
        .find(|fp| fp.kind == "for_statement")
        .expect("g's for-loop should be a Block-tier fingerprint");
    assert_eq!(
        for_a.hash, for_b.hash,
        "the two functions' identical for-loop bodies should match at Block tier"
    );
    assert_eq!(for_a.tier, FingerprintTier::Block);
    assert!(for_a.name.is_none(), "blocks are never named");
}

#[test]
fn block_fingerprints_min_nodes_filters_out_trivial_subtrees() {
    let source = "int f(int x) { if (x) { x = 1; } return x; }";
    let tree = parse(source, Grammar::C);
    let all = block_fingerprints(&tree, 0, 0);
    assert!(!all.is_empty());
    let filtered = block_fingerprints(&tree, 0, 1_000);
    assert!(filtered.is_empty());
}

fn fp_with(tier: FingerprintTier, hash: u64, start_byte: usize) -> Fingerprint {
    Fingerprint {
        name: None,
        tier,
        kind: "for_statement".to_string(),
        hash,
        node_count: 5,
        start_byte,
        end_byte: start_byte + 1,
        start_line: 1,
        end_line: 1,
    }
}

#[test]
fn duplicate_groups_keeps_function_and_block_tiers_separate() {
    // Two Function-tier fingerprints and two Block-tier fingerprints
    // deliberately share the same hash (a contrived collision: a flagged
    // loop shouldn't group with an unrelated whole function just because
    // they hash equal). They must
    // form two separate two-member groups, never one four-member group.
    const COLLIDING_HASH: u64 = 42;
    let all = vec![
        CorpusFingerprint {
            source: "a.c",
            fingerprint: fp_with(FingerprintTier::Function, COLLIDING_HASH, 0),
        },
        CorpusFingerprint {
            source: "b.c",
            fingerprint: fp_with(FingerprintTier::Function, COLLIDING_HASH, 10),
        },
        CorpusFingerprint {
            source: "c.c",
            fingerprint: fp_with(FingerprintTier::Block, COLLIDING_HASH, 0),
        },
        CorpusFingerprint {
            source: "d.c",
            fingerprint: fp_with(FingerprintTier::Block, COLLIDING_HASH, 10),
        },
    ];

    let groups = duplicate_groups(&all);
    assert_eq!(
        groups.len(),
        2,
        "cross-tier hash collision must not merge into one group"
    );
    for group in &groups {
        assert_eq!(group.len(), 2);
        let tier = group[0].fingerprint.tier;
        assert!(
            group.iter().all(|m| m.fingerprint.tier == tier),
            "a group must not mix tiers"
        );
    }
    let tiers: std::collections::HashSet<FingerprintTier> =
        groups.iter().map(|g| g[0].fingerprint.tier).collect();
    assert_eq!(
        tiers.len(),
        2,
        "expected one Function group and one Block group"
    );
}

