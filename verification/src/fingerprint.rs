//! AST subtree fingerprinting — the primitive behind cross-corpus clone
//! detection. A structural hash per function-like (or block-like) subtree
//! folds in each node's kind and child count in pre-order, ignoring
//! identifier and literal text, so a renamed function with different
//! constants still hashes like the function it was copied from; the one text folded in is the
//! hashed node's own declared/return type. [`duplicate_groups`] groups
//! fingerprints from many files by `(hash, tier)`.
//!
//! The hash is `std`'s `DefaultHasher` (fixed keys, not per-process
//! random), so fingerprints of one build can be persisted and compared
//! across runs.

use vstd::prelude::*;
use vstd::std_specs::hash::DefaultHasherAdditionalSpecFns;
use vstd::utf8::encode_utf8;
use std::hash::{DefaultHasher, Hash, Hasher};
use crate::calls::{get_function_name, is_function_kind, spec_function_name, spec_is_function_kind};
use crate::syntax::{SyntaxTree, TreeModel};
use crate::text::{chars_of, str_eq, string_from_chars};

verus! {

/// The bytes `<usize as Hash>::hash` writes for `n` (its native-endian
/// bytes, so the same for one build of the library).
pub uninterp spec fn usize_hash_bytes(n: usize) -> Seq<u8>;

/// `<usize as Hash>::hash` on a `DefaultHasher`: one write of the count's
/// bytes.
#[verifier::external_body]
fn hash_count(h: &mut DefaultHasher, n: usize)
    ensures
        final(h)@ == old(h)@.push(usize_hash_bytes(n)),
{
    n.hash(h)
}

/// Feeds `s` to the hasher as `<str as Hash>::hash` does: its UTF-8 bytes,
/// then the byte `0xff`.
fn hash_text(h: &mut DefaultHasher, s: &str)
    ensures
        final(h)@ == old(h)@.push(encode_utf8(s@)).push(seq![0xffu8]),
{
    h.write(s.as_bytes());
    let end: Vec<u8> = vec![0xffu8];
    assert(end@ =~= seq![0xffu8]);
    h.write(end.as_slice());
}

/// The granularity a [`Fingerprint`] was produced at.
#[derive(Debug, Clone, Copy, PartialEq, Eq, PartialOrd, Ord, Hash, Structural)]
pub enum FingerprintTier {
    /// A whole function-like subtree, from [`function_fingerprints`].
    Function,
    /// A loop/conditional/switch-like subtree inside a function, from
    /// [`block_fingerprints`].
    Block,
}

/// One function-like or block-like subtree's structural fingerprint.
#[derive(Debug, Clone, PartialEq, Eq)]
pub struct Fingerprint {
    /// The function's name, or `None` for an anonymous closure/lambda and
    /// always `None` at [`FingerprintTier::Block`] (blocks aren't named).
    pub name: Option<String>,
    /// Which walk produced this fingerprint.
    pub tier: FingerprintTier,
    /// Node kind the subtree was rooted at.
    pub kind: String,
    /// Structural hash to group on for duplicate detection.
    pub hash: u64,
    /// Number of AST nodes in the subtree.
    pub node_count: usize,
    /// Start byte offset of the subtree in its source file.
    pub start_byte: usize,
    /// End byte offset of the subtree in its source file.
    pub end_byte: usize,
    /// 1-indexed start line of the subtree.
    pub start_line: usize,
    /// 1-indexed end line of the subtree.
    pub end_line: usize,
}

/// The mathematical content of a [`Fingerprint`].
pub struct FingerprintModel {
    pub name: Option<Seq<char>>,
    pub tier: FingerprintTier,
    pub kind: Seq<char>,
    pub hash: u64,
    pub node_count: usize,
    pub start_byte: usize,
    pub end_byte: usize,
    pub start_line: int,
    pub end_line: int,
}

impl View for Fingerprint {
    type V = FingerprintModel;

    open spec fn view(&self) -> FingerprintModel {
        FingerprintModel {
            name: crate::suppressions::opt_str_view(self.name),
            tier: self.tier,
            kind: self.kind@,
            hash: self.hash,
            node_count: self.node_count,
            start_byte: self.start_byte,
            end_byte: self.end_byte,
            start_line: self.start_line as int,
            end_line: self.end_line as int,
        }
    }
}

/// What pre-order hashing of nodes `root..n` feeds: each node's kind and
/// child count.
pub open spec fn subtree_items(t: TreeModel, root: int, n: int) -> Seq<Seq<u8>>
    decreases n - root,
{
    if n <= root {
        Seq::empty()
    } else {
        subtree_items(t, root, n - 1).push(encode_utf8(t.kind(n - 1))).push(seq![0xffu8]).push(
            usize_hash_bytes(t.children(n - 1).len() as usize),
        )
    }
}

/// The text of `node`'s own declared/return type: its first child under
/// `return_type`, `result` or `type` (tried in that order) whose text is
/// readable.
pub open spec fn declared_type_text(t: TreeModel, n: int) -> Option<Seq<char>> {
    match crate::calls::field_text(t, n, "return_type"@) {
        Some(x) => Some(x),
        None => match crate::calls::field_text(t, n, "result"@) {
            Some(x) => Some(x),
            None => crate::calls::field_text(t, n, "type"@),
        },
    }
}

/// Everything hashed for the subtree of `root`.
pub open spec fn hash_items(t: TreeModel, root: int) -> Seq<Seq<u8>> {
    let body = subtree_items(t, root, t.end(root));
    match declared_type_text(t, root) {
        Some(x) => body.push(encode_utf8(x)).push(seq![0xffu8]),
        None => body,
    }
}

/// The structural hash of `root`'s subtree.
pub open spec fn spec_structural_hash(t: TreeModel, root: int) -> u64 {
    DefaultHasher::spec_finish(hash_items(t, root))
}

/// Two subtrees of the same size whose nodes agree, offset by offset, in
/// kind and child count, and whose roots declare the same type text, hash
/// alike: identifier and literal text never enter the hash, so renamed
/// identifiers and changed constants leave it unchanged.
pub proof fn renaming_preserves_structural_hash(t1: TreeModel, r1: int, t2: TreeModel, r2: int)
    requires
        t1.wf(),
        t1.valid(r1),
        t1.end(r1) - r1 == t2.end(r2) - r2,
        forall|k: int|
            0 <= k < t1.end(r1) - r1 ==> #[trigger] t1.kind(r1 + k) == t2.kind(r2 + k) && t1.children(r1 + k).len()
                == t2.children(r2 + k).len(),
        declared_type_text(t1, r1) == declared_type_text(t2, r2),
    ensures
        spec_structural_hash(t1, r1) == spec_structural_hash(t2, r2),
{
    assert(t1.node_wf(r1));
    lemma_same_items(t1, r1, t2, r2, t1.end(r1) - r1);
}

proof fn lemma_same_items(t1: TreeModel, r1: int, t2: TreeModel, r2: int, j: int)
    requires
        0 <= j <= t1.end(r1) - r1,
        forall|k: int|
            0 <= k < t1.end(r1) - r1 ==> #[trigger] t1.kind(r1 + k) == t2.kind(r2 + k) && t1.children(r1 + k).len()
                == t2.children(r2 + k).len(),
    ensures
        subtree_items(t1, r1, r1 + j) == subtree_items(t2, r2, r2 + j),
    decreases j,
{
    if j > 0 {
        lemma_same_items(t1, r1, t2, r2, j - 1);
        assert(t1.kind(r1 + (j - 1)) == t2.kind(r2 + (j - 1)));
        assert(r1 + j - 1 == r1 + (j - 1));
        assert(r2 + j - 1 == r2 + (j - 1));
    }
}

/// Folds each node's kind and child count of `root`'s subtree, in
/// pre-order, then `root`'s declared type text, into one hash; returns it
/// with the subtree's node count.
fn hash_and_count(tree: &SyntaxTree, root: usize) -> (r: (u64, usize))
    requires
        root < tree@.nodes.len(),
    ensures
        r.0 == spec_structural_hash(tree@, root as int),
        r.1 == tree@.end(root as int) - root,
{
    let end = tree.end(root);
    let mut hasher = DefaultHasher::new();
    let mut i = root;
    while i < end
        invariant
            root <= i <= end,
            end == tree@.end(root as int),
            end <= tree@.nodes.len(),
            hasher@ == subtree_items(tree@, root as int, i as int),
        decreases end - i,
    {
        hash_text(&mut hasher, tree.node(i).kind.as_str());
        hash_count(&mut hasher, tree.node(i).children.len());
        i = i + 1;
    }
    let tt = match crate::calls::field_text_exec(tree, root, "return_type") {
        Some(x) => Some(x),
        None => match crate::calls::field_text_exec(tree, root, "result") {
            Some(x) => Some(x),
            None => crate::calls::field_text_exec(tree, root, "type"),
        },
    };
    match tt {
        Some(x) => {
            hash_text(&mut hasher, x.as_str());
        },
        None => {},
    }
    (hasher.finish(), end - root)
}

/// Structural hash of `node`'s subtree — the same primitive
/// [`function_fingerprints`] uses, for callers that want to fingerprint an
/// arbitrary subtree.
pub fn structural_hash(tree: &SyntaxTree, node: usize) -> (r: u64)
    requires
        node < tree@.nodes.len(),
    ensures
        r == spec_structural_hash(tree@, node as int),
{
    hash_and_count(tree, node).0
}

/// Returns `true` if `kind` is a loop/conditional/switch-like node this
/// module treats as a `Block`-tier fingerprint root, across all supported
/// languages (node kind strings don't collide across grammars). Plain
/// scoping blocks are excluded.
pub open spec fn spec_is_block_kind(k: Seq<char>) -> bool {
    block_kinds().contains(k)
}

/// The `Block`-tier root kinds.
pub open spec fn block_kinds() -> Seq<Seq<char>> {
    seq![
        "if_statement"@,
        "while_statement"@,
        "for_statement"@,
        "for_range_loop"@,
        "do_statement"@,
        "switch_statement"@,
        "case_statement"@,
        "if_expression"@,
        "while_expression"@,
        "for_expression"@,
        "loop_expression"@,
        "match_expression"@,
        "match_arm"@,
        "match_statement"@,
        "case_clause"@,
        "for_in_statement"@,
        "switch_case"@,
        "switch_default"@,
        "expression_switch_statement"@,
        "type_switch_statement"@,
        "select_statement"@,
        "expression_case"@,
        "type_case"@,
        "communication_case"@,
        "enhanced_for_statement"@,
        "switch_expression"@,
        "switch_block_statement_group"@,
        "switch_rule"@,
        "foreach_statement"@,
        "switch_expression_arm"@,
        "switch_section"@,
        "do_while_statement"@,
        "when_expression"@,
        "when_entry"@,
        "repeat_while_statement"@,
        "switch_entry"@,
        "match_conditional_expression"@,
        "do_loop"@,
        "select_case_statement"@,
        "forall_statement"@,
        "do_while_expression"@,
        "type_case_clause"@,
        "repeat_statement"@,
        "loop_statement"@,
        "case_statement_alternative"@,
    ]
}

/// Returns `true` if `kind` is a loop/conditional/switch-like node this
/// module treats as a `Block`-tier fingerprint root.
pub fn is_block_kind(kind: &str) -> (r: bool)
    ensures
        r == spec_is_block_kind(kind@),
{
    let kinds: [&'static str; 45] = [
        "if_statement",
        "while_statement",
        "for_statement",
        "for_range_loop",
        "do_statement",
        "switch_statement",
        "case_statement",
        "if_expression",
        "while_expression",
        "for_expression",
        "loop_expression",
        "match_expression",
        "match_arm",
        "match_statement",
        "case_clause",
        "for_in_statement",
        "switch_case",
        "switch_default",
        "expression_switch_statement",
        "type_switch_statement",
        "select_statement",
        "expression_case",
        "type_case",
        "communication_case",
        "enhanced_for_statement",
        "switch_expression",
        "switch_block_statement_group",
        "switch_rule",
        "foreach_statement",
        "switch_expression_arm",
        "switch_section",
        "do_while_statement",
        "when_expression",
        "when_entry",
        "repeat_while_statement",
        "switch_entry",
        "match_conditional_expression",
        "do_loop",
        "select_case_statement",
        "forall_statement",
        "do_while_expression",
        "type_case_clause",
        "repeat_statement",
        "loop_statement",
        "case_statement_alternative",
    ];
    assert(crate::registry::str_views(kinds@) =~= block_kinds());
    crate::registry::strs_contain(&kinds, kind)
}

/// The fingerprint of node `n` at `tier` (its name when `named`).
pub open spec fn fingerprint_of(t: TreeModel, n: int, tier: FingerprintTier, named: bool) -> FingerprintModel {
    FingerprintModel {
        name: if named {
            spec_function_name(t, n)
        } else {
            None
        },
        tier,
        kind: t.kind(n),
        hash: spec_structural_hash(t, n),
        node_count: (t.end(n) - n) as usize,
        start_byte: t.nodes[n].start_byte,
        end_byte: t.nodes[n].end_byte,
        start_line: t.nodes[n].start_row + 1,
        end_line: t.nodes[n].end_row + 1,
    }
}

/// The fingerprints of the nodes among `root..n` that are roots of the
/// given tier (function-like for `Function`, block-like for `Block`) with
/// at least `min_nodes` nodes, in pre-order.
pub open spec fn fingerprints_upto(
    t: TreeModel,
    root: int,
    n: int,
    min_nodes: usize,
    tier: FingerprintTier,
) -> Seq<FingerprintModel>
    decreases n - root,
{
    if n <= root {
        Seq::empty()
    } else {
        let i = n - 1;
        let is_root = match tier {
            FingerprintTier::Function => spec_is_function_kind(t.kind(i)),
            FingerprintTier::Block => spec_is_block_kind(t.kind(i)),
        };
        let rest = fingerprints_upto(t, root, n - 1, min_nodes, tier);
        if is_root && t.end(i) - i >= min_nodes {
            rest.push(fingerprint_of(t, i, tier, tier is Function))
        } else {
            rest
        }
    }
}

pub open spec fn fingerprints_view(v: Seq<Fingerprint>) -> Seq<FingerprintModel> {
    v.map_values(|f: Fingerprint| f@)
}

fn fingerprints(tree: &SyntaxTree, root: usize, min_nodes: usize, tier: FingerprintTier) -> (r: Vec<Fingerprint>)
    requires
        root < tree@.nodes.len(),
    ensures
        fingerprints_view(r@) == fingerprints_upto(tree@, root as int, tree@.end(root as int), min_nodes, tier),
{
    let end = tree.end(root);
    let mut out: Vec<Fingerprint> = Vec::new();
    let mut i = root;
    assert(fingerprints_view(out@) =~= Seq::<FingerprintModel>::empty());
    while i < end
        invariant
            root <= i <= end,
            end == tree@.end(root as int),
            end <= tree@.nodes.len(),
            fingerprints_view(out@) == fingerprints_upto(tree@, root as int, i as int, min_nodes, tier),
        decreases end - i,
    {
        let is_root = match tier {
            FingerprintTier::Function => is_function_kind(tree.node(i).kind.as_str()),
            FingerprintTier::Block => is_block_kind(tree.node(i).kind.as_str()),
        };
        if is_root {
            let (hash, node_count) = hash_and_count(tree, i);
            if node_count >= min_nodes {
                tree.assert_wf();
                proof {
                    assert(tree@.node_wf(i as int));
                }
                let name = match tier {
                    FingerprintTier::Function => get_function_name(tree, i),
                    FingerprintTier::Block => None,
                };
                let fp = Fingerprint {
                    name,
                    tier,
                    kind: tree.node(i).kind.clone(),
                    hash,
                    node_count,
                    start_byte: tree.node(i).start_byte,
                    end_byte: tree.node(i).end_byte,
                    start_line: tree.node(i).start_row + 1,
                    end_line: tree.node(i).end_row + 1,
                };
                let ghost before = fingerprints_view(out@);
                out.push(fp);
                assert(fingerprints_view(out@) =~= before.push(fp@));
            }
        }
        i = i + 1;
    }
    out
}

/// Fingerprints every function-like subtree in `root`'s subtree (per
/// [`is_function_kind`]), skipping any with fewer than `min_nodes` nodes.
/// Nested functions are fingerprinted both within their enclosing function
/// and on their own.
pub fn function_fingerprints(tree: &SyntaxTree, root: usize, min_nodes: usize) -> (r: Vec<Fingerprint>)
    requires
        root < tree@.nodes.len(),
    ensures
        fingerprints_view(r@) == fingerprints_upto(
            tree@,
            root as int,
            tree@.end(root as int),
            min_nodes,
            FingerprintTier::Function,
        ),
{
    fingerprints(tree, root, min_nodes, FingerprintTier::Function)
}

/// Fingerprints every loop/conditional/switch-like subtree in `root`'s
/// subtree (per [`is_block_kind`]), skipping any with fewer than
/// `min_nodes` nodes. Every result is unnamed and of tier `Block`.
pub fn block_fingerprints(tree: &SyntaxTree, root: usize, min_nodes: usize) -> (r: Vec<Fingerprint>)
    requires
        root < tree@.nodes.len(),
    ensures
        fingerprints_view(r@) == fingerprints_upto(
            tree@,
            root as int,
            tree@.end(root as int),
            min_nodes,
            FingerprintTier::Block,
        ),
{
    fingerprints(tree, root, min_nodes, FingerprintTier::Block)
}

/// A caller's identifier for a fingerprint's source file (a path, a
/// database row name, ...), ordered as text.
pub trait SourceId {
    /// The identifier's text.
    spec fn id_view(&self) -> Seq<char>;

    /// The identifier's characters.
    fn id_chars(&self) -> (r: Vec<char>)
        ensures
            r@ == self.id_view(),
    ;
}

impl<'a> SourceId for &'a str {
    open spec fn id_view(&self) -> Seq<char> {
        (**self)@
    }

    fn id_chars(&self) -> (r: Vec<char>) {
        chars_of(*self)
    }
}

impl SourceId for String {
    open spec fn id_view(&self) -> Seq<char> {
        self@
    }

    fn id_chars(&self) -> (r: Vec<char>) {
        chars_of(self.as_str())
    }
}

/// A [`Fingerprint`] tagged with whatever the caller uses to identify its
/// source file.
#[derive(Debug, Clone, PartialEq, Eq)]
pub struct CorpusFingerprint<S> {
    /// The caller's identifier for this fingerprint's source file.
    pub source: S,
    /// The fingerprint itself.
    pub fingerprint: Fingerprint,
}

/// Lexicographic order on character sequences (by code point, which is
/// also the order of their UTF-8 bytes).
pub open spec fn text_lt(a: Seq<char>, b: Seq<char>) -> bool
    decreases a.len(),
{
    if a.len() == 0 {
        b.len() > 0
    } else if b.len() == 0 {
        false
    } else if a[0] != b[0] {
        a[0] < b[0]
    } else {
        text_lt(a.drop_first(), b.drop_first())
    }
}

pub proof fn lemma_text_lt_irreflexive(a: Seq<char>)
    ensures
        !text_lt(a, a),
    decreases a.len(),
{
    if a.len() > 0 {
        lemma_text_lt_irreflexive(a.drop_first());
    }
}

pub proof fn lemma_text_lt_total(a: Seq<char>, b: Seq<char>)
    ensures
        a != b ==> text_lt(a, b) || text_lt(b, a),
        text_lt(a, b) ==> !text_lt(b, a),
    decreases a.len(),
{
    if a.len() > 0 && b.len() > 0 {
        lemma_text_lt_total(a.drop_first(), b.drop_first());
        if a[0] == b[0] && a.drop_first() == b.drop_first() {
            assert forall|i: int| 0 <= i < a.len() implies a[i] == b[i] by {
                if i > 0 {
                    assert(a[i] == a.drop_first()[i - 1]);
                    assert(b[i] == b.drop_first()[i - 1]);
                }
            }
            assert(a =~= b);
        }
    } else if a.len() == 0 && b.len() == 0 {
        assert(a =~= b);
    }
}

pub proof fn lemma_text_lt_transitive(a: Seq<char>, b: Seq<char>, c: Seq<char>)
    requires
        text_lt(a, b),
        text_lt(b, c),
    ensures
        text_lt(a, c),
    decreases a.len(),
{
    if a.len() > 0 && b.len() > 0 && c.len() > 0 && a[0] == b[0] && b[0] == c[0] {
        lemma_text_lt_transitive(a.drop_first(), b.drop_first(), c.drop_first());
    }
}

fn text_lt_exec(a: &[char], b: &[char]) -> (r: bool)
    ensures
        r == text_lt(a@, b@),
{
    let mut k: usize = 0;
    assert(a@.skip(0) =~= a@);
    assert(b@.skip(0) =~= b@);
    while k < a.len() && k < b.len() && a[k] == b[k]
        invariant
            k <= a@.len(),
            k <= b@.len(),
            text_lt(a@, b@) == text_lt(a@.skip(k as int), b@.skip(k as int)),
        decreases a.len() - k,
    {
        proof {
            assert(a@.skip(k as int).drop_first() =~= a@.skip(k + 1));
            assert(b@.skip(k as int).drop_first() =~= b@.skip(k + 1));
        }
        k = k + 1;
    }
    if k == a.len() {
        k < b.len()
    } else if k == b.len() {
        false
    } else {
        a[k] < b[k]
    }
}

pub open spec fn tier_rank(t: FingerprintTier) -> int {
    match t {
        FingerprintTier::Function => 0,
        FingerprintTier::Block => 1,
    }
}

/// The grouping key of fingerprint `f`.
pub open spec fn group_key(f: Fingerprint) -> (u64, FingerprintTier) {
    (f.hash, f.tier)
}

/// Keys ordered by hash, then tier (`Function` first).
pub open spec fn key_lt(a: (u64, FingerprintTier), b: (u64, FingerprintTier)) -> bool {
    a.0 < b.0 || (a.0 == b.0 && tier_rank(a.1) < tier_rank(b.1))
}

/// Members ordered by source identifier, then start byte, then position in
/// the input.
pub open spec fn member_lt<S: SourceId>(fps: Seq<CorpusFingerprint<S>>, i: int, j: int) -> bool {
    let a = fps[i].source.id_view();
    let b = fps[j].source.id_view();
    ||| text_lt(a, b)
    ||| (a == b && fps[i].fingerprint.start_byte < fps[j].fingerprint.start_byte)
    ||| (a == b && fps[i].fingerprint.start_byte == fps[j].fingerprint.start_byte && i < j)
}

/// Some other fingerprint shares `i`'s key.
pub open spec fn is_duplicated<S>(fps: Seq<CorpusFingerprint<S>>, i: int) -> bool {
    exists|j: int| 0 <= j < fps.len() && j != i && group_key(#[trigger] fps[j].fingerprint) == group_key(fps[i].fingerprint)
}

/// `groups` (of indices into `fps`) are the duplicate groups of `fps`:
/// one per key shared by two or more fingerprints, ordered by key; each
/// holds every fingerprint with its key, ordered by source then start byte
/// (then input position).
pub open spec fn are_duplicate_groups<S: SourceId>(fps: Seq<CorpusFingerprint<S>>, groups: Seq<Seq<usize>>) -> bool {
    &&& forall|g: int| 0 <= g < groups.len() ==> (#[trigger] groups[g]).len() >= 2
    &&& forall|g: int, k: int|
        0 <= g < groups.len() && 0 <= k < groups[g].len() ==> {
            &&& #[trigger] groups[g][k] < fps.len()
            &&& group_key(fps[groups[g][k] as int].fingerprint) == group_key(fps[groups[g][0] as int].fingerprint)
        }
    &&& forall|g: int, a: int, b: int|
        0 <= g < groups.len() && 0 <= a < b < groups[g].len() ==> member_lt(fps, #[trigger] groups[g][a] as int, #[trigger] groups[g][b] as int)
    &&& forall|g: int, x: int|
        0 <= g < groups.len() && 0 <= x < fps.len() && group_key(#[trigger] fps[x].fingerprint) == group_key(
            fps[groups[g][0] as int].fingerprint,
        ) ==> #[trigger] groups[g].contains(x as usize)
    &&& forall|g1: int, g2: int|
        0 <= g1 < g2 < groups.len() ==> key_lt(
            group_key(fps[(#[trigger] groups[g1])[0] as int].fingerprint),
            group_key(fps[(#[trigger] groups[g2])[0] as int].fingerprint),
        )
    &&& forall|i: int|
        0 <= i < fps.len() && #[trigger] is_duplicated(fps, i) ==> exists|g: int|
            0 <= g < groups.len() && group_key(fps[(#[trigger] groups[g])[0] as int].fingerprint) == group_key(
                fps[i].fingerprint,
            )
}

proof fn lemma_member_order<S: SourceId>(fps: Seq<CorpusFingerprint<S>>, i: int, j: int, k: int)
    ensures
        !member_lt(fps, i, i),
        i != j ==> member_lt(fps, i, j) || member_lt(fps, j, i),
        member_lt(fps, i, j) ==> !member_lt(fps, j, i),
        member_lt(fps, i, j) && member_lt(fps, j, k) ==> member_lt(fps, i, k),
{
    let a = fps[i].source.id_view();
    let b = fps[j].source.id_view();
    let c = fps[k].source.id_view();
    lemma_text_lt_irreflexive(a);
    lemma_text_lt_total(a, b);
    lemma_text_lt_total(b, c);
    lemma_text_lt_total(a, c);
    if text_lt(a, b) && text_lt(b, c) {
        lemma_text_lt_transitive(a, b, c);
    }
}

fn member_lt_exec<S: SourceId>(fps: &[CorpusFingerprint<S>], ids: &Vec<Vec<char>>, i: usize, j: usize) -> (r: bool)
    requires
        i < fps@.len(),
        j < fps@.len(),
        ids@.len() == fps@.len(),
        forall|x: int| 0 <= x < fps@.len() ==> #[trigger] ids@[x]@ == fps@[x].source.id_view(),
    ensures
        r == member_lt(fps@, i as int, j as int),
{
    let a = ids[i].as_slice();
    let b = ids[j].as_slice();
    assert(a@ == fps@[i as int].source.id_view());
    assert(b@ == fps@[j as int].source.id_view());
    if text_lt_exec(a, b) {
        return true;
    }
    let same = crate::text::chars_eq(a, b);
    let sa = fps[i].fingerprint.start_byte;
    let sb = fps[j].fingerprint.start_byte;
    same && (sa < sb || (sa == sb && i < j))
}

fn key_of<S>(fps: &[CorpusFingerprint<S>], i: usize) -> (r: (u64, FingerprintTier))
    requires
        i < fps@.len(),
    ensures
        r == group_key(fps@[i as int].fingerprint),
{
    (fps[i].fingerprint.hash, fps[i].fingerprint.tier)
}

fn key_lt_exec(a: (u64, FingerprintTier), b: (u64, FingerprintTier)) -> (r: bool)
    ensures
        r == key_lt(a, b),
{
    let ra: u8 = match a.1 {
        FingerprintTier::Function => 0,
        FingerprintTier::Block => 1,
    };
    let rb: u8 = match b.1 {
        FingerprintTier::Function => 0,
        FingerprintTier::Block => 1,
    };
    a.0 < b.0 || (a.0 == b.0 && ra < rb)
}

fn key_eq(a: (u64, FingerprintTier), b: (u64, FingerprintTier)) -> (r: bool)
    ensures
        r == (a == b),
{
    a.0 == b.0 && a.1 == b.1
}

/// For each fingerprint, whether another one shares its key.
fn dup_flags<S>(fps: &[CorpusFingerprint<S>]) -> (r: Vec<bool>)
    ensures
        r@.len() == fps@.len(),
        forall|i: int| 0 <= i < fps@.len() ==> #[trigger] r@[i] == is_duplicated(fps@, i),
{
    let n = fps.len();
    let mut out: Vec<bool> = Vec::new();
    let mut i: usize = 0;
    while i < n
        invariant
            i <= n,
            n == fps@.len(),
            out@.len() == i,
            forall|x: int| 0 <= x < i ==> #[trigger] out@[x] == is_duplicated(fps@, x),
        decreases n - i,
    {
        let ki = key_of(fps, i);
        let mut found = false;
        let mut j: usize = 0;
        while j < n
            invariant
                j <= n,
                n == fps@.len(),
                i < n,
                ki == group_key(fps@[i as int].fingerprint),
                found ==> is_duplicated(fps@, i as int),
                !found ==> forall|y: int| 0 <= y < j && y != i ==> group_key(#[trigger] fps@[y].fingerprint) != ki,
            decreases n - j,
        {
            if j != i && key_eq(key_of(fps, j), ki) {
                found = true;
            }
            j = j + 1;
        }
        out.push(found);
        i = i + 1;
    }
    out
}

/// A key as a number, ordered like `key_lt`.
pub open spec fn key_num(k: (u64, FingerprintTier)) -> int {
    2 * (k.0 as int) + tier_rank(k.1)
}

/// The least key above `last` among duplicated fingerprints.
fn next_key<S>(fps: &[CorpusFingerprint<S>], dup: &Vec<bool>, last: Option<(u64, FingerprintTier)>) -> (r: Option<(u64, FingerprintTier)>)
    requires
        dup@.len() == fps@.len(),
        forall|i: int| 0 <= i < fps@.len() ==> #[trigger] dup@[i] == is_duplicated(fps@, i),
    ensures
        match r {
            Some(k) => {
                &&& exists|i: int| 0 <= i < fps@.len() && is_duplicated(fps@, i) && group_key(#[trigger] fps@[i].fingerprint) == k
                &&& (last matches Some(l) ==> key_lt(l, k))
                &&& forall|j: int|
                    0 <= j < fps@.len() && is_duplicated(fps@, j) && (last matches Some(l) ==> key_lt(l, group_key(#[trigger] fps@[j].fingerprint)))
                        ==> !key_lt(group_key(fps@[j].fingerprint), k)
            },
            None => forall|j: int|
                0 <= j < fps@.len() && #[trigger] is_duplicated(fps@, j) ==> (last matches Some(l) && !key_lt(l, group_key(fps@[j].fingerprint))),
        },
{
    let n = fps.len();
    let mut best: Option<(u64, FingerprintTier)> = None;
    let mut j: usize = 0;
    while j < n
        invariant
            j <= n,
            n == fps@.len(),
            dup@.len() == n,
            forall|i: int| 0 <= i < fps@.len() ==> #[trigger] dup@[i] == is_duplicated(fps@, i),
            match best {
                Some(k) => {
                    &&& exists|i: int| 0 <= i < fps@.len() && is_duplicated(fps@, i) && group_key(#[trigger] fps@[i].fingerprint) == k
                    &&& (last matches Some(l) ==> key_lt(l, k))
                    &&& forall|y: int|
                        0 <= y < j && is_duplicated(fps@, y) && (last matches Some(l) ==> key_lt(l, group_key(#[trigger] fps@[y].fingerprint)))
                            ==> !key_lt(group_key(fps@[y].fingerprint), k)
                },
                None => forall|y: int|
                    0 <= y < j && #[trigger] is_duplicated(fps@, y) ==> (last matches Some(l) && !key_lt(l, group_key(fps@[y].fingerprint))),
            },
        decreases n - j,
    {
        if dup[j] {
            let kj = key_of(fps, j);
            let above = match last {
                Some(l) => key_lt_exec(l, kj),
                None => true,
            };
            if above {
                let better = match best {
                    Some(b) => key_lt_exec(kj, b),
                    None => true,
                };
                if better {
                    best = Some(kj);
                }
            }
        }
        j = j + 1;
    }
    best
}

/// Every fingerprint with key `k`, ordered by `member_lt`.
fn group_for<S: SourceId>(fps: &[CorpusFingerprint<S>], ids: &Vec<Vec<char>>, k: (u64, FingerprintTier)) -> (r: Vec<usize>)
    requires
        ids@.len() == fps@.len(),
        forall|x: int| 0 <= x < fps@.len() ==> #[trigger] ids@[x]@ == fps@[x].source.id_view(),
    ensures
        forall|a: int| 0 <= a < r@.len() ==> #[trigger] r@[a] < fps@.len() && group_key(fps@[r@[a] as int].fingerprint) == k,
        forall|a: int, b: int| 0 <= a < b < r@.len() ==> member_lt(fps@, #[trigger] r@[a] as int, #[trigger] r@[b] as int),
        forall|x: int| 0 <= x < fps@.len() && group_key(#[trigger] fps@[x].fingerprint) == k ==> r@.contains(x as usize),
{
    let n = fps.len();
    let mut taken: Vec<bool> = Vec::new();
    while taken.len() < n
        invariant
            taken@.len() <= n,
            forall|x: int| 0 <= x < taken@.len() ==> !#[trigger] taken@[x],
        decreases n - taken.len(),
    {
        taken.push(false);
    }
    let mut group: Vec<usize> = Vec::new();
    loop
        invariant
            n == fps@.len(),
            ids@.len() == n,
            forall|x: int| 0 <= x < fps@.len() ==> #[trigger] ids@[x]@ == fps@[x].source.id_view(),
            taken@.len() == n,
            forall|a: int| 0 <= a < group@.len() ==> #[trigger] group@[a] < n && group_key(fps@[group@[a] as int].fingerprint) == k,
            forall|a: int, b: int| 0 <= a < b < group@.len() ==> member_lt(fps@, #[trigger] group@[a] as int, #[trigger] group@[b] as int),
            forall|x: int| 0 <= x < n ==> (#[trigger] taken@[x] <==> group@.contains(x as usize)),
            forall|a: int, y: int|
                0 <= a < group@.len() && 0 <= y < n && !taken@[y] && group_key(fps@[y].fingerprint) == k ==> member_lt(
                    fps@,
                    #[trigger] group@[a] as int,
                    y,
                ) && #[trigger] taken@[y] == false,
        ensures
            forall|a: int| 0 <= a < group@.len() ==> #[trigger] group@[a] < fps@.len() && group_key(fps@[group@[a] as int].fingerprint) == k,
            forall|a: int, b: int| 0 <= a < b < group@.len() ==> member_lt(fps@, #[trigger] group@[a] as int, #[trigger] group@[b] as int),
            forall|x: int| 0 <= x < fps@.len() && group_key(#[trigger] fps@[x].fingerprint) == k ==> group@.contains(x as usize),
        decreases crate::fingerprint::count_false(taken@),
    {
        let mut best: Option<usize> = None;
        let mut j: usize = 0;
        while j < n
            invariant
                j <= n,
                n == fps@.len(),
                ids@.len() == n,
                forall|x: int| 0 <= x < fps@.len() ==> #[trigger] ids@[x]@ == fps@[x].source.id_view(),
                taken@.len() == n,
                match best {
                    Some(b) => {
                        &&& b < n
                        &&& !taken@[b as int]
                        &&& group_key(fps@[b as int].fingerprint) == k
                        &&& forall|y: int|
                            0 <= y < j && !#[trigger] taken@[y] && group_key(fps@[y].fingerprint) == k ==> !member_lt(fps@, y, b as int)
                    },
                    None => forall|y: int| 0 <= y < j && !#[trigger] taken@[y] ==> group_key(fps@[y].fingerprint) != k,
                },
            decreases n - j,
        {
            if !taken[j] && key_eq(key_of(fps, j), k) {
                let better = match best {
                    Some(b) => member_lt_exec(fps, ids, j, b),
                    None => true,
                };
                if better {
                    proof {
                        lemma_member_order(fps@, j as int, j as int, j as int);
                        if let Some(b) = best {
                            assert forall|y: int| 0 <= y < j && !#[trigger] taken@[y] && group_key(fps@[y].fingerprint) == k implies !member_lt(fps@, y, j as int) by {
                                lemma_member_order(fps@, y, j as int, b as int);
                            }
                        }
                    }
                    best = Some(j);
                }
            }
            j = j + 1;
        }
        match best {
            None => {
                proof {
                    assert forall|x: int| 0 <= x < fps@.len() && group_key(#[trigger] fps@[x].fingerprint) == k implies group@.contains(x as usize) by {
                        assert(taken@[x]);
                    }
                }
                break ;
            },
            Some(b) => {
                let ghost before = group@;
                let ghost taken0 = taken@;
                proof {
                    assert forall|y: int| 0 <= y < n && !taken0[y] && y != b && group_key(fps@[y].fingerprint) == k implies member_lt(fps@, b as int, y) by {
                        lemma_member_order(fps@, b as int, y, b as int);
                    }
                    lemma_count_false_set(taken0, b as int);
                }
                group.push(b);
                taken.set(b, true);
                proof {
                    assert forall|x: int| 0 <= x < n implies (#[trigger] taken@[x] <==> group@.contains(x as usize)) by {
                        if x == b {
                            assert(group@[before.len() as int] == b);
                        } else {
                            if before.contains(x as usize) {
                                let a = choose|a: int| 0 <= a < before.len() && before[a] == x as usize;
                                assert(group@[a] == x as usize);
                            }
                            if group@.contains(x as usize) {
                                let a = choose|a: int| 0 <= a < group@.len() && group@[a] == x as usize;
                                assert(a < before.len());
                                assert(before[a] == x as usize);
                            }
                        }
                    }
                    assert forall|a: int, c: int| 0 <= a < c < group@.len() implies member_lt(fps@, #[trigger] group@[a] as int, #[trigger] group@[c] as int) by {
                        if c == before.len() {
                            assert(taken0[before[a] as int]);
                        }
                    }
                    assert forall|a: int, y: int|
                        0 <= a < group@.len() && 0 <= y < n && !taken@[y] && group_key(fps@[y].fingerprint) == k implies member_lt(
                            fps@,
                            #[trigger] group@[a] as int,
                            y,
                        ) && #[trigger] taken@[y] == false by {
                        if a < before.len() {
                            assert(group@[a] == before[a]);
                        }
                    }
                }
            },
        }
    }
    group
}

/// The number of `false` entries of `s`.
pub open spec fn count_false(s: Seq<bool>) -> nat
    decreases s.len(),
{
    if s.len() == 0 {
        0
    } else {
        count_false(s.drop_last()) + if s.last() {
            0nat
        } else {
            1nat
        }
    }
}

proof fn lemma_count_false_set(s: Seq<bool>, x: int)
    requires
        0 <= x < s.len(),
        !s[x],
    ensures
        count_false(s.update(x, true)) + 1 == count_false(s),
    decreases s.len(),
{
    if x < s.len() - 1 {
        lemma_count_false_set(s.drop_last(), x);
        assert(s.update(x, true).drop_last() =~= s.drop_last().update(x, true));
    } else {
        assert(s.update(x, true).drop_last() =~= s.drop_last());
    }
}

pub open spec fn groups_view(v: Seq<Vec<usize>>) -> Seq<Seq<usize>> {
    v.map_values(|g: Vec<usize>| g@)
}

/// The duplicate groups of `fingerprints`, as indices into it (see
/// [`duplicate_groups`]).
pub fn duplicate_group_indices<S: SourceId>(fingerprints: &[CorpusFingerprint<S>]) -> (r: Vec<Vec<usize>>)
    ensures
        are_duplicate_groups(fingerprints@, groups_view(r@)),
{
    let fps = fingerprints;
    let n = fps.len();
    let mut ids: Vec<Vec<char>> = Vec::new();
    let mut i: usize = 0;
    while i < n
        invariant
            i <= n,
            n == fps@.len(),
            ids@.len() == i,
            forall|x: int| 0 <= x < i ==> #[trigger] ids@[x]@ == fps@[x].source.id_view(),
        decreases n - i,
    {
        ids.push(fps[i].source.id_chars());
        i = i + 1;
    }
    let dup = dup_flags(fps);
    let mut groups: Vec<Vec<usize>> = Vec::new();
    let mut last: Option<(u64, FingerprintTier)> = None;
    loop
        invariant
            n == fps@.len(),
            ids@.len() == n,
            forall|x: int| 0 <= x < fps@.len() ==> #[trigger] ids@[x]@ == fps@[x].source.id_view(),
            dup@.len() == n,
            forall|x: int| 0 <= x < fps@.len() ==> #[trigger] dup@[x] == is_duplicated(fps@, x),
            last is None <==> groups@.len() == 0,
            last matches Some(l) ==> l == group_key(fps@[groups@.last()@[0] as int].fingerprint),
            groups_ok(fps@, groups_view(groups@)),
            forall|x: int|
                0 <= x < fps@.len() && #[trigger] is_duplicated(fps@, x) && (last matches Some(l) && !key_lt(l, group_key(fps@[x].fingerprint)))
                    ==> exists|g: int|
                    0 <= g < groups@.len() && group_key(fps@[(#[trigger] groups@[g]@)[0] as int].fingerprint) == group_key(
                        fps@[x].fingerprint,
                    ),
        ensures
            are_duplicate_groups(fps@, groups_view(groups@)),
        decreases (match last {
            Some(l) => 2 * (u64::MAX as int) + 2 - key_num(l),
            None => 2 * (u64::MAX as int) + 3,
        }),
    {
        let ghost old_groups = groups@;
        assert(forall|x: int|
            0 <= x < fps@.len() && #[trigger] is_duplicated(fps@, x) && (last matches Some(l) && !key_lt(l, group_key(fps@[x].fingerprint)))
                ==> exists|g: int|
                0 <= g < old_groups.len() && group_key(fps@[(#[trigger] old_groups[g]@)[0] as int].fingerprint) == group_key(
                    fps@[x].fingerprint,
                ));
        let ghost old_last = last;
        let next = next_key(fps, &dup, last);
        match next {
            None => {
                proof {
                    let gv = groups_view(groups@);
                    assert forall|x: int| 0 <= x < fps@.len() && #[trigger] is_duplicated(fps@, x) implies exists|g: int|
                        0 <= g < gv.len() && group_key(fps@[(#[trigger] gv[g])[0] as int].fingerprint) == group_key(
                            fps@[x].fingerprint,
                        ) by {
                        let g = choose|g: int|
                            0 <= g < groups@.len() && group_key(fps@[(#[trigger] groups@[g]@)[0] as int].fingerprint) == group_key(
                                fps@[x].fingerprint,
                            );
                        assert(gv[g] == groups@[g]@);
                    }
                }
                break ;
            },
            Some(k) => {
                let g = group_for(fps, &ids, k);
                let ghost before = groups_view(groups@);
                proof {
                    let w = choose|w: int| 0 <= w < fps@.len() && is_duplicated(fps@, w) && group_key(#[trigger] fps@[w].fingerprint) == k;
                    let w2 = choose|j: int| 0 <= j < fps@.len() && j != w && group_key(#[trigger] fps@[j].fingerprint) == group_key(fps@[w].fingerprint);
                    assert(g@.contains(w as usize));
                    assert(g@.contains(w2 as usize));
                    if g@.len() < 2 {
                        let a = choose|a: int| 0 <= a < g@.len() && g@[a] == w as usize;
                        let b = choose|b: int| 0 <= b < g@.len() && g@[b] == w2 as usize;
                        assert(a == b);
                    }
                    assert(group_key(fps@[g@[0] as int].fingerprint) == k);
                }
                groups.push(g);
                proof {
                    let gv = groups_view(groups@);
                    assert(gv =~= before.push(g@));
                    lemma_groups_push(fps@, before, g@, k, last);
                }
                last = Some(k);
                proof {
                    let gv = groups_view(groups@);
                    assert forall|x: int|
                        0 <= x < fps@.len() && #[trigger] is_duplicated(fps@, x) && !key_lt(k, group_key(fps@[x].fingerprint))
                            implies exists|gi: int|
                            0 <= gi < groups@.len() && group_key(fps@[(#[trigger] groups@[gi]@)[0] as int].fingerprint) == group_key(
                                fps@[x].fingerprint,
                            ) by {
                        let kx = group_key(fps@[x].fingerprint);
                        if kx == k {
                            assert(groups@[groups@.len() - 1]@ == g@);
                        } else {
                            assert(key_lt(kx, k));
                            assert(old_last is Some);
                            let gi = choose|gi: int|
                                0 <= gi < old_groups.len() && group_key(fps@[(#[trigger] old_groups[gi]@)[0] as int].fingerprint) == group_key(
                                    fps@[x].fingerprint,
                                );
                            assert(groups@[gi] == old_groups[gi]);
                        }
                    }
                }
            },
        }
    }
    groups
}

/// The parts of `are_duplicate_groups` that hold of any prefix of the
/// groups.
pub open spec fn groups_ok<S: SourceId>(fps: Seq<CorpusFingerprint<S>>, groups: Seq<Seq<usize>>) -> bool {
    &&& forall|g: int| 0 <= g < groups.len() ==> (#[trigger] groups[g]).len() >= 2
    &&& forall|g: int, k: int|
        0 <= g < groups.len() && 0 <= k < groups[g].len() ==> {
            &&& #[trigger] groups[g][k] < fps.len()
            &&& group_key(fps[groups[g][k] as int].fingerprint) == group_key(fps[groups[g][0] as int].fingerprint)
        }
    &&& forall|g: int, a: int, b: int|
        0 <= g < groups.len() && 0 <= a < b < groups[g].len() ==> member_lt(fps, #[trigger] groups[g][a] as int, #[trigger] groups[g][b] as int)
    &&& forall|g: int, x: int|
        0 <= g < groups.len() && 0 <= x < fps.len() && group_key(#[trigger] fps[x].fingerprint) == group_key(
            fps[groups[g][0] as int].fingerprint,
        ) ==> #[trigger] groups[g].contains(x as usize)
    &&& forall|g1: int, g2: int|
        0 <= g1 < g2 < groups.len() ==> key_lt(
            group_key(fps[(#[trigger] groups[g1])[0] as int].fingerprint),
            group_key(fps[(#[trigger] groups[g2])[0] as int].fingerprint),
        )
}

proof fn lemma_groups_push<S: SourceId>(
    fps: Seq<CorpusFingerprint<S>>,
    groups: Seq<Seq<usize>>,
    g: Seq<usize>,
    k: (u64, FingerprintTier),
    last: Option<(u64, FingerprintTier)>,
)
    requires
        groups_ok(fps, groups),
        last is None <==> groups.len() == 0,
        last matches Some(l) ==> l == group_key(fps[groups.last()[0] as int].fingerprint) && key_lt(l, k),
        g.len() >= 2,
        forall|a: int| 0 <= a < g.len() ==> #[trigger] g[a] < fps.len() && group_key(fps[g[a] as int].fingerprint) == k,
        forall|a: int, b: int| 0 <= a < b < g.len() ==> member_lt(fps, #[trigger] g[a] as int, #[trigger] g[b] as int),
        forall|x: int| 0 <= x < fps.len() && group_key(#[trigger] fps[x].fingerprint) == k ==> g.contains(x as usize),
    ensures
        groups_ok(fps, groups.push(g)),
{
    let gs = groups.push(g);
    assert(group_key(fps[g[0] as int].fingerprint) == k);
    assert forall|g1: int, g2: int| 0 <= g1 < g2 < gs.len() implies key_lt(
        group_key(fps[(#[trigger] gs[g1])[0] as int].fingerprint),
        group_key(fps[(#[trigger] gs[g2])[0] as int].fingerprint),
    ) by {
        if g2 == groups.len() {
            if g1 < groups.len() - 1 {
                assert(key_lt(
                    group_key(fps[groups[g1][0] as int].fingerprint),
                    group_key(fps[groups[groups.len() - 1][0] as int].fingerprint),
                ));
            }
        } else {
            assert(gs[g1] == groups[g1]);
            assert(gs[g2] == groups[g2]);
        }
    }
    assert forall|gi: int, x: int|
        0 <= gi < gs.len() && 0 <= x < fps.len() && group_key(#[trigger] fps[x].fingerprint) == group_key(
            fps[gs[gi][0] as int].fingerprint,
        ) implies #[trigger] gs[gi].contains(x as usize) by {
        if gi < groups.len() {
            assert(gs[gi] == groups[gi]);
        }
    }
}

/// Groups `fingerprints` by `(hash, tier)`, keeping only groups with two
/// or more members — a lone fingerprint isn't a duplicate of anything.
/// Only exact hash equality is grouped. Grouping by tier too means a group
/// never mixes `Function` and `Block` fingerprints. Groups come in order of
/// hash, then tier (`Function` first); members in order of source, then
/// start byte, then input position.
pub fn duplicate_groups<'a, S: SourceId>(fingerprints: &'a [CorpusFingerprint<S>]) -> (r: Vec<Vec<&'a CorpusFingerprint<S>>>)
    ensures
        exists|idx: Seq<Seq<usize>>| #![trigger are_duplicate_groups(fingerprints@, idx)] {
            &&& are_duplicate_groups(fingerprints@, idx)
            &&& r@.len() == idx.len()
            &&& forall|g: int| 0 <= g < idx.len() ==> (#[trigger] r@[g])@.len() == idx[g].len()
            &&& forall|g: int, k: int| 0 <= g < idx.len() && 0 <= k < idx[g].len() ==> *(#[trigger] r@[g]@[k]) == fingerprints@[idx[g][k] as int]
        },
{
    let idx = duplicate_group_indices(fingerprints);
    let ghost iv = groups_view(idx@);
    let mut out: Vec<Vec<&'a CorpusFingerprint<S>>> = Vec::new();
    let mut g: usize = 0;
    while g < idx.len()
        invariant
            g <= idx@.len(),
            iv == groups_view(idx@),
            are_duplicate_groups(fingerprints@, iv),
            out@.len() == g,
            forall|a: int| 0 <= a < g ==> (#[trigger] out@[a])@.len() == iv[a].len(),
            forall|a: int, k: int| 0 <= a < g && 0 <= k < iv[a].len() ==> *(#[trigger] out@[a]@[k]) == fingerprints@[iv[a][k] as int],
        decreases idx.len() - g,
    {
        let members = &idx[g];
        assert(members@ == iv[g as int]);
        let mut refs: Vec<&'a CorpusFingerprint<S>> = Vec::new();
        let mut k: usize = 0;
        while k < members.len()
            invariant
                k <= members@.len(),
                members@ == iv[g as int],
                g < iv.len(),
                are_duplicate_groups(fingerprints@, iv),
                refs@.len() == k,
                forall|b: int| 0 <= b < k ==> *(#[trigger] refs@[b]) == fingerprints@[members@[b] as int],
            decreases members.len() - k,
        {
            let m = members[k];
            assert(m < fingerprints@.len());
            refs.push(&fingerprints[m]);
            k = k + 1;
        }
        out.push(refs);
        g = g + 1;
    }
    assert(are_duplicate_groups(fingerprints@, iv));
    out
}

} // verus!
