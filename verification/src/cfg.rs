//! Language-agnostic control-flow graph / basic-block construction on top of
//! a parsed [`SyntaxTree`].
//!
//! Covers `c`, `cpp` and `rust`; for any other language
//! [`build_function_cfg`] returns `None` rather than a guess. `switch`/
//! `match` are treated as one opaque statement, and `goto`/labels and
//! constant-condition folding are out of scope.
//!
//! The builder is iterative, driven by an explicit continuation stack, so a
//! deeply nested function cannot overflow the call stack. Its result is
//! specified by the recursive construction [`visit`]: the stack machine is
//! proved to compute exactly what that recursion describes.

use vstd::prelude::*;
use crate::syntax::{SyntaxTree, TreeModel, lemma_field_child_nested, lemma_named_child_nested, lemma_child_nested};
use crate::text::str_eq;

verus! {

pub type BlockId = usize;

/// A single-entry, single-exit sequence of statements.
#[derive(Debug)]
pub struct BasicBlock {
    pub id: BlockId,
    /// Byte ranges of the opaque statements appended to this block, in order.
    pub statements: Vec<(usize, usize)>,
    /// Overall byte range spanned by this block's content.
    pub byte_range: (usize, usize),
    /// Byte range of the controlling condition expression, for blocks that
    /// end in a branch (`if`/`while`/`for`/`do-while` headers).
    pub condition_range: Option<(usize, usize)>,
}

/// An element-by-element copy of a vector of `Copy` values.
fn copy_vec<T: Copy>(v: &Vec<T>) -> (r: Vec<T>)
    ensures
        r@ == v@,
{
    let mut out: Vec<T> = Vec::new();
    let mut i: usize = 0;
    while i < v.len()
        invariant
            i <= v@.len(),
            out@ == v@.take(i as int),
        decreases v.len() - i,
    {
        out.push(v[i]);
        i = i + 1;
        assert(out@ =~= v@.take(i as int));
    }
    assert(v@.take(v@.len() as int) =~= v@);
    out
}

impl Clone for BasicBlock {
    fn clone(&self) -> (r: Self)
        ensures
            r@ == self@,
    {
        BasicBlock {
            id: self.id,
            statements: copy_vec(&self.statements),
            byte_range: (self.byte_range.0, self.byte_range.1),
            condition_range: match self.condition_range {
                Some((a, b)) => Some((a, b)),
                None => None,
            },
        }
    }
}

/// The mathematical content of a [`BasicBlock`].
#[verifier::ext_equal]
pub struct BlockModel {
    pub id: usize,
    pub statements: Seq<(usize, usize)>,
    pub byte_range: (usize, usize),
    pub condition_range: Option<(usize, usize)>,
}

impl View for BasicBlock {
    type V = BlockModel;

    open spec fn view(&self) -> BlockModel {
        BlockModel {
            id: self.id,
            statements: self.statements@,
            byte_range: self.byte_range,
            condition_range: self.condition_range,
        }
    }
}

pub open spec fn blocks_view(v: Seq<BasicBlock>) -> Seq<BlockModel> {
    v.map_values(|b: BasicBlock| b@)
}

#[derive(Debug, Clone, Copy, PartialEq, Eq, Structural)]
pub enum CfgEdge {
    Fallthrough,
    TrueBranch,
    FalseBranch,
    BackEdge,
    Return,
    Break,
    Continue,
}

#[derive(Debug)]
pub struct FunctionCfg {
    pub blocks: Vec<BasicBlock>,
    pub edges: Vec<(BlockId, BlockId, CfgEdge)>,
    pub entry: BlockId,
    pub exits: Vec<BlockId>,
}

impl Clone for FunctionCfg {
    fn clone(&self) -> (r: Self)
        ensures
            blocks_view(r.blocks@) == blocks_view(self.blocks@),
            r.edges@ == self.edges@,
            r.entry == self.entry,
            r.exits@ == self.exits@,
    {
        let mut blocks: Vec<BasicBlock> = Vec::new();
        let mut i: usize = 0;
        while i < self.blocks.len()
            invariant
                i <= self.blocks@.len(),
                blocks_view(blocks@) == blocks_view(self.blocks@.take(i as int)),
            decreases self.blocks.len() - i,
        {
            let b = self.blocks[i].clone();
            let ghost before = blocks@;
            blocks.push(b);
            proof {
                assert(blocks_view(blocks@) =~= blocks_view(before).push(b@));
                assert(self.blocks@.take(i + 1) =~= self.blocks@.take(i as int).push(self.blocks@[i as int]));
                assert(blocks_view(self.blocks@.take(i + 1)) =~= blocks_view(self.blocks@.take(i as int)).push(self.blocks@[i as int]@));
            }
            i = i + 1;
        }
        assert(self.blocks@.take(self.blocks@.len() as int) =~= self.blocks@);
        FunctionCfg {
            blocks,
            edges: copy_vec(&self.edges),
            entry: self.entry,
            exits: copy_vec(&self.exits),
        }
    }
}

/// The `(to, kind)` of the edges among `edges[..n]` leaving `id`, in order.
pub open spec fn successors_upto(edges: Seq<(usize, usize, CfgEdge)>, id: usize, n: int) -> Seq<
    (usize, CfgEdge),
>
    decreases n,
{
    if n <= 0 || n > edges.len() {
        Seq::empty()
    } else if edges[n - 1].0 == id {
        successors_upto(edges, id, n - 1).push((edges[n - 1].1, edges[n - 1].2))
    } else {
        successors_upto(edges, id, n - 1)
    }
}

/// The `(from, kind)` of the edges among `edges[..n]` entering `id`, in order.
pub open spec fn predecessors_upto(edges: Seq<(usize, usize, CfgEdge)>, id: usize, n: int) -> Seq<
    (usize, CfgEdge),
>
    decreases n,
{
    if n <= 0 || n > edges.len() {
        Seq::empty()
    } else if edges[n - 1].1 == id {
        predecessors_upto(edges, id, n - 1).push((edges[n - 1].0, edges[n - 1].2))
    } else {
        predecessors_upto(edges, id, n - 1)
    }
}

proof fn lemma_neighbours(edges: Seq<(usize, usize, CfgEdge)>, a: usize, b: usize, e: CfgEdge, n: int)
    requires
        0 <= n <= edges.len(),
    ensures
        successors_upto(edges, a, n).contains((b, e)) <==> edges.take(n).contains((a, b, e)),
        predecessors_upto(edges, b, n).contains((a, e)) <==> edges.take(n).contains((a, b, e)),
    decreases n,
{
    broadcast use vstd::seq_lib::group_seq_properties;
    if n > 0 {
        lemma_neighbours(edges, a, b, e, n - 1);
        assert(edges.take(n) =~= edges.take(n - 1).push(edges[n - 1]));
    } else {
        assert(edges.take(n) =~= Seq::<(usize, usize, CfgEdge)>::empty());
    }
}

/// The successors of `a` and the predecessors of `b` describe the same
/// edges: `(b, kind)` is a successor of `a` exactly when `(a, kind)` is a
/// predecessor of `b`, exactly when the edge `a -> b` of that kind exists.
pub proof fn successors_and_predecessors_agree(edges: Seq<(usize, usize, CfgEdge)>, a: usize, b: usize, e: CfgEdge)
    ensures
        successors_upto(edges, a, edges.len() as int).contains((b, e)) <==> edges.contains((a, b, e)),
        predecessors_upto(edges, b, edges.len() as int).contains((a, e)) <==> edges.contains((a, b, e)),
{
    lemma_neighbours(edges, a, b, e, edges.len() as int);
    assert(edges.take(edges.len() as int) =~= edges);
}

impl FunctionCfg {
    pub fn successors(&self, id: BlockId) -> (r: Vec<(BlockId, CfgEdge)>)
        ensures
            r@ == successors_upto(self.edges@, id, self.edges@.len() as int),
    {
        let mut out: Vec<(BlockId, CfgEdge)> = Vec::new();
        let mut i: usize = 0;
        while i < self.edges.len()
            invariant
                i <= self.edges@.len(),
                out@ == successors_upto(self.edges@, id, i as int),
            decreases self.edges.len() - i,
        {
            let (from, to, edge) = self.edges[i];
            if from == id {
                out.push((to, edge));
            }
            i = i + 1;
        }
        out
    }

    pub fn predecessors(&self, id: BlockId) -> (r: Vec<(BlockId, CfgEdge)>)
        ensures
            r@ == predecessors_upto(self.edges@, id, self.edges@.len() as int),
    {
        let mut out: Vec<(BlockId, CfgEdge)> = Vec::new();
        let mut i: usize = 0;
        while i < self.edges.len()
            invariant
                i <= self.edges@.len(),
                out@ == predecessors_upto(self.edges@, id, i as int),
            decreases self.edges.len() - i,
        {
            let (from, to, edge) = self.edges[i];
            if to == id {
                out.push((from, edge));
            }
            i = i + 1;
        }
        out
    }

    pub fn block_count(&self) -> (r: usize)
        ensures
            r == self.blocks@.len(),
    {
        self.blocks.len()
    }

    pub fn get_block(&self, id: BlockId) -> (r: Option<&BasicBlock>)
        ensures
            match r {
                Some(b) => id < self.blocks@.len() && *b == self.blocks@[id as int],
                None => id >= self.blocks@.len(),
            },
    {
        if id < self.blocks.len() {
            Some(&self.blocks[id])
        } else {
            None
        }
    }
}

/// Per-language node-kind vocabulary (the field names `condition`,
/// `consequence`, `alternative`, `body`, `initializer` and `update` are
/// shared by every modelled language).
#[derive(Clone, Copy, PartialEq, Eq, Structural)]
pub enum Shapes {
    /// `c` and `cpp`.
    C,
    /// `rust`.
    Rust,
}

/// What a statement node means to the builder.
#[derive(Clone, Copy, PartialEq, Eq, Structural)]
pub enum KindClass {
    /// A bare nested block, flattened transparently.
    Block,
    If,
    /// Pre-test loop.
    While,
    /// Pre-test loop with optional initializer, condition and update.
    For,
    /// Loop with no implicit exit test (Rust's `loop {}`).
    Loop,
    /// Post-test loop.
    DoWhile,
    Return,
    Break,
    Continue,
    /// An opaque statement.
    Other,
}

/// The shapes table for a registry key.
pub open spec fn spec_shapes_for(key: Seq<char>) -> Option<Shapes> {
    if key == "c"@ || key == "cpp"@ {
        Some(Shapes::C)
    } else if key == "rust"@ {
        Some(Shapes::Rust)
    } else {
        None
    }
}

fn shapes_for(key: &str) -> (r: Option<Shapes>)
    ensures
        r == spec_shapes_for(key@),
{
    if str_eq(key, "c") || str_eq(key, "cpp") {
        Some(Shapes::C)
    } else if str_eq(key, "rust") {
        Some(Shapes::Rust)
    } else {
        None
    }
}

/// The class of node kind `k` under `sh`.
pub open spec fn kind_class(sh: Shapes, k: Seq<char>) -> KindClass {
    match sh {
        Shapes::C => if k == "compound_statement"@ {
            KindClass::Block
        } else if k == "if_statement"@ {
            KindClass::If
        } else if k == "while_statement"@ {
            KindClass::While
        } else if k == "for_statement"@ {
            KindClass::For
        } else if k == "do_statement"@ {
            KindClass::DoWhile
        } else if k == "return_statement"@ {
            KindClass::Return
        } else if k == "break_statement"@ {
            KindClass::Break
        } else if k == "continue_statement"@ {
            KindClass::Continue
        } else {
            KindClass::Other
        },
        Shapes::Rust => if k == "block"@ {
            KindClass::Block
        } else if k == "if_expression"@ {
            KindClass::If
        } else if k == "while_expression"@ {
            KindClass::While
        } else if k == "for_expression"@ {
            KindClass::For
        } else if k == "loop_expression"@ {
            KindClass::Loop
        } else if k == "return_expression"@ {
            KindClass::Return
        } else if k == "break_expression"@ {
            KindClass::Break
        } else if k == "continue_expression"@ {
            KindClass::Continue
        } else {
            KindClass::Other
        },
    }
}

fn classify(sh: Shapes, tree: &SyntaxTree, n: usize) -> (r: KindClass)
    requires
        n < tree@.nodes.len(),
    ensures
        r == kind_class(sh, tree@.kind(n as int)),
{
    match sh {
        Shapes::C => {
            if tree.kind_is(n, "compound_statement") {
                KindClass::Block
            } else if tree.kind_is(n, "if_statement") {
                KindClass::If
            } else if tree.kind_is(n, "while_statement") {
                KindClass::While
            } else if tree.kind_is(n, "for_statement") {
                KindClass::For
            } else if tree.kind_is(n, "do_statement") {
                KindClass::DoWhile
            } else if tree.kind_is(n, "return_statement") {
                KindClass::Return
            } else if tree.kind_is(n, "break_statement") {
                KindClass::Break
            } else if tree.kind_is(n, "continue_statement") {
                KindClass::Continue
            } else {
                KindClass::Other
            }
        },
        Shapes::Rust => {
            if tree.kind_is(n, "block") {
                KindClass::Block
            } else if tree.kind_is(n, "if_expression") {
                KindClass::If
            } else if tree.kind_is(n, "while_expression") {
                KindClass::While
            } else if tree.kind_is(n, "for_expression") {
                KindClass::For
            } else if tree.kind_is(n, "loop_expression") {
                KindClass::Loop
            } else if tree.kind_is(n, "return_expression") {
                KindClass::Return
            } else if tree.kind_is(n, "break_expression") {
                KindClass::Break
            } else if tree.kind_is(n, "continue_expression") {
                KindClass::Continue
            } else {
                KindClass::Other
            }
        },
    }
}

/// Whether kind `k` is a transparent single-child wrapper: around a
/// statement (`else_branch == false`; Rust's `expression_statement`) or
/// around an `if`'s `alternative` (`else_clause`).
pub open spec fn is_wrapper(sh: Shapes, else_branch: bool, k: Seq<char>) -> bool {
    if else_branch {
        k == "else_clause"@
    } else {
        sh is Rust && k == "expression_statement"@
    }
}

/// Node `n` with transparent wrappers peeled off (each step moves to the
/// first named child).
pub open spec fn unwrap(t: TreeModel, sh: Shapes, else_branch: bool, n: int) -> int
    decreases t.end(n) - n,
    when t.wf() && t.valid(n)
{
    if is_wrapper(sh, else_branch, t.kind(n)) {
        match t.first_named_child(n) {
            Some(c) => {
                proof {
                    lemma_named_child_nested(t, n, 0);
                }
                unwrap(t, sh, else_branch, c)
            },
            None => n,
        }
    } else {
        n
    }
}

pub proof fn lemma_unwrap(t: TreeModel, sh: Shapes, else_branch: bool, n: int)
    requires
        t.wf(),
        t.valid(n),
    ensures
        unwrap(t, sh, else_branch, n) == n || t.nested_in(unwrap(t, sh, else_branch, n), n),
        t.valid(unwrap(t, sh, else_branch, n)),
    decreases t.end(n) - n,
{
    if is_wrapper(sh, else_branch, t.kind(n)) {
        lemma_named_child_nested(t, n, 0);
        if let Some(c) = t.first_named_child(n) {
            lemma_unwrap(t, sh, else_branch, c);
            assert(t.node_wf(c));
        }
    }
}

fn unwrap_exec(tree: &SyntaxTree, sh: Shapes, else_branch: bool, n: usize) -> (r: usize)
    requires
        n < tree@.nodes.len(),
    ensures
        r == unwrap(tree@, sh, else_branch, n as int),
        r < tree@.nodes.len(),
{
    tree.assert_wf();
    let mut node = n;
    loop
        invariant
            tree@.wf(),
            node < tree@.nodes.len(),
            unwrap(tree@, sh, else_branch, n as int) == unwrap(tree@, sh, else_branch, node as int),
        decreases tree@.end(node as int) - node,
    {
        let wraps = if else_branch {
            tree.kind_is(node, "else_clause")
        } else {
            match sh {
                Shapes::Rust => tree.kind_is(node, "expression_statement"),
                Shapes::C => false,
            }
        };
        if !wraps {
            return node;
        }
        assert(is_wrapper(sh, else_branch, tree@.kind(node as int)));
        match tree.first_named_child(node) {
            Some(c) => {
                assert(tree@.first_named_child(node as int) == Some(c as int));
                assert(unwrap(tree@, sh, else_branch, node as int) == unwrap(tree@, sh, else_branch, c as int));
                node = c;
            },
            None => {
                return node;
            },
        }
    }
}

/// The builder's state.
pub struct CfgState {
    pub blocks: Seq<BlockModel>,
    pub edges: Seq<(usize, usize, CfgEdge)>,
    pub terminated: Seq<bool>,
    pub current: usize,
    /// (continue target, break target) for each enclosing loop.
    pub loops: Seq<(usize, usize)>,
}

/// The state before any statement: one empty entry block at `start`.
pub open spec fn initial_state(start: usize) -> CfgState {
    CfgState {
        blocks: seq![
            BlockModel { id: 0, statements: Seq::empty(), byte_range: (start, start), condition_range: None },
        ],
        edges: Seq::empty(),
        terminated: seq![false],
        current: 0,
        loops: Seq::empty(),
    }
}

/// Appends a fresh empty block spanning `start..start`; its id is the old
/// block count.
pub open spec fn new_block(st: CfgState, start: usize) -> CfgState {
    CfgState {
        blocks: st.blocks.push(
            BlockModel {
                id: st.blocks.len() as usize,
                statements: Seq::empty(),
                byte_range: (start, start),
                condition_range: None,
            },
        ),
        terminated: st.terminated.push(false),
        ..st
    }
}

/// Adds the edge unless it is already present.
pub open spec fn add_edge(st: CfgState, from: usize, to: usize, e: CfgEdge) -> CfgState {
    if st.edges.contains((from, to, e)) {
        st
    } else {
        CfgState { edges: st.edges.push((from, to, e)), ..st }
    }
}

/// Adds the edge unless `from` is terminated (ends in a return, break or
/// continue).
pub open spec fn join(st: CfgState, from: usize, to: usize, e: CfgEdge) -> CfgState {
    if st.terminated[from as int] {
        st
    } else {
        add_edge(st, from, to, e)
    }
}

/// Appends the statement spanning `s..e` to the current block.
pub open spec fn append_stmt(st: CfgState, s: usize, e: usize) -> CfgState {
    let b = st.blocks[st.current as int];
    CfgState {
        blocks: st.blocks.update(
            st.current as int,
            BlockModel {
                statements: b.statements.push((s, e)),
                byte_range: (
                    if b.statements.len() == 0 {
                        s
                    } else {
                        b.byte_range.0
                    },
                    e,
                ),
                ..b
            },
        ),
        ..st
    }
}

pub open spec fn with_current(st: CfgState, c: usize) -> CfgState {
    CfgState { current: c, ..st }
}

pub open spec fn terminate(st: CfgState, b: usize) -> CfgState {
    CfgState { terminated: st.terminated.update(b as int, true), ..st }
}

pub open spec fn push_loop(st: CfgState, cont: usize, brk: usize) -> CfgState {
    CfgState { loops: st.loops.push((cont, brk)), ..st }
}

pub open spec fn pop_loop(st: CfgState) -> CfgState {
    if st.loops.len() > 0 {
        CfgState { loops: st.loops.drop_last(), ..st }
    } else {
        st
    }
}

pub open spec fn start_of(t: TreeModel, n: int) -> usize {
    t.nodes[n].start_byte
}

pub open spec fn end_of(t: TreeModel, n: int) -> usize {
    t.nodes[n].end_byte
}

/// Records the byte range of `n`'s `field` child, if any, as block `b`'s
/// condition.
pub open spec fn set_cond(t: TreeModel, st: CfgState, b: usize, n: int, field: Seq<char>) -> CfgState {
    match t.field_child(n, field) {
        Some(c) => CfgState {
            blocks: st.blocks.update(
                b as int,
                BlockModel { condition_range: Some((start_of(t, c), end_of(t, c))), ..st.blocks[b as int] },
            ),
            ..st
        },
        None => st,
    }
}

/// The block count, as the id the next new block gets.
pub open spec fn next_id(st: CfgState) -> usize {
    st.blocks.len() as usize
}

/// A `return`: the statement ends the block, which returns into a fresh
/// terminated block.
pub open spec fn on_return(t: TreeModel, st: CfgState, u: int) -> CfgState {
    let s1 = append_stmt(st, start_of(t, u), end_of(t, u));
    let next = next_id(s1);
    let s2 = new_block(s1, end_of(t, u));
    let s3 = add_edge(s2, s2.current, next, CfgEdge::Return);
    let s4 = terminate(s3, s3.current);
    terminate(with_current(s4, next), next)
}

/// A `break` (`is_break`) or `continue`: the statement ends the block,
/// which jumps to the innermost loop's break or continue target.
pub open spec fn on_jump(t: TreeModel, st: CfgState, u: int, is_break: bool) -> CfgState {
    let s1 = append_stmt(st, start_of(t, u), end_of(t, u));
    let s2 = if s1.loops.len() > 0 {
        if is_break {
            add_edge(s1, s1.current, s1.loops.last().1, CfgEdge::Break)
        } else {
            add_edge(s1, s1.current, s1.loops.last().0, CfgEdge::Continue)
        }
    } else {
        s1
    };
    let s3 = terminate(s2, s2.current);
    let next = next_id(s3);
    let s4 = new_block(s3, end_of(t, u));
    terminate(with_current(s4, next), next)
}

/// After the false branch of `if` node `u`: both branch ends fall through
/// to a fresh join block.
pub open spec fn after_if_false(t: TreeModel, st: CfgState, u: int, true_end: usize) -> CfgState {
    let false_end = st.current;
    let j = next_id(st);
    let s1 = new_block(st, end_of(t, u));
    let s2 = join(s1, true_end, j, CfgEdge::Fallthrough);
    let s3 = join(s2, false_end, j, CfgEdge::Fallthrough);
    with_current(s3, j)
}

/// After a `while` body (or a `loop` body): loop back to the header and
/// continue after the loop.
pub open spec fn after_while(st: CfgState, header: usize, after: usize) -> CfgState {
    let s1 = pop_loop(st);
    let s2 = join(s1, s1.current, header, CfgEdge::BackEdge);
    with_current(s2, after)
}

/// After a `for` body: run the update (when the body can reach it), loop
/// back to the header and continue after the loop.
pub open spec fn after_for(t: TreeModel, st: CfgState, f: int, header: usize, after: usize) -> CfgState {
    let s1 = pop_loop(st);
    let s2 = match t.field_child(f, "update"@) {
        Some(upd) => if !s1.terminated[s1.current as int] {
            append_stmt(s1, start_of(t, upd), end_of(t, upd))
        } else {
            s1
        },
        None => s1,
    };
    let s3 = join(s2, s2.current, header, CfgEdge::BackEdge);
    with_current(s3, after)
}

/// After a `do … while` body: fall into the footer, which tests the
/// condition and loops back or exits.
pub open spec fn after_do(
    t: TreeModel,
    st: CfgState,
    d: int,
    body_start: usize,
    footer: usize,
    after: usize,
) -> CfgState {
    let s1 = pop_loop(st);
    let s2 = join(s1, s1.current, footer, CfgEdge::Fallthrough);
    let s3 = set_cond(t, s2, footer, d, "condition"@);
    let s4 = add_edge(s3, footer, body_start, CfgEdge::BackEdge);
    let s5 = add_edge(s4, footer, after, CfgEdge::FalseBranch);
    with_current(s5, after)
}

/// The state an `if` node `u` leaves before its consequence: the header's
/// condition recorded, a fresh true-branch block entered.
pub open spec fn if_prep(t: TreeModel, st: CfgState, u: int) -> CfgState {
    let header = st.current;
    let s1 = set_cond(t, st, header, u, "condition"@);
    let ts = next_id(s1);
    let s2 = new_block(s1, start_of(t, u));
    let s3 = add_edge(s2, header, ts, CfgEdge::TrueBranch);
    with_current(s3, ts)
}

/// The state a pre-test loop `u` leaves before its body: (for a `for`,
/// `with_init`, the initializer appended) a header block `h` reached by
/// fallthrough and holding the condition, an after block `h + 1` on its
/// false branch, and a body block `h + 2` on its true branch, entered, with
/// the loop's targets pushed.
pub open spec fn loop_prep(t: TreeModel, st: CfgState, u: int, with_init: bool) -> CfgState {
    let s0 = if with_init {
        match t.field_child(u, "initializer"@) {
            Some(init) => append_stmt(st, start_of(t, init), end_of(t, init)),
            None => st,
        }
    } else {
        st
    };
    let prev = s0.current;
    let header = next_id(s0);
    let s1 = new_block(s0, start_of(t, u));
    let s2 = join(s1, prev, header, CfgEdge::Fallthrough);
    let s3 = set_cond(t, s2, header, u, "condition"@);
    let after = next_id(s3);
    let s4 = new_block(s3, end_of(t, u));
    let s5 = add_edge(s4, header, after, CfgEdge::FalseBranch);
    let body = next_id(s5);
    let s6 = new_block(s5, start_of(t, u));
    let s7 = add_edge(s6, header, body, CfgEdge::TrueBranch);
    push_loop(with_current(s7, body), header, after)
}

/// The state an unconditional loop `u` leaves before its body: a header
/// block `h` reached by fallthrough and entered, an after block `h + 1`.
pub open spec fn uncond_prep(t: TreeModel, st: CfgState, u: int) -> CfgState {
    let prev = st.current;
    let header = next_id(st);
    let s1 = new_block(st, start_of(t, u));
    let s2 = join(s1, prev, header, CfgEdge::Fallthrough);
    let after = next_id(s2);
    let s3 = new_block(s2, end_of(t, u));
    push_loop(with_current(s3, header), header, after)
}

/// The state a `do … while` node `u` leaves before its body: a body block
/// `b` reached by fallthrough and entered, a footer `b + 1` and an after
/// block `b + 2`.
pub open spec fn do_prep(t: TreeModel, st: CfgState, u: int) -> CfgState {
    let prev = st.current;
    let body = next_id(st);
    let s1 = new_block(st, start_of(t, u));
    let s2 = join(s1, prev, body, CfgEdge::Fallthrough);
    let footer = next_id(s2);
    let s3 = new_block(s2, end_of(t, u));
    let after = next_id(s3);
    let s4 = new_block(s3, end_of(t, u));
    push_loop(with_current(s4, body), footer, after)
}

/// `next_id(st) + k`.
pub open spec fn id_plus(st: CfgState, k: int) -> usize {
    (st.blocks.len() + k) as usize
}

/// Visits `n`'s `field` child, if any.
pub open spec fn visit_field(t: TreeModel, sh: Shapes, st: CfgState, n: int, field: Seq<char>) -> CfgState
    decreases t.end(n) - n, 0int, 0int,
    when t.wf() && t.valid(n)
{
    match t.field_child(n, field) {
        Some(c) => {
            proof {
                lemma_field_child_nested(t, n, field, 0);
            }
            visit(t, sh, st, c)
        },
        None => st,
    }
}

/// The effect of building statement `n` into the graph.
pub open spec fn visit(t: TreeModel, sh: Shapes, st: CfgState, n: int) -> CfgState
    decreases t.end(n) - n, 3int, 0int,
    when t.wf() && t.valid(n)
{
    proof {
        lemma_unwrap(t, sh, false, n);
    }
    let u = unwrap(t, sh, false, n);
    match kind_class(sh, t.kind(u)) {
        KindClass::Block => visit_children(t, sh, st, u, 0),
        KindClass::If => after_if_true(
            t,
            sh,
            visit_field(t, sh, if_prep(t, st, u), u, "consequence"@),
            u,
            st.current,
        ),
        KindClass::While => after_while(
            visit_field(t, sh, loop_prep(t, st, u, false), u, "body"@),
            next_id(st),
            id_plus(st, 1),
        ),
        KindClass::For => after_for(
            t,
            visit_field(t, sh, loop_prep(t, st, u, true), u, "body"@),
            u,
            next_id(st),
            id_plus(st, 1),
        ),
        KindClass::Loop => after_while(
            visit_field(t, sh, uncond_prep(t, st, u), u, "body"@),
            next_id(st),
            id_plus(st, 1),
        ),
        KindClass::DoWhile => after_do(
            t,
            visit_field(t, sh, do_prep(t, st, u), u, "body"@),
            u,
            next_id(st),
            id_plus(st, 1),
            id_plus(st, 2),
        ),
        KindClass::Return => on_return(t, st, u),
        KindClass::Break => on_jump(t, st, u, true),
        KindClass::Continue => on_jump(t, st, u, false),
        KindClass::Other => append_stmt(st, start_of(t, u), end_of(t, u)),
    }
}

/// After the consequence of `if` node `u` (whose header block is
/// `header`): a fresh false-branch block, the alternative, then the join.
pub open spec fn after_if_true(t: TreeModel, sh: Shapes, st: CfgState, u: int, header: usize) -> CfgState
    decreases t.end(u) - u, 2int, 0int,
    when t.wf() && t.valid(u)
{
    let true_end = st.current;
    let fs = next_id(st);
    let s1 = new_block(st, start_of(t, u));
    let s2 = add_edge(s1, header, fs, CfgEdge::FalseBranch);
    let s3 = with_current(s2, fs);
    let s4 = match t.field_child(u, "alternative"@) {
        Some(a) => {
            proof {
                lemma_field_child_nested(t, u, "alternative"@, 0);
                lemma_unwrap(t, sh, true, a);
            }
            visit(t, sh, s3, unwrap(t, sh, true, a))
        },
        None => s3,
    };
    after_if_false(t, s4, u, true_end)
}

/// Visits the named children of `u` from child position `k` on, in order.
pub open spec fn visit_children(t: TreeModel, sh: Shapes, st: CfgState, u: int, k: int) -> CfgState
    decreases t.end(u) - u, 1int, t.children(u).len() - k,
    when t.wf() && t.valid(u) && k >= 0
{
    if k >= t.children(u).len() {
        st
    } else {
        proof {
            lemma_child_nested(t, u, k);
        }
        let c = t.children(u)[k] as int;
        if t.nodes[c].named {
            visit_children(t, sh, visit(t, sh, st, c), u, k + 1)
        } else {
            visit_children(t, sh, st, u, k + 1)
        }
    }
}

/// One unit of pending work for the iterative builder. `Visit` builds a
/// statement; each `After*` task resumes a construct once the part visited
/// before it is done, holding the node and block ids it needs.
#[derive(Clone, Copy, PartialEq, Eq, Structural)]
pub enum Task {
    Visit(usize),
    /// `if` node, header block.
    AfterIfTrue(usize, usize),
    /// `if` node, end of the true branch.
    AfterIfFalse(usize, usize),
    /// Header, after block.
    AfterWhileBody(usize, usize),
    /// `for` node, header, after block.
    AfterForBody(usize, usize, usize),
    /// Header, after block.
    AfterLoopBody(usize, usize),
    /// `do` node, body start, footer, after block.
    AfterDoWhileBody(usize, usize, usize, usize),
}

/// The effect of one task.
pub open spec fn apply_task(t: TreeModel, sh: Shapes, st: CfgState, task: Task) -> CfgState {
    match task {
        Task::Visit(n) => visit(t, sh, st, n as int),
        Task::AfterIfTrue(u, h) => after_if_true(t, sh, st, u as int, h),
        Task::AfterIfFalse(u, te) => after_if_false(t, st, u as int, te),
        Task::AfterWhileBody(h, a) => after_while(st, h, a),
        Task::AfterForBody(f, h, a) => after_for(t, st, f as int, h, a),
        Task::AfterLoopBody(h, a) => after_while(st, h, a),
        Task::AfterDoWhileBody(d, b, f, a) => after_do(t, st, d as int, b, f, a),
    }
}

/// The effect of a task stack, top (last) first.
pub open spec fn run(t: TreeModel, sh: Shapes, st: CfgState, tasks: Seq<Task>) -> CfgState
    decreases tasks.len(),
{
    if tasks.len() == 0 {
        st
    } else {
        run(t, sh, apply_task(t, sh, st, tasks.last()), tasks.drop_last())
    }
}

/// The number of stack steps a `Visit(n)` takes.
pub open spec fn cost_visit(t: TreeModel, sh: Shapes, n: int) -> nat
    decreases t.end(n) - n, 3int, 0int,
    when t.wf() && t.valid(n)
{
    proof {
        lemma_unwrap(t, sh, false, n);
    }
    let u = unwrap(t, sh, false, n);
    1 + match kind_class(sh, t.kind(u)) {
        KindClass::Block => cost_children(t, sh, u, 0),
        KindClass::If => cost_field(t, sh, u, "consequence"@) + cost_after_if_true(t, sh, u),
        KindClass::While | KindClass::For | KindClass::Loop | KindClass::DoWhile => cost_field(
            t,
            sh,
            u,
            "body"@,
        ) + 1,
        _ => 0,
    }
}

/// The number of stack steps an `AfterIfTrue` for `u` takes.
pub open spec fn cost_after_if_true(t: TreeModel, sh: Shapes, u: int) -> nat
    decreases t.end(u) - u, 2int, 0int,
    when t.wf() && t.valid(u)
{
    2 + match t.field_child(u, "alternative"@) {
        Some(a) => {
            proof {
                lemma_field_child_nested(t, u, "alternative"@, 0);
                lemma_unwrap(t, sh, true, a);
            }
            cost_visit(t, sh, unwrap(t, sh, true, a))
        },
        None => 0,
    }
}

/// The number of stack steps visiting `u`'s named children from `k` takes.
pub open spec fn cost_children(t: TreeModel, sh: Shapes, u: int, k: int) -> nat
    decreases t.end(u) - u, 1int, t.children(u).len() - k,
    when t.wf() && t.valid(u) && k >= 0
{
    if k >= t.children(u).len() {
        0
    } else {
        proof {
            lemma_child_nested(t, u, k);
        }
        let c = t.children(u)[k] as int;
        cost_children(t, sh, u, k + 1) + if t.nodes[c].named {
            cost_visit(t, sh, c)
        } else {
            0
        }
    }
}

/// The number of stack steps visiting `n`'s `field` child takes.
pub open spec fn cost_field(t: TreeModel, sh: Shapes, n: int, field: Seq<char>) -> nat
    decreases t.end(n) - n, 0int, 0int,
    when t.wf() && t.valid(n)
{
    match t.field_child(n, field) {
        Some(c) => {
            proof {
                lemma_field_child_nested(t, n, field, 0);
            }
            cost_visit(t, sh, c)
        },
        None => 0,
    }
}

pub open spec fn cost_task(t: TreeModel, sh: Shapes, task: Task) -> nat {
    match task {
        Task::Visit(n) => cost_visit(t, sh, n as int),
        Task::AfterIfTrue(u, _) => cost_after_if_true(t, sh, u as int),
        _ => 1,
    }
}

pub open spec fn total_cost(t: TreeModel, sh: Shapes, tasks: Seq<Task>) -> nat
    decreases tasks.len(),
{
    if tasks.len() == 0 {
        0
    } else {
        cost_task(t, sh, tasks.last()) + total_cost(t, sh, tasks.drop_last())
    }
}

/// The `Visit` tasks for the named children of `u` from position `k` on,
/// pushed last-first so that the first is on top.
pub open spec fn pushed_children(t: TreeModel, u: int, k: int) -> Seq<Task>
    decreases t.children(u).len() - k,
{
    if k < 0 || k >= t.children(u).len() {
        Seq::empty()
    } else {
        let c = t.children(u)[k];
        if t.nodes[c as int].named {
            pushed_children(t, u, k + 1).push(Task::Visit(c))
        } else {
            pushed_children(t, u, k + 1)
        }
    }
}

proof fn lemma_run_push(t: TreeModel, sh: Shapes, st: CfgState, rest: Seq<Task>, x: Task)
    ensures
        run(t, sh, st, rest.push(x)) == run(t, sh, apply_task(t, sh, st, x), rest),
        total_cost(t, sh, rest.push(x)) == cost_task(t, sh, x) + total_cost(t, sh, rest),
{
    assert(rest.push(x).drop_last() =~= rest);
}

proof fn lemma_children(t: TreeModel, sh: Shapes, st: CfgState, rest: Seq<Task>, u: int, k: int)
    requires
        t.wf(),
        t.valid(u),
        0 <= k,
    ensures
        run(t, sh, st, rest + pushed_children(t, u, k)) == run(t, sh, visit_children(t, sh, st, u, k), rest),
        total_cost(t, sh, rest + pushed_children(t, u, k)) == total_cost(t, sh, rest) + cost_children(
            t,
            sh,
            u,
            k,
        ),
    decreases t.children(u).len() - k,
{
    if k >= t.children(u).len() {
        assert(rest + pushed_children(t, u, k) =~= rest);
    } else {
        lemma_child_nested(t, u, k);
        let c = t.children(u)[k];
        if t.nodes[c as int].named {
            assert(rest + pushed_children(t, u, k) =~= (rest + pushed_children(t, u, k + 1)).push(Task::Visit(c)));
            lemma_run_push(t, sh, st, rest + pushed_children(t, u, k + 1), Task::Visit(c));
            lemma_children(t, sh, visit(t, sh, st, c as int), rest, u, k + 1);
        } else {
            lemma_children(t, sh, st, rest, u, k + 1);
        }
    }
}

/// The builder: the state of [`CfgState`] plus, per block, the indices of
/// its outgoing edges (so that the duplicate check scans only those).
struct CfgBuilder {
    blocks: Vec<BasicBlock>,
    edges: Vec<(BlockId, BlockId, CfgEdge)>,
    terminated: Vec<bool>,
    current: BlockId,
    /// (continue target, break target) for each enclosing loop.
    loop_stack: Vec<(BlockId, BlockId)>,
    out: Vec<Vec<usize>>,
}

/// Structural facts every builder state keeps: block ids are their
/// indices, every referenced block exists.
pub open spec fn state_ok(st: CfgState) -> bool {
    &&& st.blocks.len() >= 1
    &&& st.terminated.len() == st.blocks.len()
    &&& st.current < st.blocks.len()
    &&& forall|b: int| 0 <= b < st.blocks.len() ==> (#[trigger] st.blocks[b]).id == b
    &&& forall|i: int|
        0 <= i < st.loops.len() ==> (#[trigger] st.loops[i]).0 < st.blocks.len() && st.loops[i].1
            < st.blocks.len()
    &&& forall|i: int|
        0 <= i < st.edges.len() ==> (#[trigger] st.edges[i]).0 < st.blocks.len() && st.edges[i].1
            < st.blocks.len()
    &&& forall|i: int, j: int|
        0 <= i < j < st.edges.len() ==> #[trigger] st.edges[i] != #[trigger] st.edges[j]
}

impl CfgBuilder {
    spec fn model(&self) -> CfgState {
        CfgState {
            blocks: blocks_view(self.blocks@),
            edges: self.edges@,
            terminated: self.terminated@,
            current: self.current,
            loops: self.loop_stack@,
        }
    }

    spec fn ok(&self) -> bool {
        &&& state_ok(self.model())
        &&& self.out@.len() == self.blocks@.len()
        &&& forall|b: int, j: int|
            0 <= b < self.out@.len() && 0 <= j < self.out@[b]@.len() ==> {
                &&& #[trigger] self.out@[b]@[j] < self.edges@.len()
                &&& self.edges@[self.out@[b]@[j] as int].0 == b
            }
        &&& forall|i: int|
            0 <= i < self.edges@.len() ==> #[trigger] self.out@[self.edges@[i].0 as int]@.contains(
                i as usize,
            )
    }

    fn new(start: usize) -> (r: Self)
        ensures
            r.ok(),
            r.model() == initial_state(start),
    {
        let entry = BasicBlock {
            id: 0,
            statements: Vec::new(),
            byte_range: (start, start),
            condition_range: None,
        };
        let mut blocks = Vec::new();
        blocks.push(entry);
        let mut terminated = Vec::new();
        terminated.push(false);
        let mut out: Vec<Vec<usize>> = Vec::new();
        out.push(Vec::new());
        let r = CfgBuilder { blocks, edges: Vec::new(), terminated, current: 0, loop_stack: Vec::new(), out };
        assert(r.model().blocks =~= initial_state(start).blocks);
        r
    }

    fn new_block(&mut self, start: usize) -> (id: BlockId)
        requires
            old(self).ok(),
        ensures
            final(self).ok(),
            final(self).model() == new_block(old(self).model(), start),
            id == old(self).blocks@.len(),
    {
        let id = self.blocks.len();
        let ghost before = self.model();
        self.blocks.push(
            BasicBlock { id, statements: Vec::new(), byte_range: (start, start), condition_range: None },
        );
        self.terminated.push(false);
        self.out.push(Vec::new());
        assert(self.model().blocks =~= new_block(before, start).blocks);
        proof {
            let m = self.model();
            assert forall|b: int| 0 <= b < m.blocks.len() implies (#[trigger] m.blocks[b]).id == b by {
                if b < before.blocks.len() {
                    assert(m.blocks[b] == before.blocks[b]);
                }
            }
            assert forall|b: int, j: int|
                0 <= b < self.out@.len() && 0 <= j < self.out@[b]@.len() implies {
                    &&& #[trigger] self.out@[b]@[j] < self.edges@.len()
                    &&& self.edges@[self.out@[b]@[j] as int].0 == b
                } by {
                assert(b < before.blocks.len());
            }
        }
        id
    }

    fn add_edge(&mut self, from: BlockId, to: BlockId, edge: CfgEdge)
        requires
            old(self).ok(),
            from < old(self).blocks@.len(),
            to < old(self).blocks@.len(),
        ensures
            final(self).ok(),
            final(self).model() == add_edge(old(self).model(), from, to, edge),
    {
        let ghost before = self.model();
        let n = self.out[from].len();
        let mut j: usize = 0;
        while j < n
            invariant
                self.ok(),
                self.model() == before,
                from < self.out@.len(),
                n == self.out@[from as int]@.len(),
                j <= n,
                forall|k: int| 0 <= k < j ==> self.edges@[#[trigger] self.out@[from as int]@[k] as int] != (from, to, edge),
            decreases n - j,
        {
            let idx = self.out[from][j];
            assert(self.out@[from as int]@[j as int] == idx);
            let (ef, et, ee) = self.edges[idx];
            if ef == from && et == to && ee == edge {
                assert(before.edges[idx as int] == (from, to, edge));
                return ;
            }
            j = j + 1;
        }
        let elen = self.edges.len();
        proof {
            if before.edges.contains((from, to, edge)) {
                let i = choose|i: int| 0 <= i < before.edges.len() && before.edges[i] == (from, to, edge);
                assert(self.out@[self.edges@[i].0 as int]@.contains(i as usize));
                let k = choose|k: int| 0 <= k < self.out@[from as int]@.len() && self.out@[from as int]@[k] == i as usize;
                assert(self.edges@[self.out@[from as int]@[k] as int] != (from, to, edge));
                assert(false);
            }
        }
        let idx = self.edges.len();
        self.edges.push((from, to, edge));
        let ghost out_before = self.out@;
        self.out[from].push(idx);
        proof {
            let m = self.model();
            assert(m.edges == before.edges.push((from, to, edge)));
            assert(m.blocks == before.blocks);
            assert(m.loops == before.loops);
            assert forall|i: int| 0 <= i < m.edges.len() implies (#[trigger] m.edges[i]).0 < m.blocks.len()
                && m.edges[i].1 < m.blocks.len() by {
                if i < before.edges.len() {
                    assert(m.edges[i] == before.edges[i]);
                }
            }
            assert forall|i: int, j: int| 0 <= i < j < m.edges.len() implies #[trigger] m.edges[i] != #[trigger] m.edges[j] by {
                if j < before.edges.len() {
                    assert(m.edges[i] == before.edges[i]);
                    assert(m.edges[j] == before.edges[j]);
                } else {
                    assert(m.edges[i] == before.edges[i]);
                    assert(!before.edges.contains((from, to, edge)));
                }
            }
            assert forall|b: int, j: int|
                0 <= b < self.out@.len() && 0 <= j < self.out@[b]@.len() implies {
                    &&& #[trigger] self.out@[b]@[j] < self.edges@.len()
                    &&& self.edges@[self.out@[b]@[j] as int].0 == b
                } by {
                if b == from && j == out_before[b]@.len() {
                } else {
                    assert(self.out@[b]@[j] == out_before[b]@[j]);
                }
            }
            assert forall|i: int| 0 <= i < self.edges@.len() implies #[trigger] self.out@[self.edges@[i].0 as int]@.contains(
                i as usize,
            ) by {
                if i == idx {
                    assert(self.out@[from as int]@[out_before[from as int]@.len() as int] == idx);
                } else {
                    let b = self.edges@[i].0 as int;
                    assert(out_before[b]@.contains(i as usize));
                    let k = choose|k: int| 0 <= k < out_before[b]@.len() && out_before[b]@[k] == i as usize;
                    assert(self.out@[b]@[k] == i as usize);
                }
            }
        }
    }

    fn join(&mut self, from: BlockId, to: BlockId, edge: CfgEdge)
        requires
            old(self).ok(),
            from < old(self).blocks@.len(),
            to < old(self).blocks@.len(),
        ensures
            final(self).ok(),
            final(self).model() == join(old(self).model(), from, to, edge),
    {
        if !self.terminated[from] {
            self.add_edge(from, to, edge);
        }
    }

    fn append_stmt(&mut self, s: usize, e: usize)
        requires
            old(self).ok(),
        ensures
            final(self).ok(),
            final(self).model() == append_stmt(old(self).model(), s, e),
    {
        let ghost before = self.model();
        let cur = self.current;
        let first = self.blocks[cur].statements.len() == 0;
        let lo = if first {
            s
        } else {
            self.blocks[cur].byte_range.0
        };
        self.blocks[cur].statements.push((s, e));
        self.blocks[cur].byte_range = (lo, e);
        proof {
            let m = self.model();
            assert(m.blocks =~= append_stmt(before, s, e).blocks);
            assert forall|b: int| 0 <= b < m.blocks.len() implies (#[trigger] m.blocks[b]).id == b by {
                if b != cur {
                    assert(m.blocks[b] == before.blocks[b]);
                }
            }
        }
    }

    fn set_current(&mut self, c: BlockId)
        requires
            old(self).ok(),
            c < old(self).blocks@.len(),
        ensures
            final(self).ok(),
            final(self).model() == with_current(old(self).model(), c),
    {
        self.current = c;
        proof {
            assert(self.model().loops =~= old(self).model().loops);
            assert(self.model().edges =~= old(self).model().edges);
            assert(self.model().blocks =~= old(self).model().blocks);
        }
    }

    fn terminate(&mut self, b: BlockId)
        requires
            old(self).ok(),
            b < old(self).blocks@.len(),
        ensures
            final(self).ok(),
            final(self).model() == terminate(old(self).model(), b),
    {
        self.terminated.set(b, true);
        proof {
            assert(self.model().loops =~= old(self).model().loops);
            assert(self.model().edges =~= old(self).model().edges);
            assert(self.model().blocks =~= old(self).model().blocks);
        }
    }

    fn push_loop(&mut self, cont: BlockId, brk: BlockId)
        requires
            old(self).ok(),
            cont < old(self).blocks@.len(),
            brk < old(self).blocks@.len(),
        ensures
            final(self).ok(),
            final(self).model() == push_loop(old(self).model(), cont, brk),
    {
        self.loop_stack.push((cont, brk));
        proof {
            let m = self.model();
            assert(m.edges =~= old(self).model().edges);
            assert(m.blocks =~= old(self).model().blocks);
            assert forall|i: int| 0 <= i < m.loops.len() implies (#[trigger] m.loops[i]).0 < m.blocks.len() && m.loops[i].1
                < m.blocks.len() by {
                if i < m.loops.len() - 1 {
                    assert(m.loops[i] == old(self).loop_stack@[i]);
                    assert(old(self).model().loops[i] == old(self).loop_stack@[i]);
                }
            }
        }
    }

    fn pop_loop(&mut self)
        requires
            old(self).ok(),
        ensures
            final(self).ok(),
            final(self).model() == pop_loop(old(self).model()),
    {
        if self.loop_stack.len() > 0 {
            self.loop_stack.pop();
        }
        proof {
            let m = self.model();
            let o = old(self).model();
            assert(m.edges =~= o.edges);
            assert(m.blocks =~= o.blocks);
            assert(m == pop_loop(o));
            assert forall|i: int| 0 <= i < m.loops.len() implies (#[trigger] m.loops[i]).0 < m.blocks.len() && m.loops[i].1
                < m.blocks.len() by {
                assert(m.loops[i] == o.loops[i]);
            }
        }
    }

    /// Records the byte range of `n`'s `field` child, if any, as block
    /// `b`'s condition.
    fn set_cond(&mut self, tree: &SyntaxTree, b: BlockId, n: usize, field: &str)
        requires
            old(self).ok(),
            b < old(self).blocks@.len(),
            n < tree@.nodes.len(),
        ensures
            final(self).ok(),
            final(self).model() == set_cond(tree@, old(self).model(), b, n as int, field@),
    {
        let ghost before = self.model();
        match tree.field_child(n, field) {
            Some(c) => {
                self.blocks[b].condition_range = Some((tree.start_byte(c), tree.end_byte(c)));
                proof {
                    let m = self.model();
                    assert(m.blocks =~= set_cond(tree@, before, b, n as int, field@).blocks);
                    assert forall|x: int| 0 <= x < m.blocks.len() implies (#[trigger] m.blocks[x]).id == x by {
                        if x != b {
                            assert(m.blocks[x] == before.blocks[x]);
                        }
                    }
                }
            },
            None => {},
        }
    }
}

/// The node and block ids a task refers to exist.
pub open spec fn task_ok(t: TreeModel, task: Task, nb: int) -> bool {
    match task {
        Task::Visit(n) => n < t.nodes.len(),
        Task::AfterIfTrue(u, h) => u < t.nodes.len() && h < nb,
        Task::AfterIfFalse(u, te) => u < t.nodes.len() && te < nb,
        Task::AfterWhileBody(h, a) => h < nb && a < nb,
        Task::AfterForBody(f, h, a) => f < t.nodes.len() && h < nb && a < nb,
        Task::AfterLoopBody(h, a) => h < nb && a < nb,
        Task::AfterDoWhileBody(d, b, f, a) => d < t.nodes.len() && b < nb && f < nb && a < nb,
    }
}

pub open spec fn tasks_ok(t: TreeModel, tasks: Seq<Task>, nb: int) -> bool {
    forall|i: int| 0 <= i < tasks.len() ==> task_ok(t, #[trigger] tasks[i], nb)
}

impl CfgBuilder {
    fn on_return(&mut self, tree: &SyntaxTree, u: usize)
        requires
            old(self).ok(),
            u < tree@.nodes.len(),
        ensures
            final(self).ok(),
            final(self).model() == on_return(tree@, old(self).model(), u as int),
            final(self).blocks@.len() >= old(self).blocks@.len(),
    {
        self.append_stmt(tree.start_byte(u), tree.end_byte(u));
        let next = self.new_block(tree.end_byte(u));
        let cur = self.current;
        self.add_edge(cur, next, CfgEdge::Return);
        self.terminate(cur);
        self.set_current(next);
        self.terminate(next);
    }

    fn on_jump(&mut self, tree: &SyntaxTree, u: usize, is_break: bool)
        requires
            old(self).ok(),
            u < tree@.nodes.len(),
        ensures
            final(self).ok(),
            final(self).model() == on_jump(tree@, old(self).model(), u as int, is_break),
            final(self).blocks@.len() >= old(self).blocks@.len(),
    {
        self.append_stmt(tree.start_byte(u), tree.end_byte(u));
        let n = self.loop_stack.len();
        if n > 0 {
            let (cont, brk) = self.loop_stack[n - 1];
            let cur = self.current;
            assert(self.model().loops[n - 1] == (cont, brk));
            if is_break {
                self.add_edge(cur, brk, CfgEdge::Break);
            } else {
                self.add_edge(cur, cont, CfgEdge::Continue);
            }
        }
        let cur = self.current;
        self.terminate(cur);
        let next = self.new_block(tree.end_byte(u));
        self.set_current(next);
        self.terminate(next);
    }

    fn if_prep(&mut self, tree: &SyntaxTree, u: usize) -> (header: BlockId)
        requires
            old(self).ok(),
            u < tree@.nodes.len(),
        ensures
            final(self).ok(),
            final(self).model() == if_prep(tree@, old(self).model(), u as int),
            header == old(self).current,
            final(self).blocks@.len() >= old(self).blocks@.len(),
    {
        let header = self.current;
        self.set_cond(tree, header, u, "condition");
        let ts = self.new_block(tree.start_byte(u));
        self.add_edge(header, ts, CfgEdge::TrueBranch);
        self.set_current(ts);
        header
    }

    fn loop_prep(&mut self, tree: &SyntaxTree, u: usize, with_init: bool) -> (r: (BlockId, BlockId))
        requires
            old(self).ok(),
            u < tree@.nodes.len(),
        ensures
            final(self).ok(),
            final(self).model() == loop_prep(tree@, old(self).model(), u as int, with_init),
            r.0 == next_id(old(self).model()),
            r.1 == id_plus(old(self).model(), 1),
            final(self).blocks@.len() >= old(self).blocks@.len(),
    {
        if with_init {
            match tree.field_child(u, "initializer") {
                Some(init) => {
                    self.append_stmt(tree.start_byte(init), tree.end_byte(init));
                },
                None => {},
            }
        }
        let prev = self.current;
        let header = self.new_block(tree.start_byte(u));
        self.join(prev, header, CfgEdge::Fallthrough);
        self.set_cond(tree, header, u, "condition");
        let after = self.new_block(tree.end_byte(u));
        self.add_edge(header, after, CfgEdge::FalseBranch);
        let body = self.new_block(tree.start_byte(u));
        self.add_edge(header, body, CfgEdge::TrueBranch);
        self.set_current(body);
        self.push_loop(header, after);
        (header, after)
    }

    fn uncond_prep(&mut self, tree: &SyntaxTree, u: usize) -> (r: (BlockId, BlockId))
        requires
            old(self).ok(),
            u < tree@.nodes.len(),
        ensures
            final(self).ok(),
            final(self).model() == uncond_prep(tree@, old(self).model(), u as int),
            r.0 == next_id(old(self).model()),
            r.1 == id_plus(old(self).model(), 1),
            final(self).blocks@.len() >= old(self).blocks@.len(),
    {
        let prev = self.current;
        let header = self.new_block(tree.start_byte(u));
        self.join(prev, header, CfgEdge::Fallthrough);
        let after = self.new_block(tree.end_byte(u));
        self.set_current(header);
        self.push_loop(header, after);
        (header, after)
    }

    fn do_prep(&mut self, tree: &SyntaxTree, u: usize) -> (r: (BlockId, BlockId, BlockId))
        requires
            old(self).ok(),
            u < tree@.nodes.len(),
        ensures
            final(self).ok(),
            final(self).model() == do_prep(tree@, old(self).model(), u as int),
            r.0 == next_id(old(self).model()),
            r.1 == id_plus(old(self).model(), 1),
            r.2 == id_plus(old(self).model(), 2),
            final(self).blocks@.len() >= old(self).blocks@.len(),
    {
        let prev = self.current;
        let body = self.new_block(tree.start_byte(u));
        self.join(prev, body, CfgEdge::Fallthrough);
        let footer = self.new_block(tree.end_byte(u));
        let after = self.new_block(tree.end_byte(u));
        self.set_current(body);
        self.push_loop(footer, after);
        (body, footer, after)
    }

    fn after_if_false(&mut self, tree: &SyntaxTree, u: usize, true_end: BlockId)
        requires
            old(self).ok(),
            u < tree@.nodes.len(),
            true_end < old(self).blocks@.len(),
        ensures
            final(self).ok(),
            final(self).model() == after_if_false(tree@, old(self).model(), u as int, true_end),
            final(self).blocks@.len() >= old(self).blocks@.len(),
    {
        let false_end = self.current;
        let j = self.new_block(tree.end_byte(u));
        self.join(true_end, j, CfgEdge::Fallthrough);
        self.join(false_end, j, CfgEdge::Fallthrough);
        self.set_current(j);
    }

    fn after_while(&mut self, header: BlockId, after: BlockId)
        requires
            old(self).ok(),
            header < old(self).blocks@.len(),
            after < old(self).blocks@.len(),
        ensures
            final(self).ok(),
            final(self).model() == after_while(old(self).model(), header, after),
            final(self).blocks@.len() >= old(self).blocks@.len(),
    {
        self.pop_loop();
        let cur = self.current;
        self.join(cur, header, CfgEdge::BackEdge);
        self.set_current(after);
    }

    fn after_for(&mut self, tree: &SyntaxTree, f: usize, header: BlockId, after: BlockId)
        requires
            old(self).ok(),
            f < tree@.nodes.len(),
            header < old(self).blocks@.len(),
            after < old(self).blocks@.len(),
        ensures
            final(self).ok(),
            final(self).model() == after_for(tree@, old(self).model(), f as int, header, after),
            final(self).blocks@.len() >= old(self).blocks@.len(),
    {
        self.pop_loop();
        match tree.field_child(f, "update") {
            Some(upd) => {
                if !self.terminated[self.current] {
                    self.append_stmt(tree.start_byte(upd), tree.end_byte(upd));
                }
            },
            None => {},
        }
        let cur = self.current;
        self.join(cur, header, CfgEdge::BackEdge);
        self.set_current(after);
    }

    fn after_do(&mut self, tree: &SyntaxTree, d: usize, body_start: BlockId, footer: BlockId, after: BlockId)
        requires
            old(self).ok(),
            d < tree@.nodes.len(),
            body_start < old(self).blocks@.len(),
            footer < old(self).blocks@.len(),
            after < old(self).blocks@.len(),
        ensures
            final(self).ok(),
            final(self).model() == after_do(tree@, old(self).model(), d as int, body_start, footer, after),
            final(self).blocks@.len() >= old(self).blocks@.len(),
    {
        self.pop_loop();
        let cur = self.current;
        self.join(cur, footer, CfgEdge::Fallthrough);
        self.set_cond(tree, footer, d, "condition");
        self.add_edge(footer, body_start, CfgEdge::BackEdge);
        self.add_edge(footer, after, CfgEdge::FalseBranch);
        self.set_current(after);
    }
}

impl CfgBuilder {
    /// Pops and performs one `Visit(n)`: builds what it can now and pushes
    /// the tasks that finish it.
    #[verifier::rlimit(60)]
    fn step_visit(&mut self, tree: &SyntaxTree, sh: Shapes, n: usize, stack: &mut Vec<Task>)
        requires
            old(self).ok(),
            tree@.wf(),
            n < tree@.nodes.len(),
            tasks_ok(tree@, old(stack)@, old(self).blocks@.len() as int),
        ensures
            final(self).ok(),
            final(self).blocks@.len() >= old(self).blocks@.len(),
            tasks_ok(tree@, final(stack)@, final(self).blocks@.len() as int),
            run(tree@, sh, final(self).model(), final(stack)@) == run(
                tree@,
                sh,
                visit(tree@, sh, old(self).model(), n as int),
                old(stack)@,
            ),
            total_cost(tree@, sh, final(stack)@) + 1 == total_cost(tree@, sh, old(stack)@)
                + cost_visit(tree@, sh, n as int),
    {
        let ghost t = tree@;
        let ghost st0 = self.model();
        let ghost rest = stack@;
        proof {
            lemma_unwrap(t, sh, false, n as int);
        }
        let u = unwrap_exec(tree, sh, false, n);
        match classify(sh, tree, u) {
            KindClass::Block => {
                proof {
                    assert(t.node_wf(u as int));
                }
                let nc = tree.node(u).children.len();
                let mut k = nc;
                assert(pushed_children(t, u as int, k as int) =~= Seq::<Task>::empty());
                assert(rest + pushed_children(t, u as int, k as int) =~= rest);
                while k > 0
                    invariant
                        t == tree@,
                        t.wf(),
                        u < t.nodes.len(),
                        k <= nc,
                        nc == t.children(u as int).len(),
                        self.ok(),
                        self.model() == st0,
                        stack@ == rest + pushed_children(t, u as int, k as int),
                        tasks_ok(t, stack@, self.blocks@.len() as int),
                    decreases k,
                {
                    k = k - 1;
                    let c = tree.node(u).children[k];
                    proof {
                        lemma_child_nested(t, u as int, k as int);
                    }
                    if tree.node(c).named {
                        stack.push(Task::Visit(c));
                    }
                    assert(stack@ =~= rest + pushed_children(t, u as int, k as int));
                }
                proof {
                    lemma_children(t, sh, st0, rest, u as int, 0);
                }
            },
            KindClass::If => {
                let header = self.if_prep(tree, u);
                let ghost s4 = self.model();
                stack.push(Task::AfterIfTrue(u, header));
                match tree.field_child(u, "consequence") {
                    Some(c) => {
                        stack.push(Task::Visit(c));
                        proof {
                            lemma_run_push(t, sh, s4, rest.push(Task::AfterIfTrue(u, header)), Task::Visit(c));
                            lemma_run_push(t, sh, visit(t, sh, s4, c as int), rest, Task::AfterIfTrue(u, header));
                        }
                    },
                    None => {
                        proof {
                            lemma_run_push(t, sh, s4, rest, Task::AfterIfTrue(u, header));
                        }
                    },
                }
            },
            KindClass::While | KindClass::For => {
                let is_for = match classify(sh, tree, u) {
                    KindClass::For => true,
                    _ => false,
                };
                let (header, after) = self.loop_prep(tree, u, is_for);
                let ghost s8 = self.model();
                let after_task = if is_for {
                    Task::AfterForBody(u, header, after)
                } else {
                    Task::AfterWhileBody(header, after)
                };
                stack.push(after_task);
                match tree.field_child(u, "body") {
                    Some(c) => {
                        stack.push(Task::Visit(c));
                        proof {
                            lemma_run_push(t, sh, s8, rest.push(after_task), Task::Visit(c));
                            lemma_run_push(t, sh, visit(t, sh, s8, c as int), rest, after_task);
                        }
                    },
                    None => {
                        proof {
                            lemma_run_push(t, sh, s8, rest, after_task);
                        }
                    },
                }
            },
            KindClass::Loop => {
                let (header, after) = self.uncond_prep(tree, u);
                let ghost s4 = self.model();
                let after_task = Task::AfterLoopBody(header, after);
                stack.push(after_task);
                match tree.field_child(u, "body") {
                    Some(c) => {
                        stack.push(Task::Visit(c));
                        proof {
                            lemma_run_push(t, sh, s4, rest.push(after_task), Task::Visit(c));
                            lemma_run_push(t, sh, visit(t, sh, s4, c as int), rest, after_task);
                        }
                    },
                    None => {
                        proof {
                            lemma_run_push(t, sh, s4, rest, after_task);
                        }
                    },
                }
            },
            KindClass::DoWhile => {
                let (body_start, footer, after) = self.do_prep(tree, u);
                let ghost s5 = self.model();
                let after_task = Task::AfterDoWhileBody(u, body_start, footer, after);
                stack.push(after_task);
                match tree.field_child(u, "body") {
                    Some(c) => {
                        stack.push(Task::Visit(c));
                        proof {
                            lemma_run_push(t, sh, s5, rest.push(after_task), Task::Visit(c));
                            lemma_run_push(t, sh, visit(t, sh, s5, c as int), rest, after_task);
                        }
                    },
                    None => {
                        proof {
                            lemma_run_push(t, sh, s5, rest, after_task);
                        }
                    },
                }
            },
            KindClass::Return => {
                self.on_return(tree, u);
            },
            KindClass::Break => {
                self.on_jump(tree, u, true);
            },
            KindClass::Continue => {
                self.on_jump(tree, u, false);
            },
            KindClass::Other => {
                self.append_stmt(tree.start_byte(u), tree.end_byte(u));
            },
        }
    }

    /// Performs one `After*` task.
    fn step_after(&mut self, tree: &SyntaxTree, sh: Shapes, task: Task, stack: &mut Vec<Task>)
        requires
            old(self).ok(),
            tree@.wf(),
            task_ok(tree@, task, old(self).blocks@.len() as int),
            !(task is Visit),
            tasks_ok(tree@, old(stack)@, old(self).blocks@.len() as int),
        ensures
            final(self).ok(),
            final(self).blocks@.len() >= old(self).blocks@.len(),
            tasks_ok(tree@, final(stack)@, final(self).blocks@.len() as int),
            run(tree@, sh, final(self).model(), final(stack)@) == run(
                tree@,
                sh,
                apply_task(tree@, sh, old(self).model(), task),
                old(stack)@,
            ),
            total_cost(tree@, sh, final(stack)@) + 1 == total_cost(tree@, sh, old(stack)@)
                + cost_task(tree@, sh, task),
    {
        let ghost t = tree@;
        let ghost rest = stack@;
        match task {
            Task::AfterIfTrue(u, header) => {
                let true_end = self.current;
                let fs = self.new_block(tree.start_byte(u));
                self.add_edge(header, fs, CfgEdge::FalseBranch);
                self.set_current(fs);
                let ghost s3 = self.model();
                stack.push(Task::AfterIfFalse(u, true_end));
                match tree.field_child(u, "alternative") {
                    Some(a) => {
                        proof {
                            lemma_unwrap(t, sh, true, a as int);
                        }
                        let au = unwrap_exec(tree, sh, true, a);
                        stack.push(Task::Visit(au));
                        proof {
                            lemma_run_push(t, sh, s3, rest.push(Task::AfterIfFalse(u, true_end)), Task::Visit(au));
                            lemma_run_push(t, sh, visit(t, sh, s3, au as int), rest, Task::AfterIfFalse(u, true_end));
                        }
                    },
                    None => {
                        proof {
                            lemma_run_push(t, sh, s3, rest, Task::AfterIfFalse(u, true_end));
                        }
                    },
                }
            },
            Task::AfterIfFalse(u, true_end) => {
                self.after_if_false(tree, u, true_end);
            },
            Task::AfterWhileBody(header, after) => {
                self.after_while(header, after);
            },
            Task::AfterForBody(f, header, after) => {
                self.after_for(tree, f, header, after);
            },
            Task::AfterLoopBody(header, after) => {
                self.after_while(header, after);
            },
            Task::AfterDoWhileBody(d, body_start, footer, after) => {
                self.after_do(tree, d, body_start, footer, after);
            },
            Task::Visit(_) => {},
        }
    }

    /// Builds statement `body` into the graph, iteratively.
    fn visit(&mut self, tree: &SyntaxTree, sh: Shapes, body: usize)
        requires
            old(self).ok(),
            body < tree@.nodes.len(),
        ensures
            final(self).ok(),
            final(self).model() == visit(tree@, sh, old(self).model(), body as int),
    {
        tree.assert_wf();
        let ghost t = tree@;
        let ghost goal = visit(t, sh, self.model(), body as int);
        let mut stack: Vec<Task> = Vec::new();
        stack.push(Task::Visit(body));
        proof {
            lemma_run_push(t, sh, self.model(), Seq::empty(), Task::Visit(body));
            assert(stack@ =~= Seq::<Task>::empty().push(Task::Visit(body)));
        }
        while stack.len() > 0
            invariant
                t == tree@,
                t.wf(),
                self.ok(),
                tasks_ok(t, stack@, self.blocks@.len() as int),
                run(t, sh, self.model(), stack@) == goal,
            decreases total_cost(t, sh, stack@),
        {
            let ghost before = stack@;
            let task = stack.pop().unwrap();
            proof {
                assert(before =~= stack@.push(task));
                lemma_run_push(t, sh, self.model(), stack@, task);
                assert(task_ok(t, before[before.len() - 1], self.blocks@.len() as int));
            }
            match task {
                Task::Visit(n) => {
                    self.step_visit(tree, sh, n, &mut stack);
                },
                _ => {
                    self.step_after(tree, sh, task, &mut stack);
                },
            }
        }
    }
}

/// Block `x` is an exit: the target of a `Return` edge, or the last block
/// `last` when no edge leaves it.
pub open spec fn is_exit(edges: Seq<(usize, usize, CfgEdge)>, last: int, x: int) -> bool {
    ||| exists|i: int| 0 <= i < edges.len() && (#[trigger] edges[i]).2 == CfgEdge::Return && edges[i].1 == x
    ||| (x == last && !exists|i: int| 0 <= i < edges.len() && (#[trigger] edges[i]).0 == last)
}

/// `exits` lists, in increasing order and without repeats, exactly the
/// exit blocks.
pub open spec fn exits_spec(exits: Seq<usize>, edges: Seq<(usize, usize, CfgEdge)>, last: int) -> bool {
    &&& forall|i: int, j: int| 0 <= i < j < exits.len() ==> #[trigger] exits[i] < #[trigger] exits[j]
    &&& forall|x: usize|
        #![trigger exits.contains(x)]
        #![trigger is_exit(edges, last, x as int)]
        exits.contains(x) <==> is_exit(edges, last, x as int)
}

/// The graph built for a function whose body is node `body`.
pub open spec fn function_state(t: TreeModel, sh: Shapes, body: int) -> CfgState {
    visit(t, sh, initial_state(start_of(t, body)), body)
}

impl CfgBuilder {
    fn finish(self) -> (r: FunctionCfg)
        requires
            self.ok(),
        ensures
            blocks_view(r.blocks@) == self.model().blocks,
            r.edges@ == self.model().edges,
            r.entry == 0,
            exits_spec(r.exits@, self.model().edges, self.model().blocks.len() - 1),
    {
        let ghost m = self.model();
        let nb = self.blocks.len();
        let last = nb - 1;
        let mut mark: Vec<bool> = Vec::new();
        while mark.len() < nb
            invariant
                mark@.len() <= nb,
                forall|b: int| 0 <= b < mark@.len() ==> !#[trigger] mark@[b],
            decreases nb - mark.len(),
        {
            mark.push(false);
        }
        let mut k: usize = 0;
        while k < self.edges.len()
            invariant
                self.ok(),
                m == self.model(),
                nb == m.blocks.len(),
                mark@.len() == nb,
                k <= self.edges@.len(),
                forall|b: int|
                    0 <= b < nb ==> (#[trigger] mark@[b] <==> exists|i: int|
                        0 <= i < k && (#[trigger] m.edges[i]).2 == CfgEdge::Return && m.edges[i].1 == b),
            decreases self.edges.len() - k,
        {
            let (_, to, e) = self.edges[k];
            assert(m.edges[k as int] == (m.edges[k as int].0, to, e));
            if e == CfgEdge::Return {
                mark.set(to, true);
            }
            proof {
                assert forall|b: int| 0 <= b < nb implies (#[trigger] mark@[b] <==> exists|i: int|
                    0 <= i < k + 1 && (#[trigger] m.edges[i]).2 == CfgEdge::Return && m.edges[i].1 == b) by {
                    if mark@[b] && !(e == CfgEdge::Return && to == b) {
                        let i = choose|i: int| 0 <= i < k && (#[trigger] m.edges[i]).2 == CfgEdge::Return && m.edges[i].1 == b;
                    }
                    if e == CfgEdge::Return && to == b {
                        assert(m.edges[k as int].2 == CfgEdge::Return && m.edges[k as int].1 == b);
                    }
                }
            }
            k = k + 1;
        }
        let last_has_outgoing = self.out[last].len() > 0;
        proof {
            if last_has_outgoing {
                let i = self.out@[last as int]@[0];
                assert(m.edges[i as int].0 == last);
            } else {
                assert forall|i: int| 0 <= i < m.edges.len() implies (#[trigger] m.edges[i]).0 != last by {
                    assert(self.out@[m.edges[i].0 as int]@.contains(i as usize));
                }
            }
        }
        if !last_has_outgoing {
            mark.set(last, true);
        }
        let mut exits: Vec<BlockId> = Vec::new();
        let mut b: usize = 0;
        while b < nb
            invariant
                b <= nb,
                mark@.len() == nb,
                forall|i: int, j: int| 0 <= i < j < exits@.len() ==> #[trigger] exits@[i] < #[trigger] exits@[j],
                forall|i: int| 0 <= i < exits@.len() ==> #[trigger] exits@[i] < b && mark@[exits@[i] as int],
                forall|x: int| 0 <= x < b && #[trigger] mark@[x] ==> exits@.contains(x as usize),
            decreases nb - b,
        {
            if mark[b] {
                let ghost before = exits@;
                exits.push(b);
                proof {
                    assert forall|x: int| 0 <= x < b + 1 && #[trigger] mark@[x] implies exits@.contains(x as usize) by {
                        if x < b {
                            let i = choose|i: int| 0 <= i < before.len() && before[i] == x as usize;
                            assert(exits@[i] == x as usize);
                        } else {
                            assert(exits@[before.len() as int] == b);
                        }
                    }
                }
            }
            b = b + 1;
        }
        proof {
            assert forall|x: usize| #![trigger exits@.contains(x)] #![trigger is_exit(m.edges, m.blocks.len() - 1, x as int)]
                exits@.contains(x) <==> is_exit(m.edges, m.blocks.len() - 1, x as int) by {
                if exits@.contains(x) {
                    let i = choose|i: int| 0 <= i < exits@.len() && exits@[i] == x;
                    assert(mark@[x as int]);
                    if x != last || last_has_outgoing {
                        let j = choose|j: int| 0 <= j < m.edges.len() && (#[trigger] m.edges[j]).2 == CfgEdge::Return && m.edges[j].1 == x;
                    }
                }
                if is_exit(m.edges, m.blocks.len() - 1, x as int) {
                    if exists|i: int| 0 <= i < m.edges.len() && (#[trigger] m.edges[i]).2 == CfgEdge::Return && m.edges[i].1 == x {
                        let i = choose|i: int| 0 <= i < m.edges.len() && (#[trigger] m.edges[i]).2 == CfgEdge::Return && m.edges[i].1 == x;
                        assert((x as int) < nb);
                        assert(mark@[x as int]);
                    } else {
                        assert(x as int == last);
                        assert(mark@[x as int]);
                    }
                }
            }
        }
        FunctionCfg { blocks: self.blocks, edges: self.edges, entry: 0, exits }
    }
}

/// Builds a CFG for `func_node`'s body. `key` is the substrate registry
/// language key. Returns `None` when the language isn't modeled, or
/// `func_node` has no `body` field.
pub fn build_function_cfg(tree: &SyntaxTree, func_node: usize, key: &str) -> (r: Option<FunctionCfg>)
    requires
        func_node < tree@.nodes.len(),
    ensures
        r is Some <==> (spec_shapes_for(key@) is Some && tree@.field_child(func_node as int, "body"@) is Some),
        r matches Some(cfg) ==> {
            let sh = spec_shapes_for(key@)->0;
            let body = tree@.field_child(func_node as int, "body"@)->0;
            let st = function_state(tree@, sh, body);
            &&& blocks_view(cfg.blocks@) == st.blocks
            &&& cfg.edges@ == st.edges
            &&& cfg.entry == 0
            &&& exits_spec(cfg.exits@, st.edges, st.blocks.len() - 1)
            &&& state_ok(st)
        },
{
    let sh = match shapes_for(key) {
        Some(sh) => sh,
        None => {
            return None;
        },
    };
    let body = match tree.field_child(func_node, "body") {
        Some(b) => b,
        None => {
            return None;
        },
    };
    let mut builder = CfgBuilder::new(tree.start_byte(body));
    builder.visit(tree, sh, body);
    Some(builder.finish())
}

/// The name of an edge kind, as the Python bindings spell it.
pub open spec fn spec_edge_name(e: CfgEdge) -> Seq<char> {
    match e {
        CfgEdge::Fallthrough => "fallthrough"@,
        CfgEdge::TrueBranch => "true_branch"@,
        CfgEdge::FalseBranch => "false_branch"@,
        CfgEdge::BackEdge => "back_edge"@,
        CfgEdge::Return => "return"@,
        CfgEdge::Break => "break"@,
        CfgEdge::Continue => "continue"@,
    }
}

/// The name of an edge kind (`"fallthrough"`, `"true_branch"`, ...).
pub fn cfg_edge_name(edge: CfgEdge) -> (r: &'static str)
    ensures
        r@ == spec_edge_name(edge),
{
    match edge {
        CfgEdge::Fallthrough => "fallthrough",
        CfgEdge::TrueBranch => "true_branch",
        CfgEdge::FalseBranch => "false_branch",
        CfgEdge::BackEdge => "back_edge",
        CfgEdge::Return => "return",
        CfgEdge::Break => "break",
        CfgEdge::Continue => "continue",
    }
}

/// Node `n` is a function-like node named `name` whose CFG can be built
/// for language `key`.
pub open spec fn is_cfg_target(t: TreeModel, n: int, key: Seq<char>, name: Seq<char>) -> bool {
    &&& crate::calls::spec_is_function_kind(t.kind(n))
    &&& crate::calls::spec_function_name(t, n) == Some(name)
    &&& spec_shapes_for(key) is Some
    &&& t.field_child(n, "body"@) is Some
}

/// The first node of `j..end(root)`, in pre-order, that is a CFG target.
pub open spec fn first_cfg_target_from(t: TreeModel, root: int, key: Seq<char>, name: Seq<char>, j: int) -> Option<int>
    decreases t.end(root) - j,
{
    if j >= t.end(root) {
        None
    } else if is_cfg_target(t, j, key, name) {
        Some(j)
    } else {
        first_cfg_target_from(t, root, key, name, j + 1)
    }
}

/// The CFG of the first function-like node under `root` (itself
/// included, in pre-order) named `name` whose CFG can be built for
/// language `key`; `None` when there is none.
pub fn function_cfg(tree: &SyntaxTree, root: usize, key: &str, name: &str) -> (r: Option<FunctionCfg>)
    requires
        root < tree@.nodes.len(),
    ensures
        r is Some <==> first_cfg_target_from(tree@, root as int, key@, name@, root as int) is Some,
        r matches Some(cfg) ==> {
            let n = first_cfg_target_from(tree@, root as int, key@, name@, root as int)->0;
            let sh = spec_shapes_for(key@)->0;
            let body = tree@.field_child(n, "body"@)->0;
            let st = function_state(tree@, sh, body);
            &&& blocks_view(cfg.blocks@) == st.blocks
            &&& cfg.edges@ == st.edges
            &&& cfg.entry == 0
            &&& exits_spec(cfg.exits@, st.edges, st.blocks.len() - 1)
            &&& state_ok(st)
        },
{
    tree.assert_wf();
    let ghost t = tree@;
    let end = tree.end(root);
    let mut j = root;
    while j < end
        invariant
            t == tree@,
            t.wf(),
            end == t.end(root as int),
            end <= t.nodes.len(),
            root <= j <= end,
            first_cfg_target_from(t, root as int, key@, name@, root as int) == first_cfg_target_from(
                t,
                root as int,
                key@,
                name@,
                j as int,
            ),
        decreases end - j,
    {
        if crate::calls::is_function_kind(tree.node(j).kind.as_str()) {
            let named = match crate::calls::get_function_name(tree, j) {
                Some(s) => str_eq(s.as_str(), name),
                None => false,
            };
            if named {
                match build_function_cfg(tree, j, key) {
                    Some(cfg) => {
                        return Some(cfg);
                    },
                    None => {},
                }
            }
        }
        j = j + 1;
    }
    None
}

/// An edge that leaves a loop or a condition: a `FalseBranch` or a `Break`.
pub open spec fn exit_edge(e: CfgEdge) -> bool {
    e == CfgEdge::FalseBranch || e == CfgEdge::Break
}

/// Block `b` is entered by a `Continue` edge of `edges`.
pub open spec fn continue_target(edges: Seq<(usize, usize, CfgEdge)>, b: usize) -> bool {
    exists|i: int| 0 <= i < edges.len() && (#[trigger] edges[i]).2 == CfgEdge::Continue && edges[i].1 == b
}

/// Block `b` is entered by a `FalseBranch` or `Break` edge of `edges`.
pub open spec fn exit_target(edges: Seq<(usize, usize, CfgEdge)>, b: usize) -> bool {
    exists|i: int| 0 <= i < edges.len() && exit_edge((#[trigger] edges[i]).2) && edges[i].1 == b
}

/// Block `b` is the continue target of an enclosing loop.
pub open spec fn loop_cont(st: CfgState, b: usize) -> bool {
    exists|i: int| 0 <= i < st.loops.len() && (#[trigger] st.loops[i]).0 == b
}

/// Block `b` is the break target of an enclosing loop.
pub open spec fn loop_brk(st: CfgState, b: usize) -> bool {
    exists|i: int| 0 <= i < st.loops.len() && (#[trigger] st.loops[i]).1 == b
}

/// The builder state keeps `continue` apart from loop exits: no block
/// entered by a `Continue` edge is entered by a `FalseBranch` or `Break`
/// edge; an enclosing loop's continue target is never an exit target or a
/// break target, and its break target is never a continue target.
pub open spec fn jumps_ok(st: CfgState) -> bool {
    &&& st.terminated.len() == st.blocks.len()
    &&& st.current < st.blocks.len()
    &&& forall|i: int|
        0 <= i < st.edges.len() ==> (#[trigger] st.edges[i]).0 < st.blocks.len() && st.edges[i].1 < st.blocks.len()
    &&& forall|i: int|
        0 <= i < st.loops.len() ==> (#[trigger] st.loops[i]).0 < st.blocks.len() && st.loops[i].1 < st.blocks.len()
    &&& forall|b: usize| #[trigger] continue_target(st.edges, b) ==> !exit_target(st.edges, b)
    &&& forall|b: usize| #[trigger] loop_cont(st, b) ==> !exit_target(st.edges, b) && !loop_brk(st, b)
    &&& forall|b: usize| #[trigger] loop_brk(st, b) ==> !continue_target(st.edges, b)
}

proof fn lemma_targets_push(edges: Seq<(usize, usize, CfgEdge)>, x: (usize, usize, CfgEdge), b: usize)
    ensures
        continue_target(edges.push(x), b) == (continue_target(edges, b) || (x.2 == CfgEdge::Continue && x.1 == b)),
        exit_target(edges.push(x), b) == (exit_target(edges, b) || (exit_edge(x.2) && x.1 == b)),
{
    let e2 = edges.push(x);
    if continue_target(e2, b) {
        let i = choose|i: int| 0 <= i < e2.len() && (#[trigger] e2[i]).2 == CfgEdge::Continue && e2[i].1 == b;
        if i < edges.len() {
            assert(edges[i] == e2[i]);
        }
    }
    if continue_target(edges, b) {
        let i = choose|i: int| 0 <= i < edges.len() && (#[trigger] edges[i]).2 == CfgEdge::Continue && edges[i].1 == b;
        assert(e2[i] == edges[i]);
    }
    if x.2 == CfgEdge::Continue && x.1 == b {
        assert(e2[edges.len() as int] == x);
    }
    if exit_target(e2, b) {
        let i = choose|i: int| 0 <= i < e2.len() && exit_edge((#[trigger] e2[i]).2) && e2[i].1 == b;
        if i < edges.len() {
            assert(edges[i] == e2[i]);
        }
    }
    if exit_target(edges, b) {
        let i = choose|i: int| 0 <= i < edges.len() && exit_edge((#[trigger] edges[i]).2) && edges[i].1 == b;
        assert(e2[i] == edges[i]);
    }
    if exit_edge(x.2) && x.1 == b {
        assert(e2[edges.len() as int] == x);
    }
}

proof fn lemma_add_edge_ok(st: CfgState, from: usize, to: usize, e: CfgEdge)
    requires
        jumps_ok(st),
        from < st.blocks.len(),
        to < st.blocks.len(),
        exit_edge(e) ==> !loop_cont(st, to) && !continue_target(st.edges, to),
        e == CfgEdge::Continue ==> !loop_brk(st, to) && !exit_target(st.edges, to),
    ensures
        jumps_ok(add_edge(st, from, to, e)),
        add_edge(st, from, to, e).blocks == st.blocks,
        add_edge(st, from, to, e).loops == st.loops,
        add_edge(st, from, to, e).current == st.current,
        add_edge(st, from, to, e).terminated == st.terminated,
{
    if !st.edges.contains((from, to, e)) {
        let s2 = add_edge(st, from, to, e);
        assert forall|b: usize| #[trigger] continue_target(s2.edges, b) implies !exit_target(s2.edges, b) by {
            lemma_targets_push(st.edges, (from, to, e), b);
        }
        assert forall|b: usize| #[trigger] loop_cont(s2, b) implies !exit_target(s2.edges, b) && !loop_brk(s2, b) by {
            lemma_targets_push(st.edges, (from, to, e), b);
            assert(loop_cont(st, b));
        }
        assert forall|b: usize| #[trigger] loop_brk(s2, b) implies !continue_target(s2.edges, b) by {
            lemma_targets_push(st.edges, (from, to, e), b);
            assert(loop_brk(st, b));
        }
        assert forall|i: int| 0 <= i < s2.edges.len() implies (#[trigger] s2.edges[i]).0 < s2.blocks.len()
            && s2.edges[i].1 < s2.blocks.len() by {
            if i < st.edges.len() {
                assert(s2.edges[i] == st.edges[i]);
            }
        }
    }
}

proof fn lemma_join_ok(st: CfgState, from: usize, to: usize, e: CfgEdge)
    requires
        jumps_ok(st),
        from < st.blocks.len(),
        to < st.blocks.len(),
        exit_edge(e) ==> !loop_cont(st, to) && !continue_target(st.edges, to),
        e == CfgEdge::Continue ==> !loop_brk(st, to) && !exit_target(st.edges, to),
    ensures
        jumps_ok(join(st, from, to, e)),
        join(st, from, to, e).blocks == st.blocks,
        join(st, from, to, e).loops == st.loops,
        join(st, from, to, e).current == st.current,
        join(st, from, to, e).terminated == st.terminated,
{
    lemma_add_edge_ok(st, from, to, e);
}

/// A fresh block is nobody's target.
proof fn lemma_new_block_ok(st: CfgState, start: usize)
    requires
        jumps_ok(st),
        st.blocks.len() < usize::MAX,
    ensures
        jumps_ok(new_block(st, start)),
        new_block(st, start).blocks.len() == st.blocks.len() + 1,
        new_block(st, start).edges == st.edges,
        new_block(st, start).loops == st.loops,
        new_block(st, start).current == st.current,
        !continue_target(st.edges, st.blocks.len() as usize),
        !exit_target(st.edges, st.blocks.len() as usize),
        !loop_cont(st, st.blocks.len() as usize),
        !loop_brk(st, st.blocks.len() as usize),
{
    let b = st.blocks.len() as usize;
    let s2 = new_block(st, start);
    assert forall|x: usize| #[trigger] loop_cont(s2, x) implies loop_cont(st, x) by {}
    assert forall|x: usize| #[trigger] loop_brk(s2, x) implies loop_brk(st, x) by {}
    if continue_target(st.edges, b) {
        let i = choose|i: int| 0 <= i < st.edges.len() && (#[trigger] st.edges[i]).2 == CfgEdge::Continue && st.edges[i].1 == b;
    }
    if exit_target(st.edges, b) {
        let i = choose|i: int| 0 <= i < st.edges.len() && exit_edge((#[trigger] st.edges[i]).2) && st.edges[i].1 == b;
    }
    if loop_cont(st, b) {
        let i = choose|i: int| 0 <= i < st.loops.len() && (#[trigger] st.loops[i]).0 == b;
    }
    if loop_brk(st, b) {
        let i = choose|i: int| 0 <= i < st.loops.len() && (#[trigger] st.loops[i]).1 == b;
    }
}

proof fn lemma_append_ok(st: CfgState, s: usize, e: usize)
    requires
        jumps_ok(st),
    ensures
        jumps_ok(append_stmt(st, s, e)),
        append_stmt(st, s, e).blocks.len() == st.blocks.len(),
        append_stmt(st, s, e).edges == st.edges,
        append_stmt(st, s, e).loops == st.loops,
        append_stmt(st, s, e).current == st.current,
{
    let s2 = append_stmt(st, s, e);
    assert forall|x: usize| #[trigger] loop_cont(s2, x) implies loop_cont(st, x) by {}
    assert forall|x: usize| #[trigger] loop_brk(s2, x) implies loop_brk(st, x) by {}
}

proof fn lemma_set_cond_ok(t: TreeModel, st: CfgState, b: usize, n: int, field: Seq<char>)
    requires
        jumps_ok(st),
        b < st.blocks.len(),
    ensures
        jumps_ok(set_cond(t, st, b, n, field)),
        set_cond(t, st, b, n, field).blocks.len() == st.blocks.len(),
        set_cond(t, st, b, n, field).edges == st.edges,
        set_cond(t, st, b, n, field).loops == st.loops,
        set_cond(t, st, b, n, field).current == st.current,
{
    let s2 = set_cond(t, st, b, n, field);
    assert forall|x: usize| #[trigger] loop_cont(s2, x) implies loop_cont(st, x) by {}
    assert forall|x: usize| #[trigger] loop_brk(s2, x) implies loop_brk(st, x) by {}
}

proof fn lemma_terminate_ok(st: CfgState, b: usize)
    requires
        jumps_ok(st),
        b < st.blocks.len(),
    ensures
        jumps_ok(terminate(st, b)),
        terminate(st, b).blocks == st.blocks,
        terminate(st, b).edges == st.edges,
        terminate(st, b).loops == st.loops,
        terminate(st, b).current == st.current,
{
    let s2 = terminate(st, b);
    assert forall|x: usize| #[trigger] loop_cont(s2, x) implies loop_cont(st, x) by {}
    assert forall|x: usize| #[trigger] loop_brk(s2, x) implies loop_brk(st, x) by {}
}

proof fn lemma_with_current_ok(st: CfgState, c: usize)
    requires
        jumps_ok(st),
        c < st.blocks.len(),
    ensures
        jumps_ok(with_current(st, c)),
{
    let s2 = with_current(st, c);
    assert forall|x: usize| #[trigger] loop_cont(s2, x) implies loop_cont(st, x) by {}
    assert forall|x: usize| #[trigger] loop_brk(s2, x) implies loop_brk(st, x) by {}
}

proof fn lemma_pop_ok(st: CfgState)
    requires
        jumps_ok(st),
    ensures
        jumps_ok(pop_loop(st)),
        pop_loop(st).blocks == st.blocks,
        pop_loop(st).edges == st.edges,
        pop_loop(st).current == st.current,
        pop_loop(st).terminated == st.terminated,
        st.loops.len() > 0 ==> pop_loop(st).loops == st.loops.drop_last(),
{
    if st.loops.len() > 0 {
        let s2 = pop_loop(st);
        assert forall|x: usize| #[trigger] loop_cont(s2, x) implies loop_cont(st, x) by {
            let i = choose|i: int| 0 <= i < s2.loops.len() && (#[trigger] s2.loops[i]).0 == x;
            assert(st.loops[i] == s2.loops[i]);
        }
        assert forall|x: usize| #[trigger] loop_brk(s2, x) implies loop_brk(st, x) by {
            let i = choose|i: int| 0 <= i < s2.loops.len() && (#[trigger] s2.loops[i]).1 == x;
            assert(st.loops[i] == s2.loops[i]);
        }
        assert forall|i: int| 0 <= i < s2.loops.len() implies (#[trigger] s2.loops[i]).0 < s2.blocks.len()
            && s2.loops[i].1 < s2.blocks.len() by {
            assert(st.loops[i] == s2.loops[i]);
        }
    }
}

/// Pushing a loop whose targets are blocks no edge enters and no enclosing
/// loop uses.
proof fn lemma_push_ok(st: CfgState, c: usize, k: usize)
    requires
        jumps_ok(st),
        c < st.blocks.len(),
        k < st.blocks.len(),
        c != k,
        !exit_target(st.edges, c),
        !continue_target(st.edges, k),
        !loop_brk(st, c),
        !loop_cont(st, k),
    ensures
        jumps_ok(push_loop(st, c, k)),
        push_loop(st, c, k).loops == st.loops.push((c, k)),
        push_loop(st, c, k).blocks == st.blocks,
        push_loop(st, c, k).edges == st.edges,
        push_loop(st, c, k).current == st.current,
{
    let s2 = push_loop(st, c, k);
    assert forall|x: usize| #[trigger] loop_cont(s2, x) implies loop_cont(st, x) || x == c by {
        let i = choose|i: int| 0 <= i < s2.loops.len() && (#[trigger] s2.loops[i]).0 == x;
        if i < st.loops.len() {
            assert(st.loops[i] == s2.loops[i]);
        }
    }
    assert forall|x: usize| #[trigger] loop_brk(s2, x) implies loop_brk(st, x) || x == k by {
        let i = choose|i: int| 0 <= i < s2.loops.len() && (#[trigger] s2.loops[i]).1 == x;
        if i < st.loops.len() {
            assert(st.loops[i] == s2.loops[i]);
        }
    }
    assert forall|x: usize| loop_cont(st, x) implies #[trigger] loop_cont(s2, x) by {
        let i = choose|i: int| 0 <= i < st.loops.len() && (#[trigger] st.loops[i]).0 == x;
        assert(st.loops[i] == s2.loops[i]);
    }
    assert forall|x: usize| loop_brk(st, x) implies #[trigger] loop_brk(s2, x) by {
        let i = choose|i: int| 0 <= i < st.loops.len() && (#[trigger] st.loops[i]).1 == x;
        assert(st.loops[i] == s2.loops[i]);
    }
    assert(s2.loops[st.loops.len() as int] == (c, k));
    assert forall|i: int| 0 <= i < s2.loops.len() implies (#[trigger] s2.loops[i]).0 < s2.blocks.len()
        && s2.loops[i].1 < s2.blocks.len() by {
        if i < st.loops.len() {
            assert(st.loops[i] == s2.loops[i]);
        }
    }
}

proof fn lemma_on_return_ok(t: TreeModel, st: CfgState, u: int)
    requires
        jumps_ok(st),
        on_return(t, st, u).blocks.len() < usize::MAX,
    ensures
        jumps_ok(on_return(t, st, u)),
        on_return(t, st, u).loops == st.loops,
        on_return(t, st, u).blocks.len() == st.blocks.len() + 1,
{
    let s1 = append_stmt(st, start_of(t, u), end_of(t, u));
    lemma_append_ok(st, start_of(t, u), end_of(t, u));
    let next = next_id(s1);
    let s2 = new_block(s1, end_of(t, u));
    lemma_new_block_ok(s1, end_of(t, u));
    let s3 = add_edge(s2, s2.current, next, CfgEdge::Return);
    lemma_add_edge_ok(s2, s2.current, next, CfgEdge::Return);
    let s4 = terminate(s3, s3.current);
    lemma_terminate_ok(s3, s3.current);
    lemma_with_current_ok(s4, next);
    lemma_terminate_ok(with_current(s4, next), next);
}

proof fn lemma_on_jump_ok(t: TreeModel, st: CfgState, u: int, is_break: bool)
    requires
        jumps_ok(st),
        on_jump(t, st, u, is_break).blocks.len() < usize::MAX,
    ensures
        jumps_ok(on_jump(t, st, u, is_break)),
        on_jump(t, st, u, is_break).loops == st.loops,
        on_jump(t, st, u, is_break).blocks.len() == st.blocks.len() + 1,
{
    let s1 = append_stmt(st, start_of(t, u), end_of(t, u));
    lemma_append_ok(st, start_of(t, u), end_of(t, u));
    let s2 = if s1.loops.len() > 0 {
        let (c, k) = s1.loops.last();
        assert(s1.loops[s1.loops.len() - 1] == (c, k));
        assert(loop_cont(s1, c));
        assert(loop_brk(s1, k));
        if is_break {
            lemma_add_edge_ok(s1, s1.current, k, CfgEdge::Break);
            add_edge(s1, s1.current, k, CfgEdge::Break)
        } else {
            lemma_add_edge_ok(s1, s1.current, c, CfgEdge::Continue);
            add_edge(s1, s1.current, c, CfgEdge::Continue)
        }
    } else {
        s1
    };
    let s3 = terminate(s2, s2.current);
    lemma_terminate_ok(s2, s2.current);
    let next = next_id(s3);
    let s4 = new_block(s3, end_of(t, u));
    lemma_new_block_ok(s3, end_of(t, u));
    lemma_with_current_ok(s4, next);
    lemma_terminate_ok(with_current(s4, next), next);
}

proof fn lemma_if_prep_ok(t: TreeModel, st: CfgState, u: int)
    requires
        jumps_ok(st),
        st.blocks.len() + 1 < usize::MAX,
    ensures
        jumps_ok(if_prep(t, st, u)),
        if_prep(t, st, u).loops == st.loops,
        if_prep(t, st, u).blocks.len() == st.blocks.len() + 1,
{
    let header = st.current;
    let s1 = set_cond(t, st, header, u, "condition"@);
    lemma_set_cond_ok(t, st, header, u, "condition"@);
    let ts = next_id(s1);
    let s2 = new_block(s1, start_of(t, u));
    lemma_new_block_ok(s1, start_of(t, u));
    lemma_add_edge_ok(s2, header, ts, CfgEdge::TrueBranch);
    lemma_with_current_ok(add_edge(s2, header, ts, CfgEdge::TrueBranch), ts);
}

proof fn lemma_after_if_false_ok(t: TreeModel, st: CfgState, u: int, true_end: usize)
    requires
        jumps_ok(st),
        true_end < st.blocks.len(),
        st.blocks.len() + 1 < usize::MAX,
    ensures
        jumps_ok(after_if_false(t, st, u, true_end)),
        after_if_false(t, st, u, true_end).loops == st.loops,
        after_if_false(t, st, u, true_end).blocks.len() == st.blocks.len() + 1,
{
    let false_end = st.current;
    let j = next_id(st);
    let s1 = new_block(st, end_of(t, u));
    lemma_new_block_ok(st, end_of(t, u));
    lemma_join_ok(s1, true_end, j, CfgEdge::Fallthrough);
    let s2 = join(s1, true_end, j, CfgEdge::Fallthrough);
    lemma_join_ok(s2, false_end, j, CfgEdge::Fallthrough);
    let s3 = join(s2, false_end, j, CfgEdge::Fallthrough);
    lemma_with_current_ok(s3, j);
}

/// A pre-test loop pushes its header and its after block.
proof fn lemma_loop_prep_ok(t: TreeModel, st: CfgState, u: int, with_init: bool)
    requires
        jumps_ok(st),
        st.blocks.len() + 3 < usize::MAX,
    ensures
        jumps_ok(loop_prep(t, st, u, with_init)),
        loop_prep(t, st, u, with_init).loops == st.loops.push((next_id(st), id_plus(st, 1))),
        loop_prep(t, st, u, with_init).blocks.len() == st.blocks.len() + 3,
{
    let s0 = if with_init {
        match t.field_child(u, "initializer"@) {
            Some(init) => {
                lemma_append_ok(st, start_of(t, init), end_of(t, init));
                append_stmt(st, start_of(t, init), end_of(t, init))
            },
            None => st,
        }
    } else {
        st
    };
    let prev = s0.current;
    let header = next_id(s0);
    let s1 = new_block(s0, start_of(t, u));
    lemma_new_block_ok(s0, start_of(t, u));
    lemma_join_ok(s1, prev, header, CfgEdge::Fallthrough);
    let s2 = join(s1, prev, header, CfgEdge::Fallthrough);
    lemma_set_cond_ok(t, s2, header, u, "condition"@);
    let s3 = set_cond(t, s2, header, u, "condition"@);
    let after = next_id(s3);
    let s4 = new_block(s3, end_of(t, u));
    lemma_new_block_ok(s3, end_of(t, u));
    lemma_add_edge_ok(s4, header, after, CfgEdge::FalseBranch);
    let s5 = add_edge(s4, header, after, CfgEdge::FalseBranch);
    let body = next_id(s5);
    let s6 = new_block(s5, start_of(t, u));
    lemma_new_block_ok(s5, start_of(t, u));
    lemma_add_edge_ok(s6, header, body, CfgEdge::TrueBranch);
    let s7 = add_edge(s6, header, body, CfgEdge::TrueBranch);
    lemma_with_current_ok(s7, body);
    let s8 = with_current(s7, body);
    // The header is entered only by a fallthrough; the after block only by
    // the false branch.
    assert(!exit_target(s2.edges, header)) by {
        lemma_targets_push(s1.edges, (prev, header, CfgEdge::Fallthrough), header);
    }
    assert(!exit_target(s8.edges, header)) by {
        lemma_targets_push(s4.edges, (header, after, CfgEdge::FalseBranch), header);
        lemma_targets_push(s6.edges, (header, body, CfgEdge::TrueBranch), header);
    }
    assert(!continue_target(s2.edges, after)) by {
        lemma_targets_push(s1.edges, (prev, header, CfgEdge::Fallthrough), after);
    }
    assert(!continue_target(s8.edges, after)) by {
        lemma_targets_push(s4.edges, (header, after, CfgEdge::FalseBranch), after);
        lemma_targets_push(s6.edges, (header, body, CfgEdge::TrueBranch), after);
    }
    assert(!loop_brk(s8, header)) by {
        if loop_brk(s8, header) {
            let i = choose|i: int| 0 <= i < s8.loops.len() && (#[trigger] s8.loops[i]).1 == header;
            assert(s0.loops[i] == s8.loops[i]);
        }
    }
    assert(!loop_cont(s8, after)) by {
        if loop_cont(s8, after) {
            let i = choose|i: int| 0 <= i < s8.loops.len() && (#[trigger] s8.loops[i]).0 == after;
            assert(s0.loops[i] == s8.loops[i]);
        }
    }
    lemma_push_ok(s8, header, after);
}

/// An unconditional loop pushes its header and its after block.
proof fn lemma_uncond_prep_ok(t: TreeModel, st: CfgState, u: int)
    requires
        jumps_ok(st),
        st.blocks.len() + 2 < usize::MAX,
    ensures
        jumps_ok(uncond_prep(t, st, u)),
        uncond_prep(t, st, u).loops == st.loops.push((next_id(st), id_plus(st, 1))),
        uncond_prep(t, st, u).blocks.len() == st.blocks.len() + 2,
{
    let prev = st.current;
    let header = next_id(st);
    let s1 = new_block(st, start_of(t, u));
    lemma_new_block_ok(st, start_of(t, u));
    lemma_join_ok(s1, prev, header, CfgEdge::Fallthrough);
    let s2 = join(s1, prev, header, CfgEdge::Fallthrough);
    let after = next_id(s2);
    let s3 = new_block(s2, end_of(t, u));
    lemma_new_block_ok(s2, end_of(t, u));
    lemma_with_current_ok(s3, header);
    let s4 = with_current(s3, header);
    assert(!exit_target(s2.edges, header)) by {
        lemma_targets_push(s1.edges, (prev, header, CfgEdge::Fallthrough), header);
    }
    assert(!loop_brk(s4, header)) by {
        if loop_brk(s4, header) {
            let i = choose|i: int| 0 <= i < s4.loops.len() && (#[trigger] s4.loops[i]).1 == header;
            assert(st.loops[i] == s4.loops[i]);
        }
    }
    assert(!loop_cont(s4, after)) by {
        if loop_cont(s4, after) {
            let i = choose|i: int| 0 <= i < s4.loops.len() && (#[trigger] s4.loops[i]).0 == after;
            assert(st.loops[i] == s4.loops[i]);
        }
    }
    lemma_push_ok(s4, header, after);
}

/// A `do … while` pushes its footer and its after block.
proof fn lemma_do_prep_ok(t: TreeModel, st: CfgState, u: int)
    requires
        jumps_ok(st),
        st.blocks.len() + 3 < usize::MAX,
    ensures
        jumps_ok(do_prep(t, st, u)),
        do_prep(t, st, u).loops == st.loops.push((id_plus(st, 1), id_plus(st, 2))),
        do_prep(t, st, u).blocks.len() == st.blocks.len() + 3,
{
    let prev = st.current;
    let body = next_id(st);
    let s1 = new_block(st, start_of(t, u));
    lemma_new_block_ok(st, start_of(t, u));
    lemma_join_ok(s1, prev, body, CfgEdge::Fallthrough);
    let s2 = join(s1, prev, body, CfgEdge::Fallthrough);
    let footer = next_id(s2);
    let s3 = new_block(s2, end_of(t, u));
    lemma_new_block_ok(s2, end_of(t, u));
    let after = next_id(s3);
    let s4 = new_block(s3, end_of(t, u));
    lemma_new_block_ok(s3, end_of(t, u));
    lemma_with_current_ok(s4, body);
    let s5 = with_current(s4, body);
    assert(!loop_brk(s5, footer)) by {
        if loop_brk(s5, footer) {
            let i = choose|i: int| 0 <= i < s5.loops.len() && (#[trigger] s5.loops[i]).1 == footer;
            assert(st.loops[i] == s5.loops[i]);
        }
    }
    assert(!loop_cont(s5, after)) by {
        if loop_cont(s5, after) {
            let i = choose|i: int| 0 <= i < s5.loops.len() && (#[trigger] s5.loops[i]).0 == after;
            assert(st.loops[i] == s5.loops[i]);
        }
    }
    lemma_push_ok(s5, footer, after);
}

proof fn lemma_after_while_ok(st: CfgState, header: usize, after: usize)
    requires
        jumps_ok(st),
        header < st.blocks.len(),
        after < st.blocks.len(),
    ensures
        jumps_ok(after_while(st, header, after)),
        after_while(st, header, after).loops == pop_loop(st).loops,
        after_while(st, header, after).blocks.len() == st.blocks.len(),
{
    let s1 = pop_loop(st);
    lemma_pop_ok(st);
    lemma_join_ok(s1, s1.current, header, CfgEdge::BackEdge);
    lemma_with_current_ok(join(s1, s1.current, header, CfgEdge::BackEdge), after);
}

proof fn lemma_after_for_ok(t: TreeModel, st: CfgState, f: int, header: usize, after: usize)
    requires
        jumps_ok(st),
        header < st.blocks.len(),
        after < st.blocks.len(),
    ensures
        jumps_ok(after_for(t, st, f, header, after)),
        after_for(t, st, f, header, after).loops == pop_loop(st).loops,
        after_for(t, st, f, header, after).blocks.len() == st.blocks.len(),
{
    let s1 = pop_loop(st);
    lemma_pop_ok(st);
    let s2 = match t.field_child(f, "update"@) {
        Some(upd) => if !s1.terminated[s1.current as int] {
            lemma_append_ok(s1, start_of(t, upd), end_of(t, upd));
            append_stmt(s1, start_of(t, upd), end_of(t, upd))
        } else {
            s1
        },
        None => s1,
    };
    lemma_join_ok(s2, s2.current, header, CfgEdge::BackEdge);
    lemma_with_current_ok(join(s2, s2.current, header, CfgEdge::BackEdge), after);
}

proof fn lemma_after_do_ok(t: TreeModel, st: CfgState, d: int, body_start: usize, footer: usize, after: usize)
    requires
        jumps_ok(st),
        st.loops.len() > 0,
        st.loops.last() == (footer, after),
        body_start < st.blocks.len(),
    ensures
        jumps_ok(after_do(t, st, d, body_start, footer, after)),
        after_do(t, st, d, body_start, footer, after).loops == st.loops.drop_last(),
        after_do(t, st, d, body_start, footer, after).blocks.len() == st.blocks.len(),
{
    assert(st.loops[st.loops.len() - 1] == (footer, after));
    assert(loop_brk(st, after));
    assert(!loop_cont(st, after));
    assert(!continue_target(st.edges, after));
    let s1 = pop_loop(st);
    lemma_pop_ok(st);
    assert(!loop_cont(s1, after)) by {
        if loop_cont(s1, after) {
            let i = choose|i: int| 0 <= i < s1.loops.len() && (#[trigger] s1.loops[i]).0 == after;
            assert(st.loops[i] == s1.loops[i]);
        }
    }
    lemma_join_ok(s1, s1.current, footer, CfgEdge::Fallthrough);
    let s2 = join(s1, s1.current, footer, CfgEdge::Fallthrough);
    lemma_set_cond_ok(t, s2, footer, d, "condition"@);
    let s3 = set_cond(t, s2, footer, d, "condition"@);
    lemma_add_edge_ok(s3, footer, body_start, CfgEdge::BackEdge);
    let s4 = add_edge(s3, footer, body_start, CfgEdge::BackEdge);
    assert(!continue_target(s2.edges, after)) by {
        lemma_targets_push(s1.edges, (s1.current, footer, CfgEdge::Fallthrough), after);
    }
    assert(!continue_target(s4.edges, after)) by {
        lemma_targets_push(s3.edges, (footer, body_start, CfgEdge::BackEdge), after);
    }
    lemma_add_edge_ok(s4, footer, after, CfgEdge::FalseBranch);
    lemma_with_current_ok(add_edge(s4, footer, after, CfgEdge::FalseBranch), after);
}


proof fn lemma_visit_grows(t: TreeModel, sh: Shapes, st: CfgState, n: int)
    requires
        t.wf(),
        t.valid(n),
        st.current < st.blocks.len(),
    ensures
        visit(t, sh, st, n).blocks.len() >= st.blocks.len(),
        visit(t, sh, st, n).current < visit(t, sh, st, n).blocks.len(),
    decreases t.end(n) - n, 3int, 0int,
{
    lemma_unwrap(t, sh, false, n);
    let u = unwrap(t, sh, false, n);
    match kind_class(sh, t.kind(u)) {
        KindClass::Block => lemma_children_grows(t, sh, st, u, 0),
        KindClass::If => {
            let s1 = if_prep(t, st, u);
            lemma_field_grows(t, sh, s1, u, "consequence"@);
            lemma_after_if_true_grows(t, sh, visit_field(t, sh, s1, u, "consequence"@), u, st.current);
        },
        KindClass::While => {
            let s1 = loop_prep(t, st, u, false);
            assert(s1.blocks.len() == st.blocks.len() + 3);
            lemma_field_grows(t, sh, s1, u, "body"@);
        },
        KindClass::For => {
            let s1 = loop_prep(t, st, u, true);
            assert(s1.blocks.len() == st.blocks.len() + 3);
            lemma_field_grows(t, sh, s1, u, "body"@);
            let s2 = pop_loop(visit_field(t, sh, s1, u, "body"@));
            if let Some(upd) = t.field_child(u, "update"@) {
                if !s2.terminated[s2.current as int] {
                    assert(append_stmt(s2, start_of(t, upd), end_of(t, upd)).blocks.len() == s2.blocks.len());
                }
            }
        },
        KindClass::Loop => {
            let s1 = uncond_prep(t, st, u);
            assert(s1.blocks.len() == st.blocks.len() + 2);
            lemma_field_grows(t, sh, s1, u, "body"@);
        },
        KindClass::DoWhile => {
            let s1 = do_prep(t, st, u);
            assert(s1.blocks.len() == st.blocks.len() + 3);
            lemma_field_grows(t, sh, s1, u, "body"@);
        },
        KindClass::Return => {
            assert(append_stmt(st, start_of(t, u), end_of(t, u)).blocks.len() == st.blocks.len());
        },
        KindClass::Break => {
            assert(append_stmt(st, start_of(t, u), end_of(t, u)).blocks.len() == st.blocks.len());
        },
        KindClass::Continue => {
            assert(append_stmt(st, start_of(t, u), end_of(t, u)).blocks.len() == st.blocks.len());
        },
        KindClass::Other => {},
    }
}

proof fn lemma_field_grows(t: TreeModel, sh: Shapes, st: CfgState, n: int, field: Seq<char>)
    requires
        t.wf(),
        t.valid(n),
        st.current < st.blocks.len(),
    ensures
        visit_field(t, sh, st, n, field).blocks.len() >= st.blocks.len(),
        visit_field(t, sh, st, n, field).current < visit_field(t, sh, st, n, field).blocks.len(),
    decreases t.end(n) - n, 0int, 0int,
{
    lemma_field_child_nested(t, n, field, 0);
    if let Some(c) = t.field_child(n, field) {
        lemma_visit_grows(t, sh, st, c);
    }
}

proof fn lemma_after_if_true_grows(t: TreeModel, sh: Shapes, st: CfgState, u: int, header: usize)
    requires
        t.wf(),
        t.valid(u),
        st.current < st.blocks.len(),
    ensures
        after_if_true(t, sh, st, u, header).blocks.len() >= st.blocks.len() + 2,
        after_if_true(t, sh, st, u, header).current < after_if_true(t, sh, st, u, header).blocks.len(),
    decreases t.end(u) - u, 2int, 0int,
{
    let fs = next_id(st);
    let s1 = new_block(st, start_of(t, u));
    let s2 = add_edge(s1, header, fs, CfgEdge::FalseBranch);
    let s3 = with_current(s2, fs);
    lemma_field_child_nested(t, u, "alternative"@, 0);
    if let Some(a) = t.field_child(u, "alternative"@) {
        lemma_unwrap(t, sh, true, a);
        lemma_visit_grows(t, sh, s3, unwrap(t, sh, true, a));
    }
}

proof fn lemma_children_grows(t: TreeModel, sh: Shapes, st: CfgState, u: int, k: int)
    requires
        t.wf(),
        t.valid(u),
        k >= 0,
        st.current < st.blocks.len(),
    ensures
        visit_children(t, sh, st, u, k).blocks.len() >= st.blocks.len(),
        visit_children(t, sh, st, u, k).current < visit_children(t, sh, st, u, k).blocks.len(),
    decreases t.end(u) - u, 1int, t.children(u).len() - k,
{
    if k < t.children(u).len() {
        lemma_child_nested(t, u, k);
        let c = t.children(u)[k] as int;
        if t.nodes[c].named {
            lemma_visit_grows(t, sh, st, c);
            lemma_children_grows(t, sh, visit(t, sh, st, c), u, k + 1);
        } else {
            lemma_children_grows(t, sh, st, u, k + 1);
        }
    }
}

proof fn lemma_visit_jumps(t: TreeModel, sh: Shapes, st: CfgState, n: int)
    requires
        t.wf(),
        t.valid(n),
        jumps_ok(st),
        visit(t, sh, st, n).blocks.len() < usize::MAX,
    ensures
        jumps_ok(visit(t, sh, st, n)),
        visit(t, sh, st, n).loops == st.loops,
    decreases t.end(n) - n, 3int, 0int,
{
    lemma_unwrap(t, sh, false, n);
    let u = unwrap(t, sh, false, n);
    match kind_class(sh, t.kind(u)) {
        KindClass::Block => lemma_children_jumps(t, sh, st, u, 0),
        KindClass::If => {
            let s1 = if_prep(t, st, u);
            lemma_field_grows(t, sh, s1, u, "consequence"@);
            let vf = visit_field(t, sh, s1, u, "consequence"@);
            lemma_after_if_true_grows(t, sh, vf, u, st.current);
            lemma_if_prep_ok(t, st, u);
            lemma_field_jumps(t, sh, s1, u, "consequence"@);
            lemma_after_if_true_jumps(t, sh, vf, u, st.current);
        },
        KindClass::While => {
            let s1 = loop_prep(t, st, u, false);
            lemma_field_grows(t, sh, s1, u, "body"@);
            let vf = visit_field(t, sh, s1, u, "body"@);
            assert(after_while(vf, next_id(st), id_plus(st, 1)).blocks.len() == vf.blocks.len());
            lemma_loop_prep_ok(t, st, u, false);
            lemma_field_jumps(t, sh, s1, u, "body"@);
            lemma_after_while_ok(vf, next_id(st), id_plus(st, 1));
            assert(st.loops.push((next_id(st), id_plus(st, 1))).drop_last() =~= st.loops);
        },
        KindClass::For => {
            let s1 = loop_prep(t, st, u, true);
            lemma_field_grows(t, sh, s1, u, "body"@);
            let vf = visit_field(t, sh, s1, u, "body"@);
            lemma_loop_prep_ok(t, st, u, true);
            lemma_field_jumps(t, sh, s1, u, "body"@);
            lemma_after_for_ok(t, vf, u, next_id(st), id_plus(st, 1));
            assert(st.loops.push((next_id(st), id_plus(st, 1))).drop_last() =~= st.loops);
        },
        KindClass::Loop => {
            let s1 = uncond_prep(t, st, u);
            lemma_field_grows(t, sh, s1, u, "body"@);
            let vf = visit_field(t, sh, s1, u, "body"@);
            assert(after_while(vf, next_id(st), id_plus(st, 1)).blocks.len() == vf.blocks.len());
            lemma_uncond_prep_ok(t, st, u);
            lemma_field_jumps(t, sh, s1, u, "body"@);
            lemma_after_while_ok(vf, next_id(st), id_plus(st, 1));
            assert(st.loops.push((next_id(st), id_plus(st, 1))).drop_last() =~= st.loops);
        },
        KindClass::DoWhile => {
            let s1 = do_prep(t, st, u);
            lemma_field_grows(t, sh, s1, u, "body"@);
            let vf = visit_field(t, sh, s1, u, "body"@);
            lemma_do_prep_ok(t, st, u);
            lemma_field_jumps(t, sh, s1, u, "body"@);
            assert(vf.loops.last() == (id_plus(st, 1), id_plus(st, 2)));
            lemma_after_do_ok(t, vf, u, next_id(st), id_plus(st, 1), id_plus(st, 2));
            assert(st.loops.push((id_plus(st, 1), id_plus(st, 2))).drop_last() =~= st.loops);
        },
        KindClass::Return => lemma_on_return_ok(t, st, u),
        KindClass::Break => lemma_on_jump_ok(t, st, u, true),
        KindClass::Continue => lemma_on_jump_ok(t, st, u, false),
        KindClass::Other => lemma_append_ok(st, start_of(t, u), end_of(t, u)),
    }
}

proof fn lemma_field_jumps(t: TreeModel, sh: Shapes, st: CfgState, n: int, field: Seq<char>)
    requires
        t.wf(),
        t.valid(n),
        jumps_ok(st),
        visit_field(t, sh, st, n, field).blocks.len() < usize::MAX,
    ensures
        jumps_ok(visit_field(t, sh, st, n, field)),
        visit_field(t, sh, st, n, field).loops == st.loops,
    decreases t.end(n) - n, 0int, 0int,
{
    lemma_field_child_nested(t, n, field, 0);
    if let Some(c) = t.field_child(n, field) {
        lemma_visit_jumps(t, sh, st, c);
    }
}

proof fn lemma_after_if_true_jumps(t: TreeModel, sh: Shapes, st: CfgState, u: int, header: usize)
    requires
        t.wf(),
        t.valid(u),
        jumps_ok(st),
        header < st.blocks.len(),
        after_if_true(t, sh, st, u, header).blocks.len() < usize::MAX,
    ensures
        jumps_ok(after_if_true(t, sh, st, u, header)),
        after_if_true(t, sh, st, u, header).loops == st.loops,
    decreases t.end(u) - u, 2int, 0int,
{
    lemma_after_if_true_grows(t, sh, st, u, header);
    let true_end = st.current;
    let fs = next_id(st);
    let s1 = new_block(st, start_of(t, u));
    lemma_new_block_ok(st, start_of(t, u));
    lemma_add_edge_ok(s1, header, fs, CfgEdge::FalseBranch);
    let s2 = add_edge(s1, header, fs, CfgEdge::FalseBranch);
    lemma_with_current_ok(s2, fs);
    let s3 = with_current(s2, fs);
    lemma_field_child_nested(t, u, "alternative"@, 0);
    let s4 = match t.field_child(u, "alternative"@) {
        Some(a) => {
            lemma_unwrap(t, sh, true, a);
            let v = unwrap(t, sh, true, a);
            lemma_visit_grows(t, sh, s3, v);
            assert(after_if_false(t, visit(t, sh, s3, v), u, true_end).blocks.len()
                == visit(t, sh, s3, v).blocks.len() + 1);
            lemma_visit_jumps(t, sh, s3, v);
            visit(t, sh, s3, v)
        },
        None => s3,
    };
    assert(after_if_false(t, s4, u, true_end).blocks.len() == s4.blocks.len() + 1);
    lemma_after_if_false_ok(t, s4, u, true_end);
}

proof fn lemma_children_jumps(t: TreeModel, sh: Shapes, st: CfgState, u: int, k: int)
    requires
        t.wf(),
        t.valid(u),
        k >= 0,
        jumps_ok(st),
        visit_children(t, sh, st, u, k).blocks.len() < usize::MAX,
    ensures
        jumps_ok(visit_children(t, sh, st, u, k)),
        visit_children(t, sh, st, u, k).loops == st.loops,
    decreases t.end(u) - u, 1int, t.children(u).len() - k,
{
    if k < t.children(u).len() {
        lemma_child_nested(t, u, k);
        let c = t.children(u)[k] as int;
        if t.nodes[c].named {
            lemma_visit_grows(t, sh, st, c);
            lemma_children_grows(t, sh, visit(t, sh, st, c), u, k + 1);
            lemma_visit_jumps(t, sh, st, c);
            lemma_children_jumps(t, sh, visit(t, sh, st, c), u, k + 1);
        } else {
            lemma_children_jumps(t, sh, st, u, k + 1);
        }
    }
}

/// In the graph built for a function body, no block is entered both by a
/// `Continue` edge and by a `FalseBranch` or `Break` edge: a `continue`
/// jumps to its loop's header (for `do … while`, the condition footer),
/// never to a block that the loop's condition or a `break` leaves the loop
/// for. (The bound on the block count is the machine's: block ids are
/// `usize`.)
pub proof fn continue_never_enters_a_loop_exit(t: TreeModel, sh: Shapes, body: int)
    requires
        t.wf(),
        t.valid(body),
        function_state(t, sh, body).blocks.len() < usize::MAX,
    ensures
        forall|i: int, j: int|
            #![trigger function_state(t, sh, body).edges[i], function_state(t, sh, body).edges[j]]
            0 <= i < function_state(t, sh, body).edges.len() && 0 <= j < function_state(t, sh, body).edges.len()
                && function_state(t, sh, body).edges[i].2 == CfgEdge::Continue && (function_state(
                t,
                sh,
                body,
            ).edges[j].2 == CfgEdge::FalseBranch || function_state(t, sh, body).edges[j].2 == CfgEdge::Break)
                ==> function_state(t, sh, body).edges[i].1 != function_state(t, sh, body).edges[j].1,
{
    let st0 = initial_state(start_of(t, body));
    assert forall|b: usize| #[trigger] loop_cont(st0, b) implies false by {}
    assert forall|b: usize| #[trigger] loop_brk(st0, b) implies false by {}
    assert forall|b: usize| #[trigger] continue_target(st0.edges, b) implies false by {}
    assert(jumps_ok(st0));
    lemma_visit_jumps(t, sh, st0, body);
    let e = function_state(t, sh, body).edges;
    assert forall|i: int, j: int|
        0 <= i < e.len() && 0 <= j < e.len() && #[trigger] e[i].2 == CfgEdge::Continue && (#[trigger] e[j].2
            == CfgEdge::FalseBranch || e[j].2 == CfgEdge::Break) implies e[i].1 != e[j].1 by {
        if e[i].1 == e[j].1 {
            assert(continue_target(e, e[i].1));
            assert(exit_edge(e[j].2));
            assert(exit_target(e, e[i].1));
        }
    }
}

/// Every `Continue` edge of `r` that `a` lacks enters the innermost loop
/// target of `a` or a block that `a` does not have yet.
pub open spec fn continues_from(a: CfgState, r: CfgState) -> bool {
    forall|x: (usize, usize, CfgEdge)|
        #[trigger] r.edges.contains(x) && x.2 == CfgEdge::Continue && !a.edges.contains(x) ==> (a.loops.len() > 0
            && x.1 == a.loops.last().0) || x.1 >= a.blocks.len()
}

/// `r` has no `Continue` edge that `a` lacks.
pub open spec fn no_new_continue(a: CfgState, r: CfgState) -> bool {
    forall|x: (usize, usize, CfgEdge)| #[trigger] r.edges.contains(x) && x.2 == CfgEdge::Continue ==> a.edges.contains(x)
}

proof fn lemma_add_edge_edges(st: CfgState, from: usize, to: usize, e: CfgEdge)
    ensures
        forall|x: (usize, usize, CfgEdge)|
            #[trigger] add_edge(st, from, to, e).edges.contains(x) ==> st.edges.contains(x) || x == (from, to, e),
        forall|x: (usize, usize, CfgEdge)|
            #[trigger] join(st, from, to, e).edges.contains(x) ==> st.edges.contains(x) || x == (from, to, e),
{
    let r = add_edge(st, from, to, e);
    assert forall|x: (usize, usize, CfgEdge)| #[trigger] r.edges.contains(x) implies st.edges.contains(x) || x == (
    from, to, e) by {
        if !st.edges.contains((from, to, e)) {
            let i = choose|i: int| 0 <= i < r.edges.len() && r.edges[i] == x;
            if i < st.edges.len() {
                assert(st.edges[i] == x);
            }
        }
    }
}

proof fn lemma_compose_continues(a: CfgState, b: CfgState, c: CfgState)
    requires
        continues_from(a, b),
        continues_from(b, c),
        b.blocks.len() >= a.blocks.len(),
        b.loops.len() > 0 ==> (a.loops.len() > 0 && b.loops.last().0 == a.loops.last().0) || b.loops.last().0
            >= a.blocks.len(),
    ensures
        continues_from(a, c),
{
    assert forall|x: (usize, usize, CfgEdge)|
        #[trigger] c.edges.contains(x) && x.2 == CfgEdge::Continue && !a.edges.contains(x) implies (a.loops.len() > 0
            && x.1 == a.loops.last().0) || x.1 >= a.blocks.len() by {
        if b.edges.contains(x) {
        }
    }
}

proof fn lemma_then_no_new(a: CfgState, b: CfgState, c: CfgState)
    requires
        continues_from(a, b),
        no_new_continue(b, c),
    ensures
        continues_from(a, c),
{
    assert forall|x: (usize, usize, CfgEdge)|
        #[trigger] c.edges.contains(x) && x.2 == CfgEdge::Continue && !a.edges.contains(x) implies (a.loops.len() > 0
            && x.1 == a.loops.last().0) || x.1 >= a.blocks.len() by {
        assert(b.edges.contains(x));
    }
}

proof fn lemma_loop_prep_no_continue(t: TreeModel, st: CfgState, u: int, with_init: bool)
    ensures
        no_new_continue(st, loop_prep(t, st, u, with_init)),
{
    let s0 = if with_init {
        match t.field_child(u, "initializer"@) {
            Some(init) => append_stmt(st, start_of(t, init), end_of(t, init)),
            None => st,
        }
    } else {
        st
    };
    let prev = s0.current;
    let header = next_id(s0);
    let l1 = new_block(s0, start_of(t, u));
    lemma_add_edge_edges(l1, prev, header, CfgEdge::Fallthrough);
    let l2 = join(l1, prev, header, CfgEdge::Fallthrough);
    let l3 = set_cond(t, l2, header, u, "condition"@);
    let after = next_id(l3);
    let l4 = new_block(l3, end_of(t, u));
    lemma_add_edge_edges(l4, header, after, CfgEdge::FalseBranch);
    let l5 = add_edge(l4, header, after, CfgEdge::FalseBranch);
    let body = next_id(l5);
    let l6 = new_block(l5, start_of(t, u));
    lemma_add_edge_edges(l6, header, body, CfgEdge::TrueBranch);
}

/// The construct steps around the visits add no `Continue` edge.
proof fn lemma_steps_no_continue(t: TreeModel, st: CfgState, u: int, h: usize, a: usize, b: usize)
    ensures
        no_new_continue(st, if_prep(t, st, u)),
        no_new_continue(st, loop_prep(t, st, u, false)),
        no_new_continue(st, loop_prep(t, st, u, true)),
        no_new_continue(st, uncond_prep(t, st, u)),
        no_new_continue(st, do_prep(t, st, u)),
        no_new_continue(st, after_if_false(t, st, u, h)),
        no_new_continue(st, after_while(st, h, a)),
        no_new_continue(st, after_for(t, st, u, h, a)),
        no_new_continue(st, after_do(t, st, u, h, a, b)),
        no_new_continue(st, on_return(t, st, u)),
        no_new_continue(st, append_stmt(st, start_of(t, u), end_of(t, u))),
{
    // if_prep
    let s1 = set_cond(t, st, st.current, u, "condition"@);
    let s2 = new_block(s1, start_of(t, u));
    lemma_add_edge_edges(s2, st.current, next_id(s1), CfgEdge::TrueBranch);
    lemma_loop_prep_no_continue(t, st, u, false);
    lemma_loop_prep_no_continue(t, st, u, true);
    // uncond_prep
    let p1 = new_block(st, start_of(t, u));
    lemma_add_edge_edges(p1, st.current, next_id(st), CfgEdge::Fallthrough);
    // do_prep
    lemma_add_edge_edges(p1, st.current, next_id(st), CfgEdge::Fallthrough);
    // after_if_false
    let j1 = new_block(st, end_of(t, u));
    lemma_add_edge_edges(j1, h, next_id(st), CfgEdge::Fallthrough);
    let j2 = join(j1, h, next_id(st), CfgEdge::Fallthrough);
    lemma_add_edge_edges(j2, st.current, next_id(st), CfgEdge::Fallthrough);
    // after_while
    let w1 = pop_loop(st);
    lemma_add_edge_edges(w1, w1.current, h, CfgEdge::BackEdge);
    // after_for
    let f2 = match t.field_child(u, "update"@) {
        Some(upd) => if !w1.terminated[w1.current as int] {
            append_stmt(w1, start_of(t, upd), end_of(t, upd))
        } else {
            w1
        },
        None => w1,
    };
    lemma_add_edge_edges(f2, f2.current, h, CfgEdge::BackEdge);
    // after_do
    lemma_add_edge_edges(w1, w1.current, a, CfgEdge::Fallthrough);
    let d2 = join(w1, w1.current, a, CfgEdge::Fallthrough);
    let d3 = set_cond(t, d2, a, u, "condition"@);
    lemma_add_edge_edges(d3, a, h, CfgEdge::BackEdge);
    let d4 = add_edge(d3, a, h, CfgEdge::BackEdge);
    lemma_add_edge_edges(d4, a, b, CfgEdge::FalseBranch);
    // on_return
    let r1 = append_stmt(st, start_of(t, u), end_of(t, u));
    let r2 = new_block(r1, end_of(t, u));
    lemma_add_edge_edges(r2, r2.current, next_id(r1), CfgEdge::Return);
}

proof fn lemma_no_new_continues(a: CfgState, b: CfgState)
    requires
        no_new_continue(a, b),
    ensures
        continues_from(a, b),
{
}

#[verifier::rlimit(60)]
#[verifier::spinoff_prover]
proof fn lemma_visit_continues(t: TreeModel, sh: Shapes, st: CfgState, n: int)
    requires
        t.wf(),
        t.valid(n),
        st.current < st.blocks.len(),
        visit(t, sh, st, n).blocks.len() < usize::MAX,
    ensures
        continues_from(st, visit(t, sh, st, n)),
        visit(t, sh, st, n).loops == st.loops,
    decreases t.end(n) - n, 3int, 0int,
{
    lemma_unwrap(t, sh, false, n);
    let u = unwrap(t, sh, false, n);
    let h = next_id(st);
    match kind_class(sh, t.kind(u)) {
        KindClass::Block => lemma_children_continues(t, sh, st, u, 0),
        KindClass::If => {
            let s1 = if_prep(t, st, u);
            lemma_field_grows(t, sh, s1, u, "consequence"@);
            let vf = visit_field(t, sh, s1, u, "consequence"@);
            lemma_after_if_true_grows(t, sh, vf, u, st.current);
            lemma_steps_no_continue(t, st, u, 0, 0, 0);
            lemma_no_new_continues(st, s1);
            lemma_field_continues(t, sh, s1, u, "consequence"@);
            lemma_compose_continues(st, s1, vf);
            lemma_after_if_true_continues(t, sh, vf, u, st.current);
            lemma_compose_continues(st, vf, visit(t, sh, st, n));
        },
        KindClass::While => {
            let s1 = loop_prep(t, st, u, false);
            lemma_field_grows(t, sh, s1, u, "body"@);
            let vf = visit_field(t, sh, s1, u, "body"@);
            assert(after_while(vf, h, id_plus(st, 1)).blocks.len() == vf.blocks.len());
            lemma_steps_no_continue(t, st, u, 0, 0, 0);
            lemma_no_new_continues(st, s1);
            lemma_field_continues(t, sh, s1, u, "body"@);
            assert(s1.loops == st.loops.push((h, id_plus(st, 1))));
            lemma_compose_continues(st, s1, vf);
            lemma_steps_no_continue(t, vf, u, h, id_plus(st, 1), 0);
            lemma_then_no_new(st, vf, visit(t, sh, st, n));
            assert(st.loops.push((h, id_plus(st, 1))).drop_last() =~= st.loops);
        },
        KindClass::For => {
            let s1 = loop_prep(t, st, u, true);
            lemma_field_grows(t, sh, s1, u, "body"@);
            let vf = visit_field(t, sh, s1, u, "body"@);
            lemma_steps_no_continue(t, st, u, 0, 0, 0);
            lemma_no_new_continues(st, s1);
            lemma_field_continues(t, sh, s1, u, "body"@);
            assert(s1.loops == st.loops.push((h, id_plus(st, 1))));
            lemma_compose_continues(st, s1, vf);
            lemma_steps_no_continue(t, vf, u, h, id_plus(st, 1), 0);
            lemma_then_no_new(st, vf, visit(t, sh, st, n));
            assert(st.loops.push((h, id_plus(st, 1))).drop_last() =~= st.loops);
        },
        KindClass::Loop => {
            let s1 = uncond_prep(t, st, u);
            lemma_field_grows(t, sh, s1, u, "body"@);
            let vf = visit_field(t, sh, s1, u, "body"@);
            assert(after_while(vf, h, id_plus(st, 1)).blocks.len() == vf.blocks.len());
            lemma_steps_no_continue(t, st, u, 0, 0, 0);
            lemma_no_new_continues(st, s1);
            lemma_field_continues(t, sh, s1, u, "body"@);
            assert(s1.loops == st.loops.push((h, id_plus(st, 1))));
            lemma_compose_continues(st, s1, vf);
            lemma_steps_no_continue(t, vf, u, h, id_plus(st, 1), 0);
            lemma_then_no_new(st, vf, visit(t, sh, st, n));
            assert(st.loops.push((h, id_plus(st, 1))).drop_last() =~= st.loops);
        },
        KindClass::DoWhile => {
            let s1 = do_prep(t, st, u);
            lemma_field_grows(t, sh, s1, u, "body"@);
            let vf = visit_field(t, sh, s1, u, "body"@);
            lemma_steps_no_continue(t, st, u, 0, 0, 0);
            lemma_no_new_continues(st, s1);
            lemma_field_continues(t, sh, s1, u, "body"@);
            assert(s1.loops == st.loops.push((id_plus(st, 1), id_plus(st, 2))));
            lemma_compose_continues(st, s1, vf);
            lemma_steps_no_continue(t, vf, u, h, id_plus(st, 1), id_plus(st, 2));
            lemma_then_no_new(st, vf, visit(t, sh, st, n));
            assert(st.loops.push((id_plus(st, 1), id_plus(st, 2))).drop_last() =~= st.loops);
        },
        KindClass::Return => {
            lemma_steps_no_continue(t, st, u, 0, 0, 0);
            lemma_no_new_continues(st, on_return(t, st, u));
        },
        KindClass::Break => {
            let s1 = append_stmt(st, start_of(t, u), end_of(t, u));
            if s1.loops.len() > 0 {
                lemma_add_edge_edges(s1, s1.current, s1.loops.last().1, CfgEdge::Break);
            }
        },
        KindClass::Continue => {
            let s1 = append_stmt(st, start_of(t, u), end_of(t, u));
            if s1.loops.len() > 0 {
                lemma_add_edge_edges(s1, s1.current, s1.loops.last().0, CfgEdge::Continue);
            }
        },
        KindClass::Other => {
            lemma_steps_no_continue(t, st, u, 0, 0, 0);
            lemma_no_new_continues(st, append_stmt(st, start_of(t, u), end_of(t, u)));
        },
    }
}

proof fn lemma_field_continues(t: TreeModel, sh: Shapes, st: CfgState, n: int, field: Seq<char>)
    requires
        t.wf(),
        t.valid(n),
        st.current < st.blocks.len(),
        visit_field(t, sh, st, n, field).blocks.len() < usize::MAX,
    ensures
        continues_from(st, visit_field(t, sh, st, n, field)),
        visit_field(t, sh, st, n, field).loops == st.loops,
    decreases t.end(n) - n, 0int, 0int,
{
    lemma_field_child_nested(t, n, field, 0);
    if let Some(c) = t.field_child(n, field) {
        lemma_visit_continues(t, sh, st, c);
    }
}

proof fn lemma_after_if_true_continues(t: TreeModel, sh: Shapes, st: CfgState, u: int, header: usize)
    requires
        t.wf(),
        t.valid(u),
        st.current < st.blocks.len(),
        after_if_true(t, sh, st, u, header).blocks.len() < usize::MAX,
    ensures
        continues_from(st, after_if_true(t, sh, st, u, header)),
        after_if_true(t, sh, st, u, header).loops == st.loops,
    decreases t.end(u) - u, 2int, 0int,
{
    lemma_after_if_true_grows(t, sh, st, u, header);
    let true_end = st.current;
    let fs = next_id(st);
    let s1 = new_block(st, start_of(t, u));
    lemma_add_edge_edges(s1, header, fs, CfgEdge::FalseBranch);
    let s2 = add_edge(s1, header, fs, CfgEdge::FalseBranch);
    let s3 = with_current(s2, fs);
    assert(no_new_continue(st, s3));
    lemma_no_new_continues(st, s3);
    lemma_field_child_nested(t, u, "alternative"@, 0);
    let s4 = match t.field_child(u, "alternative"@) {
        Some(a) => {
            lemma_unwrap(t, sh, true, a);
            let v = unwrap(t, sh, true, a);
            lemma_visit_grows(t, sh, s3, v);
            assert(after_if_false(t, visit(t, sh, s3, v), u, true_end).blocks.len()
                == visit(t, sh, s3, v).blocks.len() + 1);
            lemma_visit_continues(t, sh, s3, v);
            lemma_compose_continues(st, s3, visit(t, sh, s3, v));
            visit(t, sh, s3, v)
        },
        None => s3,
    };
    lemma_steps_no_continue(t, s4, u, true_end, 0, 0);
    lemma_then_no_new(st, s4, after_if_false(t, s4, u, true_end));
}

proof fn lemma_children_continues(t: TreeModel, sh: Shapes, st: CfgState, u: int, k: int)
    requires
        t.wf(),
        t.valid(u),
        k >= 0,
        st.current < st.blocks.len(),
        visit_children(t, sh, st, u, k).blocks.len() < usize::MAX,
    ensures
        continues_from(st, visit_children(t, sh, st, u, k)),
        visit_children(t, sh, st, u, k).loops == st.loops,
    decreases t.end(u) - u, 1int, t.children(u).len() - k,
{
    if k < t.children(u).len() {
        lemma_child_nested(t, u, k);
        let c = t.children(u)[k] as int;
        if t.nodes[c].named {
            let v = visit(t, sh, st, c);
            lemma_visit_grows(t, sh, st, c);
            lemma_children_grows(t, sh, v, u, k + 1);
            lemma_visit_continues(t, sh, st, c);
            lemma_children_continues(t, sh, v, u, k + 1);
            lemma_compose_continues(st, v, visit_children(t, sh, v, u, k + 1));
        } else {
            lemma_children_continues(t, sh, st, u, k + 1);
        }
    } else {
        assert(no_new_continue(st, st));
    }
}

/// The `Continue` edges that building statement `n` from state `st` adds
/// (those of the result that `st` lacks) each enter the continue target of
/// the innermost loop around `n`, or a block created for `n` (the target of
/// a loop inside `n`). When `n` is itself a loop, those edges enter its own
/// continue target (the header of a `while`, `for` or `loop`, the first
/// block created for it; the condition footer of a `do … while`, the
/// second) or a block created for a loop nested in its body: never its
/// after block, which is its break target, nor a block of a loop around it.
/// (The bound on the block count is the machine's: block ids are `usize`.)
pub proof fn continue_enters_the_innermost_loop(t: TreeModel, sh: Shapes, st: CfgState, n: int)
    requires
        t.wf(),
        t.valid(n),
        st.current < st.blocks.len(),
        visit(t, sh, st, n).blocks.len() < usize::MAX,
    ensures
        forall|x: (usize, usize, CfgEdge)|
            #[trigger] visit(t, sh, st, n).edges.contains(x) && x.2 == CfgEdge::Continue && !st.edges.contains(x)
                ==> (st.loops.len() > 0 && x.1 == st.loops.last().0) || x.1 >= st.blocks.len(),
        kind_class(sh, t.kind(unwrap(t, sh, false, n))) == KindClass::While || kind_class(sh, t.kind(unwrap(t, sh, false, n)))
            == KindClass::For ==> forall|x: (usize, usize, CfgEdge)|
            #[trigger] visit(t, sh, st, n).edges.contains(x) && x.2 == CfgEdge::Continue && !st.edges.contains(x)
                ==> x.1 == st.blocks.len() || x.1 >= st.blocks.len() + 3,
        kind_class(sh, t.kind(unwrap(t, sh, false, n))) == KindClass::Loop ==> forall|x: (usize, usize, CfgEdge)|
            #[trigger] visit(t, sh, st, n).edges.contains(x) && x.2 == CfgEdge::Continue && !st.edges.contains(x)
                ==> x.1 == st.blocks.len() || x.1 >= st.blocks.len() + 2,
        kind_class(sh, t.kind(unwrap(t, sh, false, n))) == KindClass::DoWhile ==> forall|x: (usize, usize, CfgEdge)|
            #[trigger] visit(t, sh, st, n).edges.contains(x) && x.2 == CfgEdge::Continue && !st.edges.contains(x)
                ==> x.1 == st.blocks.len() + 1 || x.1 >= st.blocks.len() + 3,
{
    lemma_visit_continues(t, sh, st, n);
    lemma_unwrap(t, sh, false, n);
    let u = unwrap(t, sh, false, n);
    let h = next_id(st);
    let k = kind_class(sh, t.kind(u));
    let r = visit(t, sh, st, n);
    if k == KindClass::While || k == KindClass::For || k == KindClass::Loop || k == KindClass::DoWhile {
        let s1 = if k == KindClass::While {
            loop_prep(t, st, u, false)
        } else if k == KindClass::For {
            loop_prep(t, st, u, true)
        } else if k == KindClass::Loop {
            uncond_prep(t, st, u)
        } else {
            do_prep(t, st, u)
        };
        lemma_field_grows(t, sh, s1, u, "body"@);
        let vf = visit_field(t, sh, s1, u, "body"@);
        assert(r.blocks.len() == vf.blocks.len());
        lemma_steps_no_continue(t, st, u, 0, 0, 0);
        lemma_field_continues(t, sh, s1, u, "body"@);
        lemma_steps_no_continue(t, vf, u, h, id_plus(st, 1), id_plus(st, 2));
        assert forall|x: (usize, usize, CfgEdge)|
            #[trigger] r.edges.contains(x) && x.2 == CfgEdge::Continue && !st.edges.contains(x) implies (if k
                == KindClass::DoWhile {
                x.1 == st.blocks.len() + 1
            } else {
                x.1 == st.blocks.len()
            }) || x.1 >= s1.blocks.len() by {
            assert(vf.edges.contains(x));
            assert(!s1.edges.contains(x));
        }
    }
}

} // verus!
