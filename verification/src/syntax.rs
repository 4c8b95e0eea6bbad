//! A parsed syntax tree as plain data: every node of the parse, in
//! pre-order, with its kind, field name, byte and row span, parent, and
//! children. Node `0` is the root; the subtree of node `i` is exactly the
//! index range `i..end(i)`, so pre-order walks are index ranges.

use vstd::prelude::*;
use crate::text::{byte_len, str_eq};

verus! {

/// One node of a [`SyntaxTree`].
#[derive(Clone, Debug)]
pub struct SyntaxNode {
    /// Grammar node kind, e.g. `"if_statement"`.
    pub kind: String,
    /// The field name this node has under its parent, if any.
    pub field: Option<String>,
    /// Whether the node is named (not an anonymous token like `"("`).
    pub named: bool,
    /// Whether the node is, or contains, a syntax error.
    pub has_error: bool,
    /// Start byte offset in the source.
    pub start_byte: usize,
    /// End byte offset in the source.
    pub end_byte: usize,
    /// 0-based row of the first byte.
    pub start_row: usize,
    /// 0-based row of the end position.
    pub end_row: usize,
    /// Index of the parent node; `None` only for the root.
    pub parent: Option<usize>,
    /// One past the last index of this node's subtree.
    pub end: usize,
    /// Indices of the children, in document order.
    pub children: Vec<usize>,
    /// The node's text as a character range of the source, when its byte
    /// span falls on character boundaries.
    pub text: Option<(usize, usize)>,
}

/// The mathematical content of a [`SyntaxTree`].
pub struct TreeModel {
    pub nodes: Seq<SyntaxNode>,
    pub source: Seq<char>,
}

impl TreeModel {
    pub open spec fn len(self) -> int {
        self.nodes.len() as int
    }

    pub open spec fn valid(self, i: int) -> bool {
        0 <= i < self.nodes.len()
    }

    pub open spec fn kind(self, i: int) -> Seq<char> {
        self.nodes[i].kind@
    }

    pub open spec fn end(self, i: int) -> int {
        self.nodes[i].end as int
    }

    pub open spec fn children(self, i: int) -> Seq<usize> {
        self.nodes[i].children@
    }

    /// Structural well-formedness of node `i`: its subtree is an index
    /// range, partitioned by its children's subtrees in order.
    pub open spec fn node_wf(self, i: int) -> bool {
        let n = self.nodes[i];
        &&& i < n.end <= self.nodes.len()
        &&& n.start_row < usize::MAX
        &&& n.end_row < usize::MAX
        &&& (i == 0 <==> n.parent is None)
        &&& (n.parent matches Some(p) ==> p < i && i < self.nodes[p as int].end)
        &&& (n.children@.len() == 0 ==> n.end == i + 1)
        &&& (n.children@.len() > 0 ==> {
            &&& n.children@[0] == i + 1
            &&& self.nodes[n.children@.last() as int].end == n.end
        })
        &&& forall|k: int|
            0 <= k < n.children@.len() ==> {
                let c = #[trigger] n.children@[k] as int;
                &&& i < c < n.end
                &&& self.nodes[c].end <= n.end
                &&& self.nodes[c].parent == Some(i as usize)
                &&& (k + 1 < n.children@.len() ==> n.children@[k + 1] == self.nodes[c].end)
            }
    }

    /// The text span of node `i`, when present, is the character range
    /// whose UTF-8 bytes are exactly the node's byte span; an empty byte
    /// span within the text has an empty character range.
    pub open spec fn span_wf(self, i: int) -> bool {
        let n = self.nodes[i];
        n.text matches Some((a, b)) ==> {
            &&& a <= b <= self.source.len()
            &&& n.start_byte == n.end_byte ==> a == b && n.end_byte <= byte_len(self.source)
            &&& n.start_byte != n.end_byte ==> byte_len(self.source.take(a as int)) == n.start_byte && byte_len(
                self.source.take(b as int),
            ) == n.end_byte
        }
    }

    pub open spec fn wf(self) -> bool {
        &&& self.nodes.len() >= 1
        &&& self.nodes[0].end == self.nodes.len()
        &&& forall|i: int| 0 <= i < self.nodes.len() ==> #[trigger] self.node_wf(i)
        &&& forall|i: int| 0 <= i < self.nodes.len() ==> #[trigger] self.span_wf(i)
    }

    /// The source text of node `i`, when its byte span is a character range.
    pub open spec fn text(self, i: int) -> Option<Seq<char>> {
        match self.nodes[i].text {
            Some((a, b)) => Some(self.source.subrange(a as int, b as int)),
            None => None,
        }
    }

    /// The text of node `i`, or empty when it has none.
    pub open spec fn text_or_empty(self, i: int) -> Seq<char> {
        match self.text(i) {
            Some(t) => t,
            None => Seq::empty(),
        }
    }

    /// The first child of `i` under field `f`, scanning children from
    /// position `k`.
    pub open spec fn field_child_from(self, i: int, f: Seq<char>, k: int) -> Option<int>
        decreases self.children(i).len() - k,
    {
        if k < 0 || k >= self.children(i).len() {
            None
        } else {
            let c = self.children(i)[k] as int;
            if self.nodes[c].field matches Some(name) && name@ == f {
                Some(c)
            } else {
                self.field_child_from(i, f, k + 1)
            }
        }
    }

    /// `Node::child_by_field_name`.
    pub open spec fn field_child(self, i: int, f: Seq<char>) -> Option<int> {
        self.field_child_from(i, f, 0)
    }

    /// The first child of `i` (from position `k`) whose kind is `kind`.
    pub open spec fn kind_child_from(self, i: int, kind: Seq<char>, k: int) -> Option<int>
        decreases self.children(i).len() - k,
    {
        if k < 0 || k >= self.children(i).len() {
            None
        } else if self.kind(self.children(i)[k] as int) == kind {
            Some(self.children(i)[k] as int)
        } else {
            self.kind_child_from(i, kind, k + 1)
        }
    }

    /// The first named child of `i` at or after child position `k`.
    pub open spec fn named_child_from(self, i: int, k: int) -> Option<int>
        decreases self.children(i).len() - k,
    {
        if k < 0 || k >= self.children(i).len() {
            None
        } else if self.nodes[self.children(i)[k] as int].named {
            Some(self.children(i)[k] as int)
        } else {
            self.named_child_from(i, k + 1)
        }
    }

    /// `Node::named_child(0)`.
    pub open spec fn first_named_child(self, i: int) -> Option<int> {
        self.named_child_from(i, 0)
    }

    /// The first child of `i` at or after child position `k` whose kind is
    /// one of `ks`.
    pub open spec fn child_of_kinds_from(self, i: int, ks: Seq<Seq<char>>, k: int) -> Option<int>
        decreases self.children(i).len() - k,
    {
        if k < 0 || k >= self.children(i).len() {
            None
        } else if ks.contains(self.kind(self.children(i)[k] as int)) {
            Some(self.children(i)[k] as int)
        } else {
            self.child_of_kinds_from(i, ks, k + 1)
        }
    }

    /// The first child of `i` whose kind is one of `ks`.
    pub open spec fn child_of_kinds(self, i: int, ks: Seq<Seq<char>>) -> Option<int> {
        self.child_of_kinds_from(i, ks, 0)
    }

    /// The named child of `i` with index `idx` among the named children at
    /// or after child position `k`.
    pub open spec fn nth_named_from(self, i: int, idx: int, k: int) -> Option<int>
        decreases self.children(i).len() - k,
    {
        if k < 0 || k >= self.children(i).len() {
            None
        } else if self.nodes[self.children(i)[k] as int].named {
            if idx == 0 {
                Some(self.children(i)[k] as int)
            } else {
                self.nth_named_from(i, idx - 1, k + 1)
            }
        } else {
            self.nth_named_from(i, idx, k + 1)
        }
    }

    /// The position of `c` among the named children of `i` from child
    /// position `k` on, if it is one of them.
    pub open spec fn named_position_from(self, i: int, c: int, k: int) -> Option<int>
        decreases self.children(i).len() - k,
    {
        if k < 0 || k >= self.children(i).len() {
            None
        } else if self.nodes[self.children(i)[k] as int].named {
            if self.children(i)[k] == c {
                Some(0)
            } else {
                match self.named_position_from(i, c, k + 1) {
                    Some(p) => Some(p + 1),
                    None => None,
                }
            }
        } else {
            self.named_position_from(i, c, k + 1)
        }
    }

    /// The parent of node `i`.
    pub open spec fn parent(self, i: int) -> Option<int> {
        match self.nodes[i].parent {
            Some(p) => Some(p as int),
            None => None,
        }
    }

    /// Node `c` sits strictly inside node `i`'s subtree, with its own
    /// subtree nested in `i`'s.
    pub open spec fn nested_in(self, c: int, i: int) -> bool {
        &&& i < c < self.end(c) <= self.end(i)
        &&& c < self.nodes.len()
    }
}

/// A kind-selected child is a nested child.
pub proof fn lemma_child_of_kinds_nested(t: TreeModel, i: int, ks: Seq<Seq<char>>, k: int)
    requires
        t.wf(),
        0 <= i < t.nodes.len(),
        0 <= k,
    ensures
        t.child_of_kinds_from(i, ks, k) matches Some(c) ==> t.nested_in(c, i),
    decreases t.children(i).len() - k,
{
    if k < t.children(i).len() {
        lemma_child_nested(t, i, k);
        lemma_child_of_kinds_nested(t, i, ks, k + 1);
    }
}

/// An indexed named child is a nested child.
pub proof fn lemma_nth_named_nested(t: TreeModel, i: int, idx: int, k: int)
    requires
        t.wf(),
        0 <= i < t.nodes.len(),
        0 <= k,
    ensures
        t.nth_named_from(i, idx, k) matches Some(c) ==> t.nested_in(c, i),
    decreases t.children(i).len() - k,
{
    if k < t.children(i).len() {
        lemma_child_nested(t, i, k);
        lemma_nth_named_nested(t, i, idx - 1, k + 1);
        lemma_nth_named_nested(t, i, idx, k + 1);
    }
}

/// Each child of a node is nested in it.
pub proof fn lemma_child_nested(t: TreeModel, i: int, k: int)
    requires
        t.wf(),
        0 <= i < t.nodes.len(),
        0 <= k < t.children(i).len(),
    ensures
        t.nested_in(t.children(i)[k] as int, i),
{
    assert(t.node_wf(i));
    let c = t.children(i)[k] as int;
    assert(t.node_wf(c));
}

/// A field child is a nested child.
pub proof fn lemma_field_child_nested(t: TreeModel, i: int, f: Seq<char>, k: int)
    requires
        t.wf(),
        0 <= i < t.nodes.len(),
        0 <= k,
    ensures
        t.field_child_from(i, f, k) matches Some(c) ==> t.nested_in(c, i),
    decreases t.children(i).len() - k,
{
    if k < t.children(i).len() {
        lemma_child_nested(t, i, k);
        lemma_field_child_nested(t, i, f, k + 1);
    }
}

/// A named child is a nested child.
pub proof fn lemma_named_child_nested(t: TreeModel, i: int, k: int)
    requires
        t.wf(),
        0 <= i < t.nodes.len(),
        0 <= k,
    ensures
        t.named_child_from(i, k) matches Some(c) ==> t.nested_in(c, i),
    decreases t.children(i).len() - k,
{
    if k < t.children(i).len() {
        lemma_child_nested(t, i, k);
        lemma_named_child_nested(t, i, k + 1);
    }
}

/// A parsed source file: its nodes in pre-order and its text.
pub struct SyntaxTree {
    nodes: Vec<SyntaxNode>,
    source: Vec<char>,
}

impl View for SyntaxTree {
    type V = TreeModel;

    closed spec fn view(&self) -> TreeModel {
        TreeModel { nodes: self.nodes@, source: self.source@ }
    }
}

impl SyntaxTree {
    #[verifier::type_invariant]
    closed spec fn inv(&self) -> bool {
        self@.wf()
    }

    /// Every tree is well formed (a no-op at run time that brings the
    /// invariant into a caller's proof).
    pub fn assert_wf(&self)
        ensures
            self@.wf(),
    {
        proof {
            use_type_invariant(self);
        }
    }

    /// Assembles a tree from parts already known to be well formed.
    pub fn from_parts(nodes: Vec<SyntaxNode>, source: Vec<char>) -> (r: SyntaxTree)
        requires
            (TreeModel { nodes: nodes@, source: source@ }).wf(),
        ensures
            r@.nodes == nodes@,
            r@.source == source@,
    {
        SyntaxTree { nodes, source }
    }

    /// Number of nodes (at least one: the root).
    pub fn len(&self) -> (r: usize)
        ensures
            r == self@.nodes.len(),
            r >= 1,
    {
        proof {
            use_type_invariant(self);
        }
        self.nodes.len()
    }

    /// Node `i`.
    pub fn node(&self, i: usize) -> (r: &SyntaxNode)
        requires
            i < self@.nodes.len(),
        ensures
            *r == self@.nodes[i as int],
    {
        &self.nodes[i]
    }

    /// The source text, as characters.
    pub fn source(&self) -> (r: &[char])
        ensures
            r@ == self@.source,
    {
        self.source.as_slice()
    }

    /// The text of node `i`, if its span falls on character boundaries.
    pub fn text(&self, i: usize) -> (r: Option<&[char]>)
        requires
            i < self@.nodes.len(),
        ensures
            match r {
                Some(t) => self@.text(i as int) == Some(t@),
                None => self@.text(i as int) is None,
            },
    {
        proof {
            use_type_invariant(self);
            assert(self@.span_wf(i as int));
        }
        match self.nodes[i].text {
            Some((a, b)) => Some(&self.source.as_slice()[a..b]),
            None => None,
        }
    }

    /// The text of node `i` as a `String` (empty when it has none).
    pub fn text_string(&self, i: usize) -> (r: String)
        requires
            i < self@.nodes.len(),
        ensures
            r@ == self@.text_or_empty(i as int),
    {
        match self.text(i) {
            Some(t) => crate::text::string_from_chars(t),
            None => String::new(),
        }
    }

    /// Whether node `i` has kind `kind`.
    pub fn kind_is(&self, i: usize, kind: &str) -> (r: bool)
        requires
            i < self@.nodes.len(),
        ensures
            r == (self@.kind(i as int) == kind@),
    {
        str_eq(self.nodes[i].kind.as_str(), kind)
    }

    /// One past the last index of node `i`'s subtree.
    pub fn end(&self, i: usize) -> (r: usize)
        requires
            i < self@.nodes.len(),
        ensures
            r == self@.end(i as int),
            i < r <= self@.nodes.len(),
    {
        proof {
            use_type_invariant(self);
            assert(self@.node_wf(i as int));
        }
        self.nodes[i].end
    }

    /// `Node::child_by_field_name`: the first child of `i` under field
    /// `field`.
    pub fn field_child(&self, i: usize, field: &str) -> (r: Option<usize>)
        requires
            i < self@.nodes.len(),
        ensures
            match r {
                Some(c) => self@.field_child(i as int, field@) == Some(c as int),
                None => self@.field_child(i as int, field@) is None,
            },
            r matches Some(c) ==> self@.nested_in(c as int, i as int),
    {
        proof {
            use_type_invariant(self);
            assert(self@.node_wf(i as int));
            lemma_field_child_nested(self@, i as int, field@, 0);
        }
        let n = &self.nodes[i];
        let mut k: usize = 0;
        while k < n.children.len()
            invariant
                0 <= k <= n.children@.len(),
                *n == self@.nodes[i as int],
                self@.node_wf(i as int),
                self@.field_child(i as int, field@) == self@.field_child_from(i as int, field@, k as int),
                self@.field_child(i as int, field@) matches Some(c) ==> self@.nested_in(c, i as int),
            decreases n.children.len() - k,
        {
            let c = n.children[k];
            proof {
                assert(self@.node_wf(i as int));
                let cc = n.children@[k as int];
                assert(i < cc < self@.end(i as int));
            }
            assert(c < self@.nodes.len());
            match &self.nodes[c].field {
                Some(name) => {
                    if str_eq(name.as_str(), field) {
                        return Some(c);
                    }
                },
                None => {},
            }
            k = k + 1;
        }
        None
    }

    /// `Node::named_child(0)`: the first named child of node `i`.
    pub fn first_named_child(&self, i: usize) -> (r: Option<usize>)
        requires
            i < self@.nodes.len(),
        ensures
            match r {
                Some(c) => self@.first_named_child(i as int) == Some(c as int),
                None => self@.first_named_child(i as int) is None,
            },
            r matches Some(c) ==> self@.nested_in(c as int, i as int),
    {
        proof {
            use_type_invariant(self);
            lemma_named_child_nested(self@, i as int, 0);
        }
        let n = &self.nodes[i];
        let mut k: usize = 0;
        while k < n.children.len()
            invariant
                0 <= k <= n.children@.len(),
                *n == self@.nodes[i as int],
                self@.wf(),
                i < self@.nodes.len(),
                self@.first_named_child(i as int) == self@.named_child_from(i as int, k as int),
            decreases n.children.len() - k,
        {
            let c = n.children[k];
            proof {
                lemma_child_nested(self@, i as int, k as int);
            }
            if self.nodes[c].named {
                return Some(c);
            }
            k = k + 1;
        }
        None
    }

    /// Start byte of node `i`.
    pub fn start_byte(&self, i: usize) -> (r: usize)
        requires
            i < self@.nodes.len(),
        ensures
            r == self@.nodes[i as int].start_byte,
    {
        self.nodes[i].start_byte
    }

    /// End byte of node `i`.
    pub fn end_byte(&self, i: usize) -> (r: usize)
        requires
            i < self@.nodes.len(),
        ensures
            r == self@.nodes[i as int].end_byte,
    {
        self.nodes[i].end_byte
    }

    /// The first child of node `i` whose kind is one of `kinds`.
    pub fn child_of_kinds(&self, i: usize, kinds: &[&'static str]) -> (r: Option<usize>)
        requires
            i < self@.nodes.len(),
        ensures
            match r {
                Some(c) => self@.child_of_kinds(i as int, crate::registry::str_views(kinds@)) == Some(c as int),
                None => self@.child_of_kinds(i as int, crate::registry::str_views(kinds@)) is None,
            },
            r matches Some(c) ==> self@.nested_in(c as int, i as int),
    {
        proof {
            use_type_invariant(self);
            lemma_child_of_kinds_nested(self@, i as int, crate::registry::str_views(kinds@), 0);
        }
        let ghost ks = crate::registry::str_views(kinds@);
        let n = &self.nodes[i];
        let mut k: usize = 0;
        while k < n.children.len()
            invariant
                0 <= k <= n.children@.len(),
                *n == self@.nodes[i as int],
                self@.wf(),
                i < self@.nodes.len(),
                ks == crate::registry::str_views(kinds@),
                self@.child_of_kinds(i as int, ks) == self@.child_of_kinds_from(i as int, ks, k as int),
            decreases n.children.len() - k,
        {
            let c = n.children[k];
            proof {
                lemma_child_nested(self@, i as int, k as int);
            }
            if crate::registry::strs_contain(kinds, self.nodes[c].kind.as_str()) {
                return Some(c);
            }
            k = k + 1;
        }
        None
    }

    /// The named child of node `i` with index `idx` among its named
    /// children (`children().filter(is_named).nth(idx)`).
    pub fn nth_named_child(&self, i: usize, idx: usize) -> (r: Option<usize>)
        requires
            i < self@.nodes.len(),
        ensures
            match r {
                Some(c) => self@.nth_named_from(i as int, idx as int, 0) == Some(c as int),
                None => self@.nth_named_from(i as int, idx as int, 0) is None,
            },
            r matches Some(c) ==> self@.nested_in(c as int, i as int),
    {
        proof {
            use_type_invariant(self);
            lemma_nth_named_nested(self@, i as int, idx as int, 0);
        }
        let n = &self.nodes[i];
        let mut k: usize = 0;
        let mut left: usize = idx;
        while k < n.children.len()
            invariant
                0 <= k <= n.children@.len(),
                *n == self@.nodes[i as int],
                self@.wf(),
                i < self@.nodes.len(),
                self@.nth_named_from(i as int, idx as int, 0) == self@.nth_named_from(i as int, left as int, k as int),
                self@.nth_named_from(i as int, left as int, k as int) matches Some(c) ==> self@.nested_in(c, i as int),
            decreases n.children.len() - k,
        {
            let c = n.children[k];
            proof {
                lemma_child_nested(self@, i as int, k as int);
                lemma_nth_named_nested(self@, i as int, left - 1, k + 1);
            }
            if self.nodes[c].named {
                if left == 0 {
                    return Some(c);
                }
                left = left - 1;
            }
            k = k + 1;
        }
        None
    }

    /// The position of node `c` among the named children of node `i`.
    pub fn named_position(&self, i: usize, c: usize) -> (r: Option<usize>)
        requires
            i < self@.nodes.len(),
        ensures
            match r {
                Some(p) => self@.named_position_from(i as int, c as int, 0) == Some(p as int),
                None => self@.named_position_from(i as int, c as int, 0) is None,
            },
    {
        let n = &self.nodes[i];
        let ghost t = self@;
        let mut k: usize = 0;
        let mut count: usize = 0;
        while k < n.children.len()
            invariant
                0 <= k <= n.children@.len(),
                *n == t.nodes[i as int],
                t == self@,
                i < t.nodes.len(),
                count <= k,
                t.named_position_from(i as int, c as int, 0) == (match t.named_position_from(i as int, c as int, k as int) {
                    Some(p) => Some(p + count),
                    None => None,
                }),
            decreases n.children.len() - k,
        {
            let ch = n.children[k];
            proof {
                use_type_invariant(self);
                lemma_child_nested(self@, i as int, k as int);
            }
            if self.nodes[ch].named {
                if ch == c {
                    return Some(count);
                }
                count = count + 1;
            }
            k = k + 1;
        }
        None
    }

    /// The parent of node `i`.
    pub fn parent(&self, i: usize) -> (r: Option<usize>)
        requires
            i < self@.nodes.len(),
        ensures
            match r {
                Some(p) => self@.parent(i as int) == Some(p as int) && p < i,
                None => self@.parent(i as int) is None,
            },
    {
        proof {
            use_type_invariant(self);
            assert(self@.node_wf(i as int));
        }
        self.nodes[i].parent
    }

    /// Whether node `i` is, or contains, a syntax error.
    pub fn has_error(&self, i: usize) -> (r: bool)
        requires
            i < self@.nodes.len(),
        ensures
            r == self@.nodes[i as int].has_error,
    {
        self.nodes[i].has_error
    }

    /// Whether node `i` is named.
    pub fn is_named(&self, i: usize) -> (r: bool)
        requires
            i < self@.nodes.len(),
        ensures
            r == self@.nodes[i as int].named,
    {
        self.nodes[i].named
    }
}

} // verus!
