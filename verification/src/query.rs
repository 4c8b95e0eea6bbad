//! Generic pattern-matching primitives over a [`SyntaxTree`]: find the
//! descendants or ancestors of a node that match a predicate. Language
//! agnostic: they only look at node kinds and positions.
//!
//! Nodes are named by their pre-order index in the tree, so a node's
//! descendants are the index range `node..end(node)` and every walk here
//! is a loop, never a recursion.

use vstd::prelude::*;
use crate::registry::{str_views, strs_contain};
use crate::syntax::SyntaxTree;
use crate::syntax::TreeModel;

verus! {

/// The source text spanned by `node`. Returns `""` for a span that does not
/// fall on character boundaries.
pub fn node_text(tree: &SyntaxTree, node: usize) -> (r: String)
    requires
        node < tree@.nodes.len(),
    ensures
        r@ == tree@.text_or_empty(node as int),
{
    tree.text_string(node)
}

/// The nodes among `root..n` (pre-order indices) satisfying `p`, in order.
pub open spec fn matching_upto(root: int, n: int, p: spec_fn(int) -> bool) -> Seq<usize>
    decreases n - root,
{
    if n <= root {
        Seq::empty()
    } else if p(n - 1) {
        matching_upto(root, n - 1, p).push((n - 1) as usize)
    } else {
        matching_upto(root, n - 1, p)
    }
}

/// Every node `matching_upto` lists lies in `root..n`.
pub proof fn lemma_matching_upto_bounds(root: int, n: int, p: spec_fn(int) -> bool)
    requires
        0 <= root,
        n <= usize::MAX,
    ensures
        forall|k: int|
            0 <= k < matching_upto(root, n, p).len() ==> root <= #[trigger] matching_upto(root, n, p)[k] < n,
    decreases n - root,
{
    if n > root {
        lemma_matching_upto_bounds(root, n - 1, p);
        let prev = matching_upto(root, n - 1, p);
        if p(n - 1) {
            let cur = prev.push((n - 1) as usize);
            assert forall|k: int| 0 <= k < cur.len() implies root <= #[trigger] cur[k] < n by {
                if k < prev.len() {
                    assert(cur[k] == prev[k]);
                }
            }
        }
    }
}

/// The descendants of `root` (itself included) whose kind is one of `ks`,
/// in pre-order.
pub open spec fn descendants_of_kinds(t: TreeModel, root: int, ks: Seq<Seq<char>>) -> Seq<usize> {
    matching_upto(root, t.end(root), |i: int| ks.contains(t.kind(i)))
}

/// `r` lists, in increasing order, exactly those nodes of `lo..hi` for
/// which the predicate was observed to hold; for every other node of the
/// range it was observed to fail.
pub open spec fn selected_by<F: Fn(usize) -> bool>(r: Seq<usize>, lo: int, hi: int, pred: F) -> bool {
    &&& forall|i: int, j: int| 0 <= i < j < r.len() ==> #[trigger] r[i] < #[trigger] r[j]
    &&& forall|i: int| 0 <= i < r.len() ==> lo <= #[trigger] r[i] < hi
    &&& forall|x: usize|
        lo <= x < hi ==> (r.contains(x) ==> call_ensures(pred, (x,), true)) && (!r.contains(x)
            ==> call_ensures(pred, (x,), false))
}

/// Depth-first, pre-order search (root included) for every node matching
/// `predicate`. Descends into a matched node's children too, so nested
/// matches are all returned.
pub fn find_descendants<F: Fn(usize) -> bool>(tree: &SyntaxTree, root: usize, predicate: F) -> (r: Vec<usize>)
    requires
        root < tree@.nodes.len(),
        forall|x: usize| call_requires(predicate, (x,)),
    ensures
        selected_by(r@, root as int, tree@.end(root as int), predicate),
{
    let end = tree.end(root);
    let mut out: Vec<usize> = Vec::new();
    let mut i = root;
    while i < end
        invariant
            root <= i <= end,
            end == tree@.end(root as int),
            forall|x: usize| call_requires(predicate, (x,)),
            forall|a: int, b: int| 0 <= a < b < out@.len() ==> #[trigger] out@[a] < #[trigger] out@[b],
            forall|a: int| 0 <= a < out@.len() ==> root <= #[trigger] out@[a] < i,
            forall|x: usize|
                root <= x < i ==> (out@.contains(x) ==> call_ensures(predicate, (x,), true)) && (
                !out@.contains(x) ==> call_ensures(predicate, (x,), false)),
        decreases end - i,
    {
        let hit = predicate(i);
        let ghost before = out@;
        if hit {
            out.push(i);
        }
        proof {
            assert forall|x: usize| root <= x < i + 1 implies (out@.contains(x) ==> call_ensures(
                predicate,
                (x,),
                true,
            )) && (!out@.contains(x) ==> call_ensures(predicate, (x,), false)) by {
                if x < i {
                    if out@.contains(x) {
                        let k = choose|k: int| 0 <= k < out@.len() && out@[k] == x;
                        assert(before[k] == x);
                    }
                    if before.contains(x) {
                        let k = choose|k: int| 0 <= k < before.len() && before[k] == x;
                        assert(out@[k] == x);
                    }
                } else if hit {
                    assert(out@[before.len() as int] == x);
                } else {
                    assert(!before.contains(x));
                }
            }
        }
        i = i + 1;
    }
    out
}

/// The descendants of `root` (itself included) whose kind is `kind`.
pub fn find_descendants_of_kind(tree: &SyntaxTree, root: usize, kind: &str) -> (r: Vec<usize>)
    requires
        root < tree@.nodes.len(),
    ensures
        r@ == matching_upto(root as int, tree@.end(root as int), |i: int| tree@.kind(i) == kind@),
{
    let end = tree.end(root);
    let ghost p = |i: int| tree@.kind(i) == kind@;
    let mut out: Vec<usize> = Vec::new();
    let mut i = root;
    while i < end
        invariant
            root <= i <= end,
            end <= tree@.nodes.len(),
            p == (|i: int| tree@.kind(i) == kind@),
            out@ == matching_upto(root as int, i as int, p),
        decreases end - i,
    {
        if tree.kind_is(i, kind) {
            out.push(i);
        }
        i = i + 1;
    }
    out
}

/// The descendants of `root` (itself included) whose kind is one of
/// `kinds`.
pub fn find_descendants_of_kinds(tree: &SyntaxTree, root: usize, kinds: &[&'static str]) -> (r: Vec<usize>)
    requires
        root < tree@.nodes.len(),
    ensures
        r@ == descendants_of_kinds(tree@, root as int, str_views(kinds@)),
{
    let end = tree.end(root);
    let ghost ks = str_views(kinds@);
    let ghost p = |i: int| ks.contains(tree@.kind(i));
    let mut out: Vec<usize> = Vec::new();
    let mut i = root;
    while i < end
        invariant
            root <= i <= end,
            end == tree@.end(root as int),
            end <= tree@.nodes.len(),
            ks == str_views(kinds@),
            p == (|i: int| ks.contains(tree@.kind(i))),
            out@ == matching_upto(root as int, i as int, p),
        decreases end - i,
    {
        if strs_contain(kinds, tree.node(i).kind.as_str()) {
            out.push(i);
        }
        i = i + 1;
    }
    out
}

/// Depth-first, pre-order search (root included) for the first node
/// matching `predicate`.
pub fn find_first_descendant<F: Fn(usize) -> bool>(tree: &SyntaxTree, root: usize, predicate: F) -> (r: Option<usize>)
    requires
        root < tree@.nodes.len(),
        forall|x: usize| call_requires(predicate, (x,)),
    ensures
        match r {
            Some(x) => {
                &&& root <= x < tree@.end(root as int)
                &&& call_ensures(predicate, (x,), true)
                &&& forall|y: usize| root <= y < x ==> call_ensures(predicate, (y,), false)
            },
            None => forall|y: usize| root <= y < tree@.end(root as int) ==> call_ensures(predicate, (y,), false),
        },
{
    let end = tree.end(root);
    let mut i = root;
    while i < end
        invariant
            root <= i <= end,
            end == tree@.end(root as int),
            forall|x: usize| call_requires(predicate, (x,)),
            forall|y: usize| root <= y < i ==> call_ensures(predicate, (y,), false),
        decreases end - i,
    {
        if predicate(i) {
            return Some(i);
        }
        i = i + 1;
    }
    None
}

/// Walks `node`'s ancestor chain (parent, grandparent, ... — `node` itself
/// is not checked) for the nearest one matching `predicate`.
pub fn find_ancestor<F: Fn(usize) -> bool>(tree: &SyntaxTree, node: usize, predicate: F) -> (r: Option<usize>)
    requires
        node < tree@.nodes.len(),
        forall|x: usize| call_requires(predicate, (x,)),
    ensures
        match r {
            Some(a) => {
                &&& is_ancestor(tree@, a as int, node as int)
                &&& call_ensures(predicate, (a,), true)
                &&& forall|x: usize|
                    #[trigger] is_ancestor(tree@, x as int, node as int) && a < x ==> call_ensures(predicate, (x,), false)
            },
            None => forall|x: usize| #[trigger] is_ancestor(tree@, x as int, node as int) ==> call_ensures(predicate, (x,), false),
        },
{
    let mut current = tree.parent(node);
    let ghost start = node;
    proof {
        assert forall|x: usize| #[trigger] is_ancestor(tree@, x as int, start as int) implies (match current {
            Some(c) => x <= c,
            None => false,
        }) by {
            lemma_ancestor_below_parent(tree@, x as int, start as int);
        }
    }
    loop
        invariant
            current matches Some(c) ==> c < tree@.nodes.len() && is_ancestor(tree@, c as int, start as int),
            start < tree@.nodes.len(),
            start == node,
            forall|x: usize| call_requires(predicate, (x,)),
            forall|x: usize|
                #[trigger] is_ancestor(tree@, x as int, start as int) && (match current {
                    Some(c) => c < x,
                    None => true,
                }) ==> call_ensures(predicate, (x,), false),
        decreases match current {
            Some(c) => c as int + 1,
            None => 0,
        },
    {
        match current {
            Some(n) => {
                if predicate(n) {
                    return Some(n);
                }
                let next = tree.parent(n);
                proof {
                    if let Some(p) = next {
                        lemma_ancestor_step(tree@, p as int, n as int, start as int);
                    }
                    assert forall|x: usize| #[trigger] is_ancestor(tree@, x as int, start as int) && (match next {
                        Some(c) => c < x,
                        None => true,
                    }) implies call_ensures(predicate, (x,), false) by {
                        if x < n {
                            lemma_ancestor_between(tree@, x as int, n as int, start as int);
                            lemma_ancestor_below_parent(tree@, x as int, n as int);
                        }
                    }
                }
                current = next;
            },
            None => {
                return None;
            },
        }
    }
}

/// An ancestor of `n` lies at or above `n`'s parent.
proof fn lemma_ancestor_below_parent(t: TreeModel, x: int, n: int)
    requires
        is_ancestor(t, x, n),
    ensures
        t.parent(n) matches Some(p) && x <= p,
{
    if let Some(p) = t.parent(n) {
        if p != x {
            lemma_ancestor_lt(t, x, p);
        }
    }
}

/// A proper ancestor has a smaller index.
proof fn lemma_ancestor_lt(t: TreeModel, x: int, n: int)
    requires
        is_ancestor(t, x, n),
    ensures
        x < n,
    decreases n,
{
    if let Some(p) = t.parent(n) {
        if p != x {
            lemma_ancestor_lt(t, x, p);
        }
    }
}

/// Two ancestors of `n` lie on one chain: the higher is an ancestor of the
/// lower.
proof fn lemma_ancestor_between(t: TreeModel, x: int, c: int, n: int)
    requires
        is_ancestor(t, x, n),
        is_ancestor(t, c, n),
        x < c,
    ensures
        is_ancestor(t, x, c),
    decreases n,
{
    if let Some(q) = t.parent(n) {
        if x == q {
            if c != q {
                lemma_ancestor_lt(t, c, q);
            }
        } else if c != q {
            lemma_ancestor_between(t, x, c, q);
        }
    }
}

/// `a` is a proper ancestor of `n`: reached from `n` by following parent
/// links at least once.
pub open spec fn is_ancestor(t: TreeModel, a: int, n: int) -> bool
    decreases n,
{
    if n <= 0 || n >= t.nodes.len() {
        false
    } else {
        match t.parent(n) {
            Some(p) => p < n && (p == a || is_ancestor(t, a, p)),
            None => false,
        }
    }
}

proof fn lemma_ancestor_step(t: TreeModel, p: int, c: int, n: int)
    requires
        is_ancestor(t, c, n),
        0 <= c < t.nodes.len(),
        t.parent(c) == Some(p),
        0 <= p < c,
    ensures
        is_ancestor(t, p, n),
    decreases n,
{
    if let Some(q) = t.parent(n) {
        if q != c {
            lemma_ancestor_step(t, p, c, q);
        }
    }
}

/// The nearest proper ancestor of `n` whose kind is one of `ks`.
pub open spec fn nearest_ancestor(t: TreeModel, n: int, ks: Seq<Seq<char>>) -> Option<int>
    decreases n,
{
    if n <= 0 || n >= t.nodes.len() {
        None
    } else {
        match t.parent(n) {
            Some(p) => if ks.contains(t.kind(p)) {
                Some(p)
            } else if p < n {
                nearest_ancestor(t, p, ks)
            } else {
                None
            },
            None => None,
        }
    }
}

/// The nearest enclosing node (not `node` itself) whose kind is one of
/// `kinds`.
pub fn nearest_ancestor_of_kinds(tree: &SyntaxTree, node: usize, kinds: &[&'static str]) -> (r: Option<usize>)
    requires
        node < tree@.nodes.len(),
    ensures
        match r {
            Some(a) => nearest_ancestor(tree@, node as int, str_views(kinds@)) == Some(a as int),
            None => nearest_ancestor(tree@, node as int, str_views(kinds@)) is None,
        },
{
    let ghost ks = str_views(kinds@);
    let mut cur = node;
    loop
        invariant
            cur < tree@.nodes.len(),
            ks == str_views(kinds@),
            nearest_ancestor(tree@, node as int, ks) == nearest_ancestor(tree@, cur as int, ks),
        decreases cur,
    {
        tree.assert_wf();
        proof {
            assert(tree@.node_wf(cur as int));
        }
        match tree.parent(cur) {
            Some(p) => {
                if strs_contain(kinds, tree.node(p).kind.as_str()) {
                    return Some(p);
                }
                cur = p;
            },
            None => {
                return None;
            },
        }
    }
}

/// The nearest enclosing node (not `node` itself) of kind `kind` (e.g.
/// "nearest enclosing function").
pub fn nearest_ancestor_of_kind(tree: &SyntaxTree, node: usize, kind: &'static str) -> (r: Option<usize>)
    requires
        node < tree@.nodes.len(),
    ensures
        match r {
            Some(a) => nearest_ancestor(tree@, node as int, seq![kind@]) == Some(a as int),
            None => nearest_ancestor(tree@, node as int, seq![kind@]) is None,
        },
{
    let kinds: [&'static str; 1] = [kind];
    let r = nearest_ancestor_of_kinds(tree, node, &kinds);
    assert(str_views(kinds@) =~= seq![kind@]);
    r
}

} // verus!
