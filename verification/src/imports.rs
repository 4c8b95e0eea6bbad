//! Syntactic import-source extraction.
//!
//! Pulls out the raw text of every import / include / use / require target,
//! per language: no path resolution, no following of `as` aliases — just
//! what the file's syntax names as a dependency. Dispatch is keyed on the
//! registry's language key.

use vstd::prelude::*;
use crate::regions::strings_view;
use crate::syntax::{SyntaxTree, TreeModel, lemma_child_nested};
use crate::text::{chars_eq, chars_of, str_eq, string_from_chars, trim, trim_slice};

verus! {

/// A node's text, trimmed (empty when its span is not on character
/// boundaries).
pub open spec fn ntext(t: TreeModel, n: int) -> Seq<char> {
    trim(t.text_or_empty(n))
}

fn ntext_exec(tree: &SyntaxTree, n: usize) -> (r: Vec<char>)
    requires
        n < tree@.nodes.len(),
    ensures
        r@ == ntext(tree@, n as int),
{
    match tree.text(n) {
        Some(t) => vstd::slice::slice_to_vec(trim_slice(t)),
        None => {
            let v: Vec<char> = Vec::new();
            assert(v@ =~= trim(Seq::<char>::empty()));
            v
        },
    }
}

/// Strips a single layer of quoting/bracketing: `"foo"`, `'foo'` and
/// `<foo>` all become `foo`; anything else is left as it is.
pub open spec fn spec_unquote(s: Seq<char>) -> Seq<char> {
    if s.len() >= 2 && ((s[0] == '"' && s.last() == '"') || (s[0] == '\'' && s.last() == '\'') || (
    s[0] == '<' && s.last() == '>')) {
        s.subrange(1, s.len() - 1)
    } else {
        s
    }
}

/// Strips a single layer of quoting/bracketing from a source-literal token:
/// `"foo"`, `'foo'`, `<foo>` all become `foo`. Leaves plain identifiers
/// untouched.
pub fn unquote(s: &str) -> (r: String)
    ensures
        r@ == spec_unquote(s@),
{
    let v = chars_of(s);
    string_from_chars(unquote_chars(v.as_slice()))
}

fn unquote_chars(s: &[char]) -> (r: &[char])
    ensures
        r@ == spec_unquote(s@),
{
    let n = s.len();
    if n >= 2 {
        let first = s[0];
        let last = s[n - 1];
        if (first == '"' && last == '"') || (first == '\'' && last == '\'') || (first == '<' && last
            == '>') {
            return &s[1..n - 1];
        }
    }
    s
}

/// The children of `n` from child position `k` on whose kind is in `ks`
/// (and that are named, with `named_only`).
pub open spec fn kids_of_kinds(t: TreeModel, n: int, ks: Seq<Seq<char>>, named_only: bool, k: int) -> Seq<int>
    decreases t.children(n).len() - k,
{
    if k < 0 || k >= t.children(n).len() {
        Seq::empty()
    } else {
        let c = t.children(n)[k] as int;
        let rest = kids_of_kinds(t, n, ks, named_only, k + 1);
        if ks.contains(t.kind(c)) && (!named_only || t.nodes[c].named) {
            seq![c] + rest
        } else {
            rest
        }
    }
}

/// The children of `n` from child position `k` on under field `f` (and
/// named, with `named_only`).
pub open spec fn field_kids(t: TreeModel, n: int, f: Seq<char>, named_only: bool, k: int) -> Seq<int>
    decreases t.children(n).len() - k,
{
    if k < 0 || k >= t.children(n).len() {
        Seq::empty()
    } else {
        let c = t.children(n)[k] as int;
        let rest = field_kids(t, n, f, named_only, k + 1);
        if (t.nodes[c].field matches Some(name) && name@ == f) && (!named_only || t.nodes[c].named) {
            seq![c] + rest
        } else {
            rest
        }
    }
}

/// The trimmed texts of nodes `ns`.
pub open spec fn texts(t: TreeModel, ns: Seq<int>) -> Seq<Seq<char>> {
    ns.map_values(|c: int| ntext(t, c))
}

/// The first element of `s`, as a sequence of at most one.
pub open spec fn first_only(s: Seq<Seq<char>>) -> Seq<Seq<char>> {
    if s.len() > 0 {
        seq![s[0]]
    } else {
        Seq::empty()
    }
}

/// `parts` joined with `sep` between consecutive parts.
pub open spec fn join(parts: Seq<Seq<char>>, sep: char) -> Seq<char>
    decreases parts.len(),
{
    if parts.len() == 0 {
        Seq::empty()
    } else if parts.len() == 1 {
        parts[0]
    } else {
        join(parts.drop_last(), sep).push(sep) + parts.last()
    }
}

/// The joined parts, as one entry, when there are any.
pub open spec fn joined_entry(parts: Seq<Seq<char>>) -> Seq<Seq<char>> {
    if parts.len() > 0 {
        seq![join(parts, '.')]
    } else {
        Seq::empty()
    }
}

/// The trimmed text of `n`'s `field` child, as an entry (unquoted with
/// `unq`).
pub open spec fn field_entry(t: TreeModel, n: int, f: Seq<char>, unq: bool) -> Seq<Seq<char>> {
    match t.field_child(n, f) {
        Some(c) => seq![
            if unq {
                spec_unquote(ntext(t, c))
            } else {
                ntext(t, c)
            },
        ],
        None => Seq::empty(),
    }
}

/// The name of one `import a` / `import a as b` target.
pub open spec fn python_import_name(t: TreeModel, c: int) -> Seq<char> {
    if t.kind(c) == "aliased_import"@ {
        match t.field_child(c, "name"@) {
            Some(nm) => ntext(t, nm),
            None => ntext(t, c),
        }
    } else {
        ntext(t, c)
    }
}

/// `#include` paths (C, C++).
pub open spec fn extract_c(t: TreeModel, n: int) -> Seq<Seq<char>> {
    if t.kind(n) == "preproc_include"@ { field_entry(t, n, "path"@, true) } else { Seq::empty() }
}

/// `use` arguments (Rust).
pub open spec fn extract_rust(t: TreeModel, n: int) -> Seq<Seq<char>> {
    if t.kind(n) == "use_declaration"@ { field_entry(t, n, "argument"@, false) } else { Seq::empty() }
}

/// `import` names and `from` modules (Python).
pub open spec fn extract_python(t: TreeModel, n: int) -> Seq<Seq<char>> {
    if t.kind(n) == "import_statement"@ {
        field_kids(t, n, "name"@, false, 0).map_values(|c: int| python_import_name(t, c))
    } else if t.kind(n) == "import_from_statement"@ {
        field_entry(t, n, "module_name"@, false)
    } else {
        Seq::empty()
    }
}

/// Import sources (JavaScript, TypeScript).
pub open spec fn extract_js(t: TreeModel, n: int) -> Seq<Seq<char>> {
    if t.kind(n) == "import_statement"@ || t.kind(n) == "import_require_clause"@ {
        field_entry(t, n, "source"@, true)
    } else {
        Seq::empty()
    }
}

/// Import paths (Go).
pub open spec fn extract_go(t: TreeModel, n: int) -> Seq<Seq<char>> {
    if t.kind(n) == "import_spec"@ { field_entry(t, n, "path"@, true) } else { Seq::empty() }
}

/// Imported names (Java).
pub open spec fn extract_java(t: TreeModel, n: int) -> Seq<Seq<char>> {
    if t.kind(n) == "import_declaration"@ {
        texts(t, kids_of_kinds(t, n, seq!["identifier"@, "scoped_identifier"@], true, 0))
    } else {
        Seq::empty()
    }
}

/// `using` targets (C#): the `name` field (an alias) or the first named
/// child.
pub open spec fn extract_csharp(t: TreeModel, n: int) -> Seq<Seq<char>> {
    if t.kind(n) == "using_directive"@ {
        match t.field_child(n, "name"@) {
            Some(c) => seq![ntext(t, c)],
            None => match t.first_named_child(n) {
                Some(c) => seq![ntext(t, c)],
                None => Seq::empty(),
            },
        }
    } else {
        Seq::empty()
    }
}

/// Imported names (Kotlin).
pub open spec fn extract_kotlin(t: TreeModel, n: int) -> Seq<Seq<char>> {
    if t.kind(n) == "import"@ {
        first_only(texts(t, kids_of_kinds(t, n, seq!["identifier"@, "qualified_identifier"@], true, 0)))
    } else {
        Seq::empty()
    }
}

/// Imported modules, dotted (Swift).
pub open spec fn extract_swift(t: TreeModel, n: int) -> Seq<Seq<char>> {
    if t.kind(n) == "import_declaration"@ {
        joined_entry(texts(t, kids_of_kinds(t, n, seq!["identifier"@], true, 0)))
    } else {
        Seq::empty()
    }
}

/// `use` names and included files (PHP).
pub open spec fn extract_php(t: TreeModel, n: int) -> Seq<Seq<char>> {
    let k = t.kind(n);
    if k == "namespace_use_declaration"@ {
        texts(t, kids_of_kinds(t, n, seq!["namespace_name"@, "qualified_name"@, "name"@], true, 0))
    } else if k == "namespace_use_clause"@ {
        first_only(texts(t, kids_of_kinds(t, n, seq!["name"@, "qualified_name"@], true, 0)))
    } else if k == "include_expression"@ || k == "include_once_expression"@ || k == "require_expression"@
        || k == "require_once_expression"@ {
        match t.first_named_child(n) {
            Some(c) => seq![spec_unquote(ntext(t, c))],
            None => Seq::empty(),
        }
    } else {
        Seq::empty()
    }
}

/// `use` modules and included files (Fortran).
pub open spec fn extract_fortran(t: TreeModel, n: int) -> Seq<Seq<char>> {
    if t.kind(n) == "use_statement"@ {
        first_only(texts(t, kids_of_kinds(t, n, seq!["module_name"@], true, 0)))
    } else if t.kind(n) == "include_statement"@ {
        field_entry(t, n, "path"@, true)
    } else {
        Seq::empty()
    }
}

/// Imported paths, dotted (Scala).
pub open spec fn extract_scala(t: TreeModel, n: int) -> Seq<Seq<char>> {
    if t.kind(n) == "import_declaration"@ {
        joined_entry(texts(t, field_kids(t, n, "path"@, true, 0)))
    } else {
        Seq::empty()
    }
}

/// `require` arguments (Lua).
pub open spec fn extract_lua(t: TreeModel, n: int) -> Seq<Seq<char>> {
    if t.kind(n) == "function_call"@ {
        match t.field_child(n, "name"@) {
            Some(nm) => if ntext(t, nm) == "require"@ {
                match t.field_child(n, "arguments"@) {
                    Some(args) => match t.first_named_child(args) {
                        Some(first) => seq![spec_unquote(ntext(t, first))],
                        None => Seq::empty(),
                    },
                    None => Seq::empty(),
                }
            } else {
                Seq::empty()
            },
            None => Seq::empty(),
        }
    } else {
        Seq::empty()
    }
}

/// `with`ed packages (Ada; `use` only re-references them).
pub open spec fn extract_ada(t: TreeModel, n: int) -> Seq<Seq<char>> {
    if t.kind(n) == "with_clause"@ {
        texts(t, kids_of_kinds(t, n, seq!["identifier"@, "selected_component"@], true, 0))
    } else {
        Seq::empty()
    }
}

/// The import sources node `n` itself names, for language `key`.
pub open spec fn extract(t: TreeModel, key: Seq<char>, n: int) -> Seq<Seq<char>> {
    if key == "c"@ || key == "cpp"@ {
        extract_c(t, n)
    } else if key == "rust"@ {
        extract_rust(t, n)
    } else if key == "python"@ {
        extract_python(t, n)
    } else if key == "javascript"@ || key == "typescript"@ {
        extract_js(t, n)
    } else if key == "go"@ {
        extract_go(t, n)
    } else if key == "java"@ {
        extract_java(t, n)
    } else if key == "csharp"@ {
        extract_csharp(t, n)
    } else if key == "kotlin"@ {
        extract_kotlin(t, n)
    } else if key == "swift"@ {
        extract_swift(t, n)
    } else if key == "php"@ {
        extract_php(t, n)
    } else if key == "fortran"@ {
        extract_fortran(t, n)
    } else if key == "scala"@ {
        extract_scala(t, n)
    } else if key == "lua"@ {
        extract_lua(t, n)
    } else if key == "ada"@ {
        extract_ada(t, n)
    } else {
        Seq::empty()
    }
}

/// The import sources of nodes `0..n`, in pre-order.
pub open spec fn imports_upto(t: TreeModel, key: Seq<char>, n: int) -> Seq<Seq<char>>
    decreases n,
{
    if n <= 0 {
        Seq::empty()
    } else {
        imports_upto(t, key, n - 1) + extract(t, key, n - 1)
    }
}

/// The import sources of the whole tree, in depth-first order.
pub open spec fn spec_import_sources(t: TreeModel, key: Seq<char>) -> Seq<Seq<char>> {
    imports_upto(t, key, t.nodes.len() as int)
}

/// The registry keys whose import syntax is extracted.
pub open spec fn imports_supported(key: Seq<char>) -> bool {
    ||| key == "c"@
    ||| key == "cpp"@
    ||| key == "rust"@
    ||| key == "python"@
    ||| key == "javascript"@
    ||| key == "typescript"@
    ||| key == "go"@
    ||| key == "java"@
    ||| key == "csharp"@
    ||| key == "kotlin"@
    ||| key == "swift"@
    ||| key == "php"@
    ||| key == "fortran"@
    ||| key == "scala"@
    ||| key == "lua"@
    ||| key == "ada"@
}

/// A key whose import syntax is not modeled yields no import sources,
/// whatever the tree: nothing is guessed.
pub proof fn unsupported_key_yields_no_imports(t: TreeModel, key: Seq<char>)
    requires
        !imports_supported(key),
    ensures
        spec_import_sources(t, key) == Seq::<Seq<char>>::empty(),
{
    lemma_imports_upto_empty(t, key, t.nodes.len() as int);
}

proof fn lemma_imports_upto_empty(t: TreeModel, key: Seq<char>, n: int)
    requires
        !imports_supported(key),
    ensures
        imports_upto(t, key, n) == Seq::<Seq<char>>::empty(),
    decreases n,
{
    if n > 0 {
        lemma_imports_upto_empty(t, key, n - 1);
        assert(imports_upto(t, key, n) =~= Seq::<Seq<char>>::empty());
    }
}

/// Node indices as integers.
pub open spec fn idx_view(v: Seq<usize>) -> Seq<int> {
    v.map_values(|x: usize| x as int)
}

fn kids_of_kinds_exec(tree: &SyntaxTree, n: usize, kinds: &[&'static str], named_only: bool) -> (r: Vec<usize>)
    requires
        n < tree@.nodes.len(),
    ensures
        idx_view(r@) == kids_of_kinds(tree@, n as int, crate::registry::str_views(kinds@), named_only, 0),
        forall|i: int| 0 <= i < r@.len() ==> #[trigger] r@[i] < tree@.nodes.len(),
{
    tree.assert_wf();
    let ghost t = tree@;
    let ghost ks = crate::registry::str_views(kinds@);
    let nc = tree.node(n).children.len();
    let mut out: Vec<usize> = Vec::new();
    let mut k: usize = 0;
    assert(idx_view(out@) =~= Seq::<int>::empty());
    while k < nc
        invariant
            t == tree@,
            t.wf(),
            n < t.nodes.len(),
            nc == t.children(n as int).len(),
            k <= nc,
            ks == crate::registry::str_views(kinds@),
            idx_view(out@) + kids_of_kinds(t, n as int, ks, named_only, k as int) == kids_of_kinds(
                t,
                n as int,
                ks,
                named_only,
                0,
            ),
            forall|i: int| 0 <= i < out@.len() ==> #[trigger] out@[i] < t.nodes.len(),
        decreases nc - k,
    {
        let c = tree.node(n).children[k];
        proof {
            lemma_child_nested(t, n as int, k as int);
        }
        if crate::registry::strs_contain(kinds, tree.node(c).kind.as_str()) && (!named_only || tree.is_named(c)) {
            let ghost before = idx_view(out@);
            out.push(c);
            assert(idx_view(out@) =~= before.push(c as int));
            assert(before.push(c as int) + kids_of_kinds(t, n as int, ks, named_only, k + 1) =~= before + (seq![c as int]
                + kids_of_kinds(t, n as int, ks, named_only, k + 1)));
        }
        k = k + 1;
    }
    assert(idx_view(out@) =~= idx_view(out@) + kids_of_kinds(t, n as int, ks, named_only, nc as int));
    out
}

fn field_kids_exec(tree: &SyntaxTree, n: usize, field: &str, named_only: bool) -> (r: Vec<usize>)
    requires
        n < tree@.nodes.len(),
    ensures
        idx_view(r@) == field_kids(tree@, n as int, field@, named_only, 0),
        forall|i: int| 0 <= i < r@.len() ==> #[trigger] r@[i] < tree@.nodes.len(),
{
    tree.assert_wf();
    let ghost t = tree@;
    let nc = tree.node(n).children.len();
    let mut out: Vec<usize> = Vec::new();
    let mut k: usize = 0;
    assert(idx_view(out@) =~= Seq::<int>::empty());
    while k < nc
        invariant
            t == tree@,
            t.wf(),
            n < t.nodes.len(),
            nc == t.children(n as int).len(),
            k <= nc,
            idx_view(out@) + field_kids(t, n as int, field@, named_only, k as int) == field_kids(
                t,
                n as int,
                field@,
                named_only,
                0,
            ),
            forall|i: int| 0 <= i < out@.len() ==> #[trigger] out@[i] < t.nodes.len(),
        decreases nc - k,
    {
        let c = tree.node(n).children[k];
        proof {
            lemma_child_nested(t, n as int, k as int);
        }
        let has_field = match &tree.node(c).field {
            Some(name) => str_eq(name.as_str(), field),
            None => false,
        };
        if has_field && (!named_only || tree.is_named(c)) {
            let ghost before = idx_view(out@);
            out.push(c);
            assert(idx_view(out@) =~= before.push(c as int));
            assert(before.push(c as int) + field_kids(t, n as int, field@, named_only, k + 1) =~= before + (seq![c as int]
                + field_kids(t, n as int, field@, named_only, k + 1)));
        }
        k = k + 1;
    }
    assert(idx_view(out@) =~= idx_view(out@) + field_kids(t, n as int, field@, named_only, nc as int));
    out
}

fn texts_exec(tree: &SyntaxTree, ns: &Vec<usize>) -> (r: Vec<Vec<char>>)
    requires
        forall|i: int| 0 <= i < ns@.len() ==> #[trigger] ns@[i] < tree@.nodes.len(),
    ensures
        r@.map_values(|v: Vec<char>| v@) == texts(tree@, idx_view(ns@)),
{
    let mut out: Vec<Vec<char>> = Vec::new();
    let mut i: usize = 0;
    while i < ns.len()
        invariant
            i <= ns@.len(),
            forall|j: int| 0 <= j < ns@.len() ==> #[trigger] ns@[j] < tree@.nodes.len(),
            out@.map_values(|v: Vec<char>| v@) == texts(tree@, idx_view(ns@.take(i as int))),
        decreases ns.len() - i,
    {
        let ghost before = out@.map_values(|v: Vec<char>| v@);
        let t = ntext_exec(tree, ns[i]);
        let ghost tv = t@;
        out.push(t);
        proof {
            assert(out@.map_values(|v: Vec<char>| v@) =~= before.push(tv));
            assert(idx_view(ns@.take(i + 1)) =~= idx_view(ns@.take(i as int)).push(ns@[i as int] as int));
            assert(texts(tree@, idx_view(ns@.take(i + 1))) =~= texts(tree@, idx_view(ns@.take(i as int))).push(tv));
        }
        i = i + 1;
    }
    assert(ns@.take(ns@.len() as int) =~= ns@);
    out
}

fn join_exec(parts: &Vec<Vec<char>>) -> (r: Vec<char>)
    ensures
        r@ == join(parts@.map_values(|v: Vec<char>| v@), '.'),
{
    let ghost ps = parts@.map_values(|v: Vec<char>| v@);
    let mut acc: Vec<char> = Vec::new();
    let mut i: usize = 0;
    while i < parts.len()
        invariant
            i <= parts@.len(),
            ps == parts@.map_values(|v: Vec<char>| v@),
            acc@ == join(ps.take(i as int), '.'),
        decreases parts.len() - i,
    {
        let ghost before = acc@;
        if i > 0 {
            acc.push('.');
        }
        let p = &parts[i];
        let mut j: usize = 0;
        let ghost mid = acc@;
        while j < p.len()
            invariant
                j <= p@.len(),
                acc@ == mid + p@.take(j as int),
            decreases p.len() - j,
        {
            acc.push(p[j]);
            j = j + 1;
            assert(acc@ =~= mid + p@.take(j as int));
        }
        proof {
            assert(p@.take(p@.len() as int) =~= p@);
            assert(ps[i as int] == p@);
            assert(ps.take(i + 1).drop_last() =~= ps.take(i as int));
            if i == 0 {
                assert(ps.take(1).len() == 1);
                assert(acc@ =~= p@);
            } else {
                assert(acc@ =~= before.push('.') + p@);
            }
        }
        i = i + 1;
    }
    assert(ps.take(ps.len() as int) =~= ps);
    acc
}

/// Appends `e` (unquoted, with `unq`) to `out`.
fn push_entry(out: &mut Vec<String>, e: &[char], unq: bool)
    ensures
        strings_view(final(out)@) == strings_view(old(out)@).push(if unq {
            spec_unquote(e@)
        } else {
            e@
        }),
{
    let ghost before = strings_view(out@);
    let s = if unq {
        string_from_chars(unquote_chars(e))
    } else {
        string_from_chars(e)
    };
    let ghost sv = s@;
    out.push(s);
    assert(strings_view(out@) =~= before.push(sv));
}

fn field_entry_exec(tree: &SyntaxTree, n: usize, f: &str, unq: bool, out: &mut Vec<String>)
    requires
        n < tree@.nodes.len(),
    ensures
        strings_view(final(out)@) == strings_view(old(out)@) + field_entry(tree@, n as int, f@, unq),
{
    let ghost before = strings_view(out@);
    match tree.field_child(n, f) {
        Some(c) => {
            let t = ntext_exec(tree, c);
            push_entry(out, t.as_slice(), unq);
            assert(strings_view(out@) =~= before + field_entry(tree@, n as int, f@, unq));
        },
        None => {
            assert(strings_view(out@) =~= before + Seq::<Seq<char>>::empty());
        },
    }
}

/// Appends all of `ts` to `out`.
fn push_all(out: &mut Vec<String>, ts: &Vec<Vec<char>>)
    ensures
        strings_view(final(out)@) == strings_view(old(out)@) + ts@.map_values(|v: Vec<char>| v@),
{
    let ghost start = strings_view(out@);
    let ghost tv = ts@.map_values(|v: Vec<char>| v@);
    let mut i: usize = 0;
    while i < ts.len()
        invariant
            i <= ts@.len(),
            tv == ts@.map_values(|v: Vec<char>| v@),
            strings_view(out@) == start + tv.take(i as int),
        decreases ts.len() - i,
    {
        let ghost before = strings_view(out@);
        push_entry(out, ts[i].as_slice(), false);
        assert(tv.take(i + 1) =~= tv.take(i as int).push(tv[i as int]));
        assert(strings_view(out@) =~= start + tv.take(i + 1));
        i = i + 1;
    }
    assert(tv.take(tv.len() as int) =~= tv);
}

/// Appends the first of `ts`, if any, to `out`.
fn push_first(out: &mut Vec<String>, ts: &Vec<Vec<char>>)
    ensures
        strings_view(final(out)@) == strings_view(old(out)@) + first_only(ts@.map_values(|v: Vec<char>| v@)),
{
    let ghost before = strings_view(out@);
    if ts.len() > 0 {
        push_entry(out, ts[0].as_slice(), false);
        assert(strings_view(out@) =~= before + first_only(ts@.map_values(|v: Vec<char>| v@)));
    } else {
        assert(strings_view(out@) =~= before + first_only(ts@.map_values(|v: Vec<char>| v@)));
    }
}

/// Appends the dotted join of `ts`, if any, to `out`.
fn push_joined(out: &mut Vec<String>, ts: &Vec<Vec<char>>)
    ensures
        strings_view(final(out)@) == strings_view(old(out)@) + joined_entry(ts@.map_values(|v: Vec<char>| v@)),
{
    let ghost before = strings_view(out@);
    if ts.len() > 0 {
        let j = join_exec(ts);
        push_entry(out, j.as_slice(), false);
        assert(strings_view(out@) =~= before + joined_entry(ts@.map_values(|v: Vec<char>| v@)));
    } else {
        assert(strings_view(out@) =~= before + joined_entry(ts@.map_values(|v: Vec<char>| v@)));
    }
}

/// Appends the texts of the children of `n` of kinds `kinds` (all of
/// them, or only the first with `first`).
fn push_kids(tree: &SyntaxTree, n: usize, kinds: &[&'static str], first: bool, out: &mut Vec<String>)
    requires
        n < tree@.nodes.len(),
    ensures
        strings_view(final(out)@) == strings_view(old(out)@) + (if first {
            first_only(texts(tree@, kids_of_kinds(tree@, n as int, crate::registry::str_views(kinds@), true, 0)))
        } else {
            texts(tree@, kids_of_kinds(tree@, n as int, crate::registry::str_views(kinds@), true, 0))
        }),
{
    let ks = kids_of_kinds_exec(tree, n, kinds, true);
    let ts = texts_exec(tree, &ks);
    if first {
        push_first(out, &ts);
    } else {
        push_all(out, &ts);
    }
}

fn kinds_view_1(a: &'static str) -> (r: [&'static str; 1])
    ensures
        crate::registry::str_views(r@) == seq![a@],
{
    let r: [&'static str; 1] = [a];
    assert(crate::registry::str_views(r@) =~= seq![a@]);
    r
}

fn kinds_view_2(a: &'static str, b: &'static str) -> (r: [&'static str; 2])
    ensures
        crate::registry::str_views(r@) == seq![a@, b@],
{
    let r: [&'static str; 2] = [a, b];
    assert(crate::registry::str_views(r@) =~= seq![a@, b@]);
    r
}

fn kinds_view_3(a: &'static str, b: &'static str, c: &'static str) -> (r: [&'static str; 3])
    ensures
        crate::registry::str_views(r@) == seq![a@, b@, c@],
{
    let r: [&'static str; 3] = [a, b, c];
    assert(crate::registry::str_views(r@) =~= seq![a@, b@, c@]);
    r
}

fn extract_python_exec(tree: &SyntaxTree, n: usize, out: &mut Vec<String>)
    requires
        n < tree@.nodes.len(),
    ensures
        strings_view(final(out)@) == strings_view(old(out)@) + extract_python(tree@, n as int),
{
    let ghost start = strings_view(out@);
    if tree.kind_is(n, "import_statement") {
        let ks = field_kids_exec(tree, n, "name", false);
        let ghost kv = idx_view(ks@);
        let ghost want = kv.map_values(|c: int| python_import_name(tree@, c));
        let mut i: usize = 0;
        while i < ks.len()
            invariant
                i <= ks@.len(),
                kv == idx_view(ks@),
                want == kv.map_values(|c: int| python_import_name(tree@, c)),
                forall|j: int| 0 <= j < ks@.len() ==> #[trigger] ks@[j] < tree@.nodes.len(),
                strings_view(out@) == start + want.take(i as int),
            decreases ks.len() - i,
        {
            let c = ks[i];
            let ghost before = strings_view(out@);
            let name = if tree.kind_is(c, "aliased_import") {
                match tree.field_child(c, "name") {
                    Some(nm) => ntext_exec(tree, nm),
                    None => ntext_exec(tree, c),
                }
            } else {
                ntext_exec(tree, c)
            };
            push_entry(out, name.as_slice(), false);
            assert(want.take(i + 1) =~= want.take(i as int).push(want[i as int]));
            assert(strings_view(out@) =~= start + want.take(i + 1));
            i = i + 1;
        }
        assert(want.take(want.len() as int) =~= want);
    } else if tree.kind_is(n, "import_from_statement") {
        field_entry_exec(tree, n, "module_name", false, out);
    } else {
        assert(strings_view(out@) =~= start + Seq::<Seq<char>>::empty());
    }
}

fn extract_csharp_exec(tree: &SyntaxTree, n: usize, out: &mut Vec<String>)
    requires
        n < tree@.nodes.len(),
    ensures
        strings_view(final(out)@) == strings_view(old(out)@) + extract_csharp(tree@, n as int),
{
    let ghost start = strings_view(out@);
    if tree.kind_is(n, "using_directive") {
        let target = match tree.field_child(n, "name") {
            Some(c) => Some(c),
            None => tree.first_named_child(n),
        };
        match target {
            Some(c) => {
                let t = ntext_exec(tree, c);
                push_entry(out, t.as_slice(), false);
                assert(strings_view(out@) =~= start + seq![t@]);
            },
            None => {
                assert(strings_view(out@) =~= start + Seq::<Seq<char>>::empty());
            },
        }
    } else {
        assert(strings_view(out@) =~= start + Seq::<Seq<char>>::empty());
    }
}

fn extract_php_exec(tree: &SyntaxTree, n: usize, out: &mut Vec<String>)
    requires
        n < tree@.nodes.len(),
    ensures
        strings_view(final(out)@) == strings_view(old(out)@) + extract_php(tree@, n as int),
{
    let ghost start = strings_view(out@);
    if tree.kind_is(n, "namespace_use_declaration") {
        push_kids(tree, n, &kinds_view_3("namespace_name", "qualified_name", "name"), false, out);
    } else if tree.kind_is(n, "namespace_use_clause") {
        push_kids(tree, n, &kinds_view_2("name", "qualified_name"), true, out);
    } else if tree.kind_is(n, "include_expression") || tree.kind_is(n, "include_once_expression")
        || tree.kind_is(n, "require_expression") || tree.kind_is(n, "require_once_expression") {
        match tree.first_named_child(n) {
            Some(c) => {
                let t = ntext_exec(tree, c);
                push_entry(out, t.as_slice(), true);
                assert(strings_view(out@) =~= start + seq![spec_unquote(t@)]);
            },
            None => {
                assert(strings_view(out@) =~= start + Seq::<Seq<char>>::empty());
            },
        }
    } else {
        assert(strings_view(out@) =~= start + Seq::<Seq<char>>::empty());
    }
}

fn extract_lua_exec(tree: &SyntaxTree, n: usize, out: &mut Vec<String>)
    requires
        n < tree@.nodes.len(),
    ensures
        strings_view(final(out)@) == strings_view(old(out)@) + extract_lua(tree@, n as int),
{
    let ghost start = strings_view(out@);
    assert(strings_view(out@) =~= start + Seq::<Seq<char>>::empty());
    if !tree.kind_is(n, "function_call") {
        return ;
    }
    let name = match tree.field_child(n, "name") {
        Some(nm) => nm,
        None => {
            return ;
        },
    };
    let req = chars_of("require");
    if !chars_eq(ntext_exec(tree, name).as_slice(), req.as_slice()) {
        return ;
    }
    let args = match tree.field_child(n, "arguments") {
        Some(a) => a,
        None => {
            return ;
        },
    };
    match tree.first_named_child(args) {
        Some(first) => {
            let t = ntext_exec(tree, first);
            push_entry(out, t.as_slice(), true);
            assert(strings_view(out@) =~= start + seq![spec_unquote(t@)]);
        },
        None => {},
    }
}

/// Appends `field_entry(n, f, unq)` when `n` has kind `kind`.
fn kind_field_entry(tree: &SyntaxTree, n: usize, kind: &str, f: &str, unq: bool, out: &mut Vec<String>)
    requires
        n < tree@.nodes.len(),
    ensures
        strings_view(final(out)@) == strings_view(old(out)@) + (if tree@.kind(n as int) == kind@ {
            field_entry(tree@, n as int, f@, unq)
        } else {
            Seq::empty()
        }),
{
    if tree.kind_is(n, kind) {
        field_entry_exec(tree, n, f, unq, out);
    } else {
        assert(strings_view(out@) =~= strings_view(out@) + Seq::<Seq<char>>::empty());
    }
}

fn extract_js_exec(tree: &SyntaxTree, n: usize, out: &mut Vec<String>)
    requires
        n < tree@.nodes.len(),
    ensures
        strings_view(final(out)@) == strings_view(old(out)@) + extract_js(tree@, n as int),
{
    if tree.kind_is(n, "import_statement") || tree.kind_is(n, "import_require_clause") {
        field_entry_exec(tree, n, "source", true, out);
    } else {
        assert(strings_view(out@) =~= strings_view(out@) + Seq::<Seq<char>>::empty());
    }
}

/// Appends the texts of `n`'s children of kinds `kinds` (or only the first)
/// when `n` has kind `kind`.
fn kind_kids(tree: &SyntaxTree, n: usize, kind: &str, kinds: &[&'static str], first: bool, out: &mut Vec<String>)
    requires
        n < tree@.nodes.len(),
    ensures
        strings_view(final(out)@) == strings_view(old(out)@) + (if tree@.kind(n as int) == kind@ {
            if first {
                first_only(texts(tree@, kids_of_kinds(tree@, n as int, crate::registry::str_views(kinds@), true, 0)))
            } else {
                texts(tree@, kids_of_kinds(tree@, n as int, crate::registry::str_views(kinds@), true, 0))
            }
        } else {
            Seq::empty()
        }),
{
    if tree.kind_is(n, kind) {
        push_kids(tree, n, kinds, first, out);
    } else {
        assert(strings_view(out@) =~= strings_view(out@) + Seq::<Seq<char>>::empty());
    }
}

fn extract_swift_exec(tree: &SyntaxTree, n: usize, out: &mut Vec<String>)
    requires
        n < tree@.nodes.len(),
    ensures
        strings_view(final(out)@) == strings_view(old(out)@) + extract_swift(tree@, n as int),
{
    if tree.kind_is(n, "import_declaration") {
        let ks = kids_of_kinds_exec(tree, n, &kinds_view_1("identifier"), true);
        let ts = texts_exec(tree, &ks);
        push_joined(out, &ts);
    } else {
        assert(strings_view(out@) =~= strings_view(out@) + Seq::<Seq<char>>::empty());
    }
}

fn extract_fortran_exec(tree: &SyntaxTree, n: usize, out: &mut Vec<String>)
    requires
        n < tree@.nodes.len(),
    ensures
        strings_view(final(out)@) == strings_view(old(out)@) + extract_fortran(tree@, n as int),
{
    if tree.kind_is(n, "use_statement") {
        push_kids(tree, n, &kinds_view_1("module_name"), true, out);
    } else if tree.kind_is(n, "include_statement") {
        field_entry_exec(tree, n, "path", true, out);
    } else {
        assert(strings_view(out@) =~= strings_view(out@) + Seq::<Seq<char>>::empty());
    }
}

fn extract_scala_exec(tree: &SyntaxTree, n: usize, out: &mut Vec<String>)
    requires
        n < tree@.nodes.len(),
    ensures
        strings_view(final(out)@) == strings_view(old(out)@) + extract_scala(tree@, n as int),
{
    if tree.kind_is(n, "import_declaration") {
        let ks = field_kids_exec(tree, n, "path", true);
        let ts = texts_exec(tree, &ks);
        push_joined(out, &ts);
    } else {
        assert(strings_view(out@) =~= strings_view(out@) + Seq::<Seq<char>>::empty());
    }
}

fn extract_exec(tree: &SyntaxTree, key: &str, n: usize, out: &mut Vec<String>)
    requires
        n < tree@.nodes.len(),
    ensures
        strings_view(final(out)@) == strings_view(old(out)@) + extract(tree@, key@, n as int),
{
    if str_eq(key, "c") || str_eq(key, "cpp") {
        kind_field_entry(tree, n, "preproc_include", "path", true, out);
    } else if str_eq(key, "rust") {
        kind_field_entry(tree, n, "use_declaration", "argument", false, out);
    } else if str_eq(key, "python") {
        extract_python_exec(tree, n, out);
    } else if str_eq(key, "javascript") || str_eq(key, "typescript") {
        extract_js_exec(tree, n, out);
    } else if str_eq(key, "go") {
        kind_field_entry(tree, n, "import_spec", "path", true, out);
    } else if str_eq(key, "java") {
        kind_kids(tree, n, "import_declaration", &kinds_view_2("identifier", "scoped_identifier"), false, out);
    } else if str_eq(key, "csharp") {
        extract_csharp_exec(tree, n, out);
    } else if str_eq(key, "kotlin") {
        kind_kids(tree, n, "import", &kinds_view_2("identifier", "qualified_identifier"), true, out);
    } else if str_eq(key, "swift") {
        extract_swift_exec(tree, n, out);
    } else if str_eq(key, "php") {
        extract_php_exec(tree, n, out);
    } else if str_eq(key, "fortran") {
        extract_fortran_exec(tree, n, out);
    } else if str_eq(key, "scala") {
        extract_scala_exec(tree, n, out);
    } else if str_eq(key, "lua") {
        extract_lua_exec(tree, n, out);
    } else if str_eq(key, "ada") {
        kind_kids(tree, n, "with_clause", &kinds_view_2("identifier", "selected_component"), false, out);
    } else {
        assert(strings_view(out@) =~= strings_view(out@) + Seq::<Seq<char>>::empty());
    }
}

/// Returns the raw text of every import-source found in `tree`, in
/// depth-first order, one entry per import site. Entries are not
/// deduplicated. Returns an empty vec for a `key` this module doesn't
/// recognize.
pub fn import_sources(tree: &SyntaxTree, key: &str) -> (r: Vec<String>)
    ensures
        strings_view(r@) == spec_import_sources(tree@, key@),
{
    let n = tree.len();
    let mut out: Vec<String> = Vec::new();
    let mut i: usize = 0;
    assert(strings_view(out@) =~= Seq::<Seq<char>>::empty());
    while i < n
        invariant
            i <= n,
            n == tree@.nodes.len(),
            strings_view(out@) == imports_upto(tree@, key@, i as int),
        decreases n - i,
    {
        extract_exec(tree, key, i, &mut out);
        i = i + 1;
    }
    out
}

/// The distinct import-source count for `tree`: the Ce (efferent
/// coupling) contribution of a single file.
pub fn distinct_import_count(tree: &SyntaxTree, key: &str) -> (r: usize)
    ensures
        r == spec_import_sources(tree@, key@).to_set().len(),
{
    let all = import_sources(tree, key);
    let ghost sv = strings_view(all@);
    let mut uniq: Vec<String> = Vec::new();
    let mut i: usize = 0;
    while i < all.len()
        invariant
            i <= all@.len(),
            sv == strings_view(all@),
            strings_view(uniq@).no_duplicates(),
            strings_view(uniq@).to_set() == sv.take(i as int).to_set(),
            uniq@.len() <= i,
        decreases all.len() - i,
    {
        let ghost before = strings_view(uniq@);
        let x = all[i].as_str();
        let mut found = false;
        let mut j: usize = 0;
        while j < uniq.len()
            invariant
                j <= uniq@.len(),
                before == strings_view(uniq@),
                found ==> before.contains(x@),
                !found ==> forall|k: int| 0 <= k < j ==> before[k] != x@,
            decreases uniq.len() - j,
        {
            assert(before[j as int] == uniq@[j as int]@);
            if str_eq(uniq[j].as_str(), x) {
                found = true;
            }
            j = j + 1;
        }
        proof {
            assert(sv.take(i + 1) =~= sv.take(i as int).push(sv[i as int]));
            sv.take(i as int).lemma_push_to_set_commute(sv[i as int]);
            assert(sv[i as int] == x@);
        }
        if !found {
            uniq.push(all[i].clone());
            proof {
                assert(strings_view(uniq@) =~= before.push(x@));
                before.lemma_push_to_set_commute(x@);
                assert(!before.contains(x@));
            }
        } else {
            proof {
                assert(before.to_set().contains(x@));
                assert(before.to_set().insert(x@) =~= before.to_set());
            }
        }
        i = i + 1;
    }
    proof {
        assert(sv.take(sv.len() as int) =~= sv);
        strings_view(uniq@).unique_seq_to_set();
    }
    uniq.len()
}

/// What node `n` names is part of the import sources of every longer
/// prefix of the tree.
proof fn lemma_imports_upto_has(t: TreeModel, key: Seq<char>, n: int, m: int, x: Seq<char>)
    requires
        0 <= n < m,
        extract(t, key, n).contains(x),
    ensures
        imports_upto(t, key, m).contains(x),
    decreases m,
{
    if m - 1 == n {
        let j = choose|j: int| 0 <= j < extract(t, key, n).len() && #[trigger] extract(t, key, n)[j] == x;
        assert(imports_upto(t, key, m)[imports_upto(t, key, n).len() + j] == x);
    } else {
        lemma_imports_upto_has(t, key, n, m - 1, x);
        let j = choose|j: int| 0 <= j < imports_upto(t, key, m - 1).len() && #[trigger] imports_upto(t, key, m - 1)[j] == x;
        assert(imports_upto(t, key, m)[j] == x);
    }
}

/// In a PHP file, every `include`, `include_once`, `require` and
/// `require_once` expression contributes its first named child's text,
/// trimmed and unquoted, to the import sources.
pub proof fn php_includes_and_requires_are_imported(t: TreeModel, n: int)
    requires
        0 <= n < t.nodes.len(),
        t.kind(n) == "include_expression"@ || t.kind(n) == "include_once_expression"@ || t.kind(n)
            == "require_expression"@ || t.kind(n) == "require_once_expression"@,
        t.first_named_child(n) is Some,
    ensures
        spec_import_sources(t, "php"@).contains(spec_unquote(trim(t.text_or_empty(t.first_named_child(n)->0)))),
{
    reveal_strlit("php");
    reveal_strlit("c");
    reveal_strlit("cpp");
    reveal_strlit("rust");
    reveal_strlit("python");
    reveal_strlit("javascript");
    reveal_strlit("typescript");
    reveal_strlit("go");
    reveal_strlit("java");
    reveal_strlit("csharp");
    reveal_strlit("kotlin");
    reveal_strlit("swift");
    assert("php"@.len() == 3 && "php"@[0] == 'p');
    assert("c"@.len() == 1);
    assert("cpp"@[0] == 'c');
    assert("rust"@.len() == 4);
    assert("python"@.len() == 6);
    assert("javascript"@.len() == 10);
    assert("typescript"@.len() == 10);
    assert("go"@.len() == 2);
    assert("java"@.len() == 4);
    assert("csharp"@.len() == 6);
    assert("kotlin"@.len() == 6);
    assert("swift"@.len() == 5);
    assert("php"@ != "c"@ && "php"@ != "cpp"@ && "php"@ != "rust"@ && "php"@ != "python"@);
    assert("php"@ != "javascript"@ && "php"@ != "typescript"@ && "php"@ != "go"@ && "php"@ != "java"@);
    assert("php"@ != "csharp"@ && "php"@ != "kotlin"@ && "php"@ != "swift"@);
    reveal_strlit("namespace_use_declaration");
    reveal_strlit("namespace_use_clause");
    reveal_strlit("include_expression");
    reveal_strlit("include_once_expression");
    reveal_strlit("require_expression");
    reveal_strlit("require_once_expression");
    assert("namespace_use_declaration"@.len() == 25 && "namespace_use_clause"@.len() == 20);
    assert("include_expression"@.len() == 18 && "include_once_expression"@.len() == 23);
    assert("require_expression"@.len() == 18 && "require_once_expression"@.len() == 23);
    let k = t.kind(n);
    assert(k != "namespace_use_declaration"@ && k != "namespace_use_clause"@);
    let x = spec_unquote(trim(t.text_or_empty(t.first_named_child(n)->0)));
    assert(extract(t, "php"@, n) == seq![x]);
    assert(extract(t, "php"@, n)[0] == x);
    lemma_imports_upto_has(t, "php"@, n, t.nodes.len() as int, x);
}

} // verus!
